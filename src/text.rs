//! Modified UTF-8, the text encoding of string payloads, through the `mutf8` crate.
use vstd::prelude::*;
use mutf8::{mstr, MString};

verus! {

/// The modified UTF-8 bytes of a text, as `mutf8` produces them.
pub uninterp spec fn mutf8_of(s: Seq<char>) -> Seq<u8>;

/// The text that `mutf8` decodes from a byte sequence, or `None` where the
/// bytes are not modified UTF-8.
pub uninterp spec fn text_of_mutf8(b: Seq<u8>) -> Option<Seq<char>>;

/// Relies on `mutf8::MString::from_utf8`: the modified UTF-8 form of `s`.
/// The conversion fails only on UTF-8 that ends inside a character, which a
/// `str` never does; the crate's decoder turns the result back into `s`, and
/// an empty text gives no bytes.
#[verifier::external_body]
pub(crate) fn to_mutf8(s: &str) -> (r: Vec<u8>)
    ensures
        r@ == mutf8_of(s@),
        text_of_mutf8(r@) == Some(s@),
        s@.len() == 0 ==> r@.len() == 0,
{
    match MString::from_utf8(s.as_bytes()) {
        Ok(m) => m.into_mutf8_bytes(),
        Err(_) => Vec::new(),
    }
}

/// Relies on `mutf8::mstr::to_str`: decodes modified UTF-8, failing on bytes
/// that do not form it.
#[verifier::external_body]
pub(crate) fn from_mutf8(b: &[u8]) -> (r: Option<String>)
    ensures
        match r {
            Some(s) => text_of_mutf8(b@) == Some(s@),
            None => text_of_mutf8(b@) is None,
        },
{
    match mstr::from_mutf8(b).to_str() {
        Ok(s) => Some(s.into_owned()),
        Err(_) => None,
    }
}

} // verus!
