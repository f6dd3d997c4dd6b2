//! The optional compression envelope around an encoded document, through
//! the `flate2` crate.
use vstd::prelude::*;
use std::io::{Read, Write};
use flate2::read::{GzDecoder, ZlibDecoder};
use flate2::write::{GzEncoder, ZlibEncoder};

verus! {

#[verifier::external_type_specification]
#[verifier::external_body]
pub struct ExIoError(std::io::Error);

/// How the bytes of a document are wrapped.
pub enum Compression {
    Uncompressed,
    GZIP,
    ZLIB,
}

/// The bytes that gzip data starts with.
pub const GZIP_MAGIC_FIRST: u8 = 0x1F;
pub const GZIP_MAGIC_SECOND: u8 = 0x8B;

/// The byte that zlib data starts with.
pub const ZLIB_MAGIC: u8 = 0x78;

/// What `flate2` decompresses from gzip data, or `None` where it fails.
pub uninterp spec fn gunzip_of(b: Seq<u8>) -> Option<Seq<u8>>;

/// What `flate2` decompresses from zlib data, or `None` where it fails.
pub uninterp spec fn inflate_of(b: Seq<u8>) -> Option<Seq<u8>>;

/// The gzip data that `flate2` makes of `b` at its default level.
pub uninterp spec fn gzip_of(b: Seq<u8>) -> Seq<u8>;

/// The zlib data that `flate2` makes of `b` at its default level.
pub uninterp spec fn zlib_of(b: Seq<u8>) -> Seq<u8>;

/// Relies on `flate2::read::GzDecoder`: decompresses gzip data, failing on
/// data that is not gzip.
#[verifier::external_body]
fn gunzip(b: &[u8]) -> (r: std::io::Result<Vec<u8>>)
    ensures
        match r {
            Ok(x) => gunzip_of(b@) == Some(x@),
            Err(_) => gunzip_of(b@) is None,
        },
{
    let mut data = Vec::new();
    GzDecoder::new(b).read_to_end(&mut data)?;
    Ok(data)
}

/// Relies on `flate2::read::ZlibDecoder`: decompresses zlib data, failing on
/// data that is not zlib.
#[verifier::external_body]
fn inflate(b: &[u8]) -> (r: std::io::Result<Vec<u8>>)
    ensures
        match r {
            Ok(x) => inflate_of(b@) == Some(x@),
            Err(_) => inflate_of(b@) is None,
        },
{
    let mut data = Vec::new();
    ZlibDecoder::new(b).read_to_end(&mut data)?;
    Ok(data)
}

/// Relies on `flate2::write::GzEncoder` at `flate2::Compression::default()`,
/// with the default header: compresses `b` to gzip data. Writing into a
/// `Vec<u8>` does not fail.
#[verifier::external_body]
fn gzip(b: &[u8]) -> (r: std::io::Result<Vec<u8>>)
    ensures
        r is Ok,
        r matches Ok(x) ==> x@ == gzip_of(b@),
{
    let mut encoder = GzEncoder::new(Vec::new(), flate2::Compression::default());
    encoder.write_all(b)?;
    encoder.finish()
}

/// Relies on `flate2::write::ZlibEncoder` at `flate2::Compression::default()`:
/// compresses `b` to zlib data. Writing into a `Vec<u8>` does not fail.
#[verifier::external_body]
fn zlib(b: &[u8]) -> (r: std::io::Result<Vec<u8>>)
    ensures
        r is Ok,
        r matches Ok(x) ==> x@ == zlib_of(b@),
{
    let mut encoder = ZlibEncoder::new(Vec::new(), flate2::Compression::default());
    encoder.write_all(b)?;
    encoder.finish()
}

/// The bytes that data wrapped by `c` starts with.
pub open spec fn magic_of(c: Compression) -> Seq<u8> {
    match c {
        Compression::Uncompressed => Seq::empty(),
        Compression::GZIP => seq![GZIP_MAGIC_FIRST, GZIP_MAGIC_SECOND],
        Compression::ZLIB => seq![ZLIB_MAGIC],
    }
}

impl Compression {
    /// Unwraps `buf`.
    pub fn decode(&self, buf: Vec<u8>) -> (r: std::io::Result<Vec<u8>>)
        ensures
            match self {
                Compression::Uncompressed => r matches Ok(x) && x@ == buf@,
                Compression::GZIP => match gunzip_of(buf@) {
                    Some(d) => r matches Ok(x) && x@ == d,
                    None => r is Err,
                },
                Compression::ZLIB => match inflate_of(buf@) {
                    Some(d) => r matches Ok(x) && x@ == d,
                    None => r is Err,
                },
            },
    {
        match self {
            Compression::Uncompressed => Ok(buf),
            Compression::GZIP => gunzip(buf.as_slice()),
            Compression::ZLIB => inflate(buf.as_slice()),
        }
    }

    /// Wraps `buf`.
    pub fn encode(&self, buf: Vec<u8>) -> (r: std::io::Result<Vec<u8>>)
        ensures
            match self {
                Compression::Uncompressed => r matches Ok(x) && x@ == buf@,
                Compression::GZIP => r matches Ok(x) && x@ == gzip_of(buf@),
                Compression::ZLIB => r matches Ok(x) && x@ == zlib_of(buf@),
            },
    {
        match self {
            Compression::Uncompressed => Ok(buf),
            Compression::GZIP => gzip(buf.as_slice()),
            Compression::ZLIB => zlib(buf.as_slice()),
        }
    }

    /// The name of the wrapping.
    pub fn as_str(&self) -> (r: &str)
        ensures
            r@ == match self {
                Compression::Uncompressed => "uncompressed"@,
                Compression::GZIP => "gzip"@,
                Compression::ZLIB => "zlib"@,
            },
    {
        match self {
            Compression::Uncompressed => "uncompressed",
            Compression::GZIP => "gzip",
            Compression::ZLIB => "zlib",
        }
    }

    /// The bytes that wrapped data starts with; none for uncompressed data.
    pub fn magic_number(&self) -> (r: Vec<u8>)
        ensures
            r@ == magic_of(*self),
    {
        let mut r: Vec<u8> = Vec::new();
        match self {
            Compression::Uncompressed => {},
            Compression::GZIP => {
                r.push(GZIP_MAGIC_FIRST);
                r.push(GZIP_MAGIC_SECOND);
            },
            Compression::ZLIB => {
                r.push(ZLIB_MAGIC);
            },
        }
        assert(r@ =~= magic_of(*self));
        r
    }
}

} // verus!
