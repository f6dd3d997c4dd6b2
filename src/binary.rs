//! Byte cursors over an encoded buffer, generic over byte order.
use vstd::prelude::*;
use vstd::string::StringExecFns;
use vstd::arithmetic::div_mod::lemma_breakdown;
use crate::text::{from_mutf8, to_mutf8, mutf8_of, text_of_mutf8};

verus! {

/// What can go wrong while decoding.
#[derive(Debug, PartialEq)]
pub enum BinError {
    /// A read asked for more bytes than remain.
    UnexpectedEndOfByteStream,
    /// A fixed-width slice could not be taken as its number type.
    Parse,
    /// The bytes break the format: an unknown type id, a bad list or array
    /// header, or text that is not modified UTF-8.
    Parsing(String),
}

pub type BinResult<T> = Result<T, BinError>;

/// `256` to the power `n`.
pub open spec fn pow256(n: nat) -> nat
    decreases n,
{
    if n == 0 { 1 } else { 256 * pow256((n - 1) as nat) }
}

/// The unsigned number whose least significant byte comes first.
pub open spec fn uint_le(s: Seq<u8>) -> nat
    decreases s.len(),
{
    if s.len() == 0 { 0 } else { s[0] as nat + 256 * uint_le(s.drop_first()) }
}

/// The unsigned number held by `s` in the given byte order.
pub open spec fn uint_of(s: Seq<u8>, big: bool) -> nat {
    if big { uint_le(s.reverse()) } else { uint_le(s) }
}

/// The `n` low bytes of `v`, least significant first.
pub open spec fn bytes_le(v: nat, n: nat) -> Seq<u8>
    decreases n,
{
    if n == 0 { Seq::empty() } else { seq![(v % 256) as u8] + bytes_le(v / 256, (n - 1) as nat) }
}

/// The `n` low bytes of `v` in the given byte order.
pub open spec fn bytes_of(v: nat, n: nat, big: bool) -> Seq<u8> {
    if big { bytes_le(v, n).reverse() } else { bytes_le(v, n) }
}

/// The `n` bytes at `pos`, where the buffer holds them.
pub open spec fn window(data: Seq<u8>, pos: int, n: int) -> Option<Seq<u8>> {
    if 0 <= pos && 0 <= n && pos + n <= data.len() {
        Some(data.subrange(pos, pos + n))
    } else {
        None
    }
}

pub proof fn lemma_pow256_positive(n: nat)
    ensures pow256(n) >= 1,
    decreases n,
{
    if n > 0 {
        lemma_pow256_positive((n - 1) as nat);
    }
}

pub proof fn lemma_uint_le_bound(s: Seq<u8>)
    ensures uint_le(s) < pow256(s.len()),
    decreases s.len(),
{
    if s.len() > 0 {
        lemma_uint_le_bound(s.drop_first());
        let r = uint_le(s.drop_first());
        let p = pow256((s.len() - 1) as nat);
        assert(r + 1 <= p);
        assert(256 * r + 256 <= 256 * p) by (nonlinear_arith)
            requires r + 1 <= p;
    }
}

pub proof fn lemma_uint_of_bound(s: Seq<u8>, big: bool)
    ensures uint_of(s, big) < pow256(s.len()),
{
    lemma_uint_le_bound(s);
    lemma_uint_le_bound(s.reverse());
}

pub proof fn lemma_bytes_le_len(v: nat, n: nat)
    ensures bytes_le(v, n).len() == n,
    decreases n,
{
    if n > 0 {
        lemma_bytes_le_len(v / 256, (n - 1) as nat);
    }
}

proof fn lemma_uint_le_bytes(v: nat, n: nat)
    ensures uint_le(bytes_le(v, n)) == v % pow256(n),
    decreases n,
{
    if n > 0 {
        let s = bytes_le(v, n);
        lemma_uint_le_bytes(v / 256, (n - 1) as nat);
        assert(s.drop_first() =~= bytes_le(v / 256, (n - 1) as nat));
        lemma_pow256_positive((n - 1) as nat);
        lemma_breakdown(v as int, 256, pow256((n - 1) as nat) as int);
    }
}

/// Reading back the bytes written for `v` gives `v` modulo `256^n`.
pub proof fn lemma_uint_round_trip(v: nat, n: nat, big: bool)
    ensures
        bytes_of(v, n, big).len() == n,
        uint_of(bytes_of(v, n, big), big) == v % pow256(n),
{
    lemma_bytes_le_len(v, n);
    lemma_uint_le_bytes(v, n);
    assert(bytes_le(v, n).reverse().reverse() =~= bytes_le(v, n));
}

/// The number held by the bytes of `s`, in the given byte order.
pub fn uint_from(s: &[u8], big: bool) -> (r: u64)
    requires s@.len() <= 8,
    ensures r == uint_of(s@, big),
{
    let n = s.len();
    let mut acc: u64 = 0;
    if big {
        let mut i: usize = 0;
        while i < n
            invariant
                n == s@.len() <= 8,
                i <= n,
                acc == uint_le(s@.subrange(0, i as int).reverse()),
            decreases n - i,
        {
            let ghost prev = s@.subrange(0, i as int);
            proof {
                lemma_uint_le_bound(prev.reverse());
                assert(prev.reverse().len() == i);
                lemma_pow256_mono(i as nat, 7);
                assert(uint_le(prev.reverse()) < pow256(i as nat));
                assert(acc < 0x100000000000000);
                assert(s@.subrange(0, i + 1).reverse() =~= seq![s@[i as int]] + prev.reverse());
                assert((seq![s@[i as int]] + prev.reverse()).drop_first() =~= prev.reverse());
            }
            acc = acc * 256 + s[i] as u64;
            i = i + 1;
        }
        assert(s@.subrange(0, n as int) =~= s@);
    } else {
        let mut i: usize = n;
        while i > 0
            invariant
                n == s@.len() <= 8,
                i <= n,
                acc == uint_le(s@.subrange(i as int, n as int)),
            decreases i,
        {
            let ghost prev = s@.subrange(i as int, n as int);
            proof {
                lemma_uint_le_bound(prev);
                lemma_pow256_mono((n - i) as nat, 7);
                assert(prev.len() == n - i);
                assert(uint_le(prev) < pow256((n - i) as nat));
                assert(acc < 0x100000000000000);
                assert(s@.subrange(i - 1, n as int).drop_first() =~= prev);
            }
            acc = acc * 256 + s[i - 1] as u64;
            i = i - 1;
        }
        assert(s@.subrange(0, n as int) =~= s@);
    }
    acc
}

proof fn lemma_pow256_mono(a: nat, b: nat)
    requires a <= b,
    ensures pow256(a) <= pow256(b), pow256(7) == 0x100000000000000,
    decreases b,
{
    reveal_with_fuel(pow256, 8);
    if a < b {
        lemma_pow256_mono(a, (b - 1) as nat);
        lemma_pow256_positive((b - 1) as nat);
    }
}

/// The `n` low bytes of `v` in the given byte order.
pub fn uint_to_bytes(v: u64, n: usize, big: bool) -> (r: Vec<u8>)
    requires n <= 8,
    ensures r@ == bytes_of(v as nat, n as nat, big),
{
    let mut le: Vec<u8> = Vec::new();
    let mut x: u64 = v;
    let mut i: usize = 0;
    while i < n
        invariant
            i <= n <= 8,
            le@ + bytes_le(x as nat, (n - i) as nat) == bytes_le(v as nat, n as nat),
        decreases n - i,
    {
        proof {
            let rest = bytes_le(x as nat, (n - i) as nat);
            assert(rest == seq![(x % 256) as u8] + bytes_le(x as nat / 256, (n - i - 1) as nat));
            assert(le@.push((x % 256) as u8) + bytes_le(x as nat / 256, (n - i - 1) as nat) =~= le@ + rest);
        }
        le.push((x % 256) as u8);
        x = x / 256;
        i = i + 1;
    }
    assert(le@ =~= bytes_le(v as nat, n as nat));
    proof {
        lemma_bytes_le_len(v as nat, n as nat);
    }
    if big {
        let mut out: Vec<u8> = Vec::new();
        let mut j: usize = n;
        while j > 0
            invariant
                j <= n,
                le@.len() == n,
                out@ =~= le@.subrange(j as int, n as int).reverse(),
            decreases j,
        {
            proof {
                assert(le@.subrange(j - 1, n as int).reverse() =~= out@.push(le@[j - 1]));
            }
            out.push(le[j - 1]);
            j = j - 1;
        }
        assert(le@.subrange(0, n as int) =~= le@);
        out
    } else {
        le
    }
}


/// The modified UTF-8 form of `s` decodes to `s` again. The mutf8 crate
/// gives this for every text; each encoding of a text here records it.
pub open spec fn text_reads_back(s: Seq<char>) -> bool {
    text_of_mutf8(mutf8_of(s)) == Some(s)
}

/// The bytes that stand for a text on the wire: its modified UTF-8 length as
/// an unsigned 16-bit number, then the modified UTF-8 bytes. A text longer
/// than 65535 such bytes has only the low 16 bits of its length written, and
/// does not read back.
pub open spec fn string_wire(s: Seq<char>, big: bool) -> Seq<u8> {
    bytes_of(mutf8_of(s).len() as u16 as nat, 2, big) + mutf8_of(s)
}

/// Why a read fails, as the format sees it.
pub enum Fault {
    /// The buffer ended before the value did.
    EndOfStream,
    /// A text payload is not modified UTF-8.
    BadText,
    /// A type id that names no tag.
    BadTagId(u8),
    /// A list of the end type with elements.
    EndTypedList,
    /// An array with a negative length.
    NegativeLength,
}

/// The decimal digit `d` as a character.
pub open spec fn digit_char(d: int) -> char {
    (48 + d) as char
}

/// The decimal digits of `n`, without leading zeros.
pub open spec fn decimal(n: u8) -> Seq<char> {
    let v = n as int;
    if v >= 100 {
        seq![digit_char(v / 100), digit_char((v / 10) % 10), digit_char(v % 10)]
    } else if v >= 10 {
        seq![digit_char(v / 10), digit_char(v % 10)]
    } else {
        seq![digit_char(v)]
    }
}

/// The message of the error for an unknown type id: it names the id in
/// decimal.
pub open spec fn invalid_id_text(id: u8) -> Seq<char> {
    "Invalid Tag ID: "@ + decimal(id)
}

/// The message of the error for a list of the end type with elements.
pub open spec fn end_list_text() -> Seq<char> {
    "Lists of type \"Tag End\" can't have a length greater than 0"@
}

/// The message of the error for an array with a negative length.
pub open spec fn negative_length_text() -> Seq<char> {
    "an array length is negative"@
}

/// The message of the error for text that is not modified UTF-8.
pub open spec fn bad_text_text() -> Seq<char> {
    "text is not modified UTF-8"@
}

/// The decimal digit `d`.
fn digit_str(d: u8) -> (r: &'static str)
    requires
        d < 10,
    ensures
        r@ == seq![digit_char(d as int)],
{
    proof {
        reveal_strlit("0");
        reveal_strlit("1");
        reveal_strlit("2");
        reveal_strlit("3");
        reveal_strlit("4");
        reveal_strlit("5");
        reveal_strlit("6");
        reveal_strlit("7");
        reveal_strlit("8");
        reveal_strlit("9");
    }
    match d {
        0 => "0",
        1 => "1",
        2 => "2",
        3 => "3",
        4 => "4",
        5 => "5",
        6 => "6",
        7 => "7",
        8 => "8",
        _ => "9",
    }
}

/// The message for an unknown type id.
fn invalid_id_message(id: u8) -> (r: String)
    ensures
        r@ == invalid_id_text(id),
{
    let mut s = "Invalid Tag ID: ".to_owned();
    if id >= 100 {
        s.append(digit_str(id / 100));
    }
    if id >= 10 {
        s.append(digit_str((id / 10) % 10));
    }
    s.append(digit_str(id % 10));
    assert(s@ =~= invalid_id_text(id));
    s
}

/// `e` is the error that reports `f`.
pub open spec fn describes(e: BinError, f: Fault) -> bool {
    match f {
        Fault::EndOfStream => e == BinError::UnexpectedEndOfByteStream,
        Fault::BadTagId(id) => e matches BinError::Parsing(m) && m@ == invalid_id_text(id),
        Fault::EndTypedList => e matches BinError::Parsing(m) && m@ == end_list_text(),
        Fault::NegativeLength => e matches BinError::Parsing(m) && m@ == negative_length_text(),
        Fault::BadText => e matches BinError::Parsing(m) && m@ == bad_text_text(),
    }
}

/// The error that reports `f`.
pub fn fault_error(f: &Fault) -> (e: BinError)
    ensures
        describes(e, *f),
{
    match f {
        Fault::EndOfStream => BinError::UnexpectedEndOfByteStream,
        Fault::BadText => BinError::Parsing("text is not modified UTF-8".to_owned()),
        Fault::BadTagId(id) => BinError::Parsing(invalid_id_message(*id)),
        Fault::EndTypedList => BinError::Parsing(
            "Lists of type \"Tag End\" can't have a length greater than 0".to_owned(),
        ),
        Fault::NegativeLength => BinError::Parsing("an array length is negative".to_owned()),
    }
}

/// What reading a text at `pos` gives: the text and the position after it,
/// or why it fails.
pub open spec fn string_at(data: Seq<u8>, pos: int, big: bool) -> Result<(Seq<char>, int), Fault> {
    match window(data, pos, 2) {
        None => Err(Fault::EndOfStream),
        Some(h) => {
            let n = uint_of(h, big) as int;
            match window(data, pos + 2, n) {
                None => Err(Fault::EndOfStream),
                Some(b) => match text_of_mutf8(b) {
                    Some(t) => Ok((t, pos + 2 + n)),
                    None => Err(Fault::BadText),
                },
            }
        }
    }
}

/// The outcome of a fixed-width read of `n` bytes at `pos` that moved the
/// position to `next`, where `v` gives the value of the bytes read.
pub open spec fn fixed_read<T>(
    data: Seq<u8>,
    pos: int,
    next: int,
    n: int,
    r: BinResult<T>,
    v: spec_fn(Seq<u8>) -> T,
) -> bool {
    match window(data, pos, n) {
        Some(b) => r == Ok::<T, BinError>(v(b)) && next == pos + n,
        None => r == Err::<T, BinError>(BinError::UnexpectedEndOfByteStream),
    }
}

/// A bounds-checked cursor over a byte buffer, in one byte order.
pub trait FileReader: Sized {
    /// The whole buffer.
    spec fn data(&self) -> Seq<u8>;

    /// The position of the next byte to read.
    spec fn pos(&self) -> int;

    /// Whether multi-byte numbers are read most significant byte first.
    spec fn big_endian(&self) -> bool;

    fn is_big_endian(&self) -> (r: bool)
        ensures
            r == self.big_endian(),
    ;

    /// Takes the next `len` bytes. The position moves by `len` even where
    /// the buffer is too short; a caller stops at the first error.
    fn get_slice(&mut self, len: usize) -> (r: BinResult<&[u8]>)
        ensures
            final(self).data() == old(self).data(),
            final(self).big_endian() == old(self).big_endian(),
            match window(old(self).data(), old(self).pos(), len as int) {
                Some(b) => r matches Ok(s) && s@ == b && final(self).pos() == old(self).pos() + len,
                None => {
                    &&& r == Err::<&[u8], BinError>(BinError::UnexpectedEndOfByteStream)
                    &&& final(self).pos() == if old(self).pos() + len <= usize::MAX {
                        old(self).pos() + len
                    } else {
                        usize::MAX as int
                    }
                },
            },
    ;

    /// A copy of the bytes that remain.
    fn rest(&self) -> (r: Vec<u8>)
        ensures
            r@ == if 0 <= self.pos() <= self.data().len() {
                self.data().subrange(self.pos(), self.data().len() as int)
            } else {
                Seq::empty()
            },
    ;

    /// Whether the position is exactly at the end of the buffer.
    fn at_end(&self) -> (r: bool)
        ensures
            r == (self.pos() == self.data().len()),
    ;

    fn read_u8(&mut self) -> (r: BinResult<u8>)
        ensures
            final(self).data() == old(self).data(),
            final(self).big_endian() == old(self).big_endian(),
            fixed_read(old(self).data(), old(self).pos(), final(self).pos(), 1, r, |b: Seq<u8>| b[0]),
    {
        let s = self.get_slice(1)?;
        Ok(s[0])
    }

    fn read_i8(&mut self) -> (r: BinResult<i8>)
        ensures
            final(self).data() == old(self).data(),
            final(self).big_endian() == old(self).big_endian(),
            fixed_read(old(self).data(), old(self).pos(), final(self).pos(), 1, r, |b: Seq<u8>| b[0] as i8),
    {
        let s = self.get_slice(1)?;
        Ok(#[verifier::truncate] (s[0] as i8))
    }

    fn read_u16(&mut self) -> (r: BinResult<u16>)
        ensures
            final(self).data() == old(self).data(),
            final(self).big_endian() == old(self).big_endian(),
            fixed_read(old(self).data(), old(self).pos(), final(self).pos(), 2, r, |b: Seq<u8>| uint_of(b, old(self).big_endian()) as u16),
    {
        let big = self.is_big_endian();
        let s = self.get_slice(2)?;
        Ok(#[verifier::truncate] (uint_from(s, big) as u16))
    }

    fn read_i16(&mut self) -> (r: BinResult<i16>)
        ensures
            final(self).data() == old(self).data(),
            final(self).big_endian() == old(self).big_endian(),
            fixed_read(old(self).data(), old(self).pos(), final(self).pos(), 2, r, |b: Seq<u8>| uint_of(b, old(self).big_endian()) as u16 as i16),
    {
        let big = self.is_big_endian();
        let s = self.get_slice(2)?;
        Ok(#[verifier::truncate] (uint_from(s, big) as u16 as i16))
    }

    fn read_u32(&mut self) -> (r: BinResult<u32>)
        ensures
            final(self).data() == old(self).data(),
            final(self).big_endian() == old(self).big_endian(),
            fixed_read(old(self).data(), old(self).pos(), final(self).pos(), 4, r, |b: Seq<u8>| uint_of(b, old(self).big_endian()) as u32),
    {
        let big = self.is_big_endian();
        let s = self.get_slice(4)?;
        Ok(#[verifier::truncate] (uint_from(s, big) as u32))
    }

    fn read_i32(&mut self) -> (r: BinResult<i32>)
        ensures
            final(self).data() == old(self).data(),
            final(self).big_endian() == old(self).big_endian(),
            fixed_read(old(self).data(), old(self).pos(), final(self).pos(), 4, r, |b: Seq<u8>| uint_of(b, old(self).big_endian()) as u32 as i32),
    {
        let big = self.is_big_endian();
        let s = self.get_slice(4)?;
        Ok(#[verifier::truncate] (uint_from(s, big) as u32 as i32))
    }

    fn read_u64(&mut self) -> (r: BinResult<u64>)
        ensures
            final(self).data() == old(self).data(),
            final(self).big_endian() == old(self).big_endian(),
            fixed_read(old(self).data(), old(self).pos(), final(self).pos(), 8, r, |b: Seq<u8>| uint_of(b, old(self).big_endian()) as u64),
    {
        let big = self.is_big_endian();
        let s = self.get_slice(8)?;
        Ok(uint_from(s, big))
    }

    fn read_i64(&mut self) -> (r: BinResult<i64>)
        ensures
            final(self).data() == old(self).data(),
            final(self).big_endian() == old(self).big_endian(),
            fixed_read(old(self).data(), old(self).pos(), final(self).pos(), 8, r, |b: Seq<u8>| uint_of(b, old(self).big_endian()) as u64 as i64),
    {
        let big = self.is_big_endian();
        let s = self.get_slice(8)?;
        Ok(#[verifier::truncate] (uint_from(s, big) as i64))
    }

    /// Reads a text: a 16-bit byte length, then that many bytes of modified
    /// UTF-8.
    fn read_string(&mut self) -> (r: BinResult<String>)
        ensures
            final(self).data() == old(self).data(),
            final(self).big_endian() == old(self).big_endian(),
            match string_at(old(self).data(), old(self).pos(), old(self).big_endian()) {
                Ok((t, next)) => r matches Ok(s) && s@ == t && final(self).pos() == next,
                Err(f) => r matches Err(e) && describes(e, f),
            },
            r is Ok ==> old(self).pos() <= final(self).pos() <= old(self).data().len(),
    {
        let n = self.read_u16()?;
        proof {
            let h = old(self).data().subrange(old(self).pos(), old(self).pos() + 2);
            lemma_uint_of_bound(h, self.big_endian());
            reveal_with_fuel(pow256, 3);
            assert(n as int == uint_of(h, self.big_endian()) as int);
        }
        let b = self.get_slice(n as usize)?;
        match from_mutf8(b) {
            Some(s) => Ok(s),
            None => Err(fault_error(&Fault::BadText)),
        }
    }
}

/// The position and buffer that both byte orders of reader share.
pub struct Cursor<'a> {
    bytes: &'a Vec<u8>,
    pos: usize,
}

impl<'a> Cursor<'a> {
    pub closed spec fn data(&self) -> Seq<u8> {
        self.bytes@
    }

    pub closed spec fn pos(&self) -> int {
        self.pos as int
    }

    pub fn new(bytes: &'a Vec<u8>, pos: usize) -> (r: Self)
        ensures
            r.data() == bytes@,
            r.pos() == pos,
    {
        Cursor { bytes, pos }
    }

    pub fn get_slice(&mut self, len: usize) -> (r: BinResult<&[u8]>)
        ensures
            final(self).data() == old(self).data(),
            match window(old(self).data(), old(self).pos(), len as int) {
                Some(b) => r matches Ok(s) && s@ == b && final(self).pos() == old(self).pos() + len,
                None => {
                    &&& r == Err::<&[u8], BinError>(BinError::UnexpectedEndOfByteStream)
                    &&& final(self).pos() == if old(self).pos() + len <= usize::MAX {
                        old(self).pos() + len
                    } else {
                        usize::MAX as int
                    }
                },
            },
    {
        let n = self.bytes.len();
        if self.pos <= n && len <= n - self.pos {
            let start = self.pos;
            self.pos = start + len;
            Ok(&self.bytes.as_slice()[start..start + len])
        } else {
            self.pos = if len <= usize::MAX - self.pos { self.pos + len } else { usize::MAX };
            Err(BinError::UnexpectedEndOfByteStream)
        }
    }

    pub fn rest(&self) -> (r: Vec<u8>)
        ensures
            r@ == if 0 <= self.pos() <= self.data().len() {
                self.data().subrange(self.pos(), self.data().len() as int)
            } else {
                Seq::empty()
            },
    {
        let n = self.bytes.len();
        let mut out: Vec<u8> = Vec::new();
        if self.pos <= n {
            let mut i: usize = self.pos;
            while i < n
                invariant
                    self.pos <= i <= n == self.bytes@.len(),
                    out@ == self.bytes@.subrange(self.pos as int, i as int),
                decreases n - i,
            {
                out.push(self.bytes[i]);
                i = i + 1;
                assert(out@ =~= self.bytes@.subrange(self.pos as int, i as int));
            }
        }
        out
    }

    pub fn at_end(&self) -> (r: bool)
        ensures
            r == (self.pos() == self.data().len()),
    {
        self.pos == self.bytes.len()
    }
}

/// A reader of big-endian data.
pub struct FileReaderBE<'a> {
    cursor: Cursor<'a>,
}

/// A reader of little-endian data.
pub struct FileReaderLE<'a> {
    cursor: Cursor<'a>,
}

impl<'a> FileReaderBE<'a> {
    pub fn new(bytes: &'a Vec<u8>, pos: usize) -> (r: Self)
        ensures
            r.data() == bytes@,
            r.pos() == pos,
            r.big_endian(),
    {
        FileReaderBE { cursor: Cursor::new(bytes, pos) }
    }

    /// Reads one number of type `T` in this reader's byte order.
    pub fn read_be<T: Io>(&mut self) -> (r: BinResult<T>)
        ensures
            final(self).data() == old(self).data(),
            final(self).big_endian() == old(self).big_endian(),
            match T::at(old(self).data(), old(self).pos(), true) {
                Ok((v, p)) => r == Ok::<T, BinError>(v) && final(self).pos() == p,
                Err(f) => r matches Err(e) && describes(e, f),
            },
    {
        T::read(self)
    }

    /// Reads one number of type `T` in the other byte order, from the same
    /// position, by a reader of that order whose position is then taken
    /// over.
    pub fn read_le<T: Io>(&mut self) -> (r: BinResult<T>)
        ensures
            final(self).data() == old(self).data(),
            final(self).big_endian() == old(self).big_endian(),
            match T::at(old(self).data(), old(self).pos(), false) {
                Ok((v, p)) => r == Ok::<T, BinError>(v) && final(self).pos() == p,
                Err(f) => r matches Err(e) && describes(e, f),
            },
    {
        let mut inverse = FileReaderLE { cursor: Cursor::new(self.cursor.bytes, self.cursor.pos) };
        let r = T::read(&mut inverse);
        self.cursor.pos = inverse.cursor.pos;
        r
    }

    /// Reads one number of type `T`.
    pub fn read<T: Io>(&mut self) -> (r: BinResult<T>)
        ensures
            final(self).data() == old(self).data(),
            final(self).big_endian() == old(self).big_endian(),
            match T::at(old(self).data(), old(self).pos(), old(self).big_endian()) {
                Ok((v, p)) => r == Ok::<T, BinError>(v) && final(self).pos() == p,
                Err(f) => r matches Err(e) && describes(e, f),
            },
    {
        T::read(self)
    }
}

impl<'a> FileReaderLE<'a> {
    pub fn new(bytes: &'a Vec<u8>, pos: usize) -> (r: Self)
        ensures
            r.data() == bytes@,
            r.pos() == pos,
            !r.big_endian(),
    {
        FileReaderLE { cursor: Cursor::new(bytes, pos) }
    }

    /// Reads one number of type `T` in this reader's byte order.
    pub fn read_le<T: Io>(&mut self) -> (r: BinResult<T>)
        ensures
            final(self).data() == old(self).data(),
            final(self).big_endian() == old(self).big_endian(),
            match T::at(old(self).data(), old(self).pos(), false) {
                Ok((v, p)) => r == Ok::<T, BinError>(v) && final(self).pos() == p,
                Err(f) => r matches Err(e) && describes(e, f),
            },
    {
        T::read(self)
    }

    /// Reads one number of type `T` in the other byte order, from the same
    /// position, by a reader of that order whose position is then taken
    /// over.
    pub fn read_be<T: Io>(&mut self) -> (r: BinResult<T>)
        ensures
            final(self).data() == old(self).data(),
            final(self).big_endian() == old(self).big_endian(),
            match T::at(old(self).data(), old(self).pos(), true) {
                Ok((v, p)) => r == Ok::<T, BinError>(v) && final(self).pos() == p,
                Err(f) => r matches Err(e) && describes(e, f),
            },
    {
        let mut inverse = FileReaderBE { cursor: Cursor::new(self.cursor.bytes, self.cursor.pos) };
        let r = T::read(&mut inverse);
        self.cursor.pos = inverse.cursor.pos;
        r
    }

    /// Reads one number of type `T`.
    pub fn read<T: Io>(&mut self) -> (r: BinResult<T>)
        ensures
            final(self).data() == old(self).data(),
            final(self).big_endian() == old(self).big_endian(),
            match T::at(old(self).data(), old(self).pos(), old(self).big_endian()) {
                Ok((v, p)) => r == Ok::<T, BinError>(v) && final(self).pos() == p,
                Err(f) => r matches Err(e) && describes(e, f),
            },
    {
        T::read(self)
    }
}

impl<'a> FileReader for FileReaderBE<'a> {
    closed spec fn data(&self) -> Seq<u8> {
        self.cursor.data()
    }

    closed spec fn pos(&self) -> int {
        self.cursor.pos()
    }

    closed spec fn big_endian(&self) -> bool {
        true
    }

    fn is_big_endian(&self) -> (r: bool) {
        true
    }

    fn get_slice(&mut self, len: usize) -> (r: BinResult<&[u8]>) {
        self.cursor.get_slice(len)
    }

    fn rest(&self) -> (r: Vec<u8>) {
        self.cursor.rest()
    }

    fn at_end(&self) -> (r: bool) {
        self.cursor.at_end()
    }
}

impl<'a> FileReader for FileReaderLE<'a> {
    closed spec fn data(&self) -> Seq<u8> {
        self.cursor.data()
    }

    closed spec fn pos(&self) -> int {
        self.cursor.pos()
    }

    closed spec fn big_endian(&self) -> bool {
        false
    }

    fn is_big_endian(&self) -> (r: bool) {
        false
    }

    fn get_slice(&mut self, len: usize) -> (r: BinResult<&[u8]>) {
        self.cursor.get_slice(len)
    }

    fn rest(&self) -> (r: Vec<u8>) {
        self.cursor.rest()
    }

    fn at_end(&self) -> (r: bool) {
        self.cursor.at_end()
    }
}

} // verus!

verus! {

/// A growable byte buffer that numbers are written into in one byte order.
pub trait FileWriter: Sized {
    /// The bytes written so far.
    spec fn written(&self) -> Seq<u8>;

    /// Whether multi-byte numbers are written most significant byte first.
    spec fn big_endian(&self) -> bool;

    fn is_big_endian(&self) -> (r: bool)
        ensures
            r == self.big_endian(),
    ;

    /// Moves all of `bytes` to the end of the buffer.
    fn append(&mut self, bytes: &mut Vec<u8>)
        ensures
            final(self).written() == old(self).written() + old(bytes)@,
            final(self).big_endian() == old(self).big_endian(),
            final(bytes)@ == Seq::<u8>::empty(),
    ;

    /// The finished buffer.
    fn bytes(self) -> (r: Vec<u8>)
        ensures
            r@ == self.written(),
    ;

    fn write_u8(&mut self, v: u8)
        ensures
            final(self).written() == old(self).written() + seq![v],
            final(self).big_endian() == old(self).big_endian(),
    {
        let mut b: Vec<u8> = Vec::new();
        b.push(v);
        self.append(&mut b);
    }

    fn write_i8(&mut self, v: i8)
        ensures
            final(self).written() == old(self).written() + seq![v as u8],
            final(self).big_endian() == old(self).big_endian(),
    {
        let mut b: Vec<u8> = Vec::new();
        b.push(#[verifier::truncate] (v as u8));
        self.append(&mut b);
    }

    fn write_u16(&mut self, v: u16)
        ensures
            final(self).written() == old(self).written() + bytes_of(v as nat, 2, old(self).big_endian()),
            final(self).big_endian() == old(self).big_endian(),
    {
        let big = self.is_big_endian();
        let mut b = uint_to_bytes(v as u64, 2, big);
        self.append(&mut b);
    }

    fn write_i16(&mut self, v: i16)
        ensures
            final(self).written() == old(self).written() + bytes_of(v as u16 as nat, 2, old(self).big_endian()),
            final(self).big_endian() == old(self).big_endian(),
    {
        let big = self.is_big_endian();
        let mut b = uint_to_bytes(#[verifier::truncate] (v as u16) as u64, 2, big);
        self.append(&mut b);
    }

    fn write_u32(&mut self, v: u32)
        ensures
            final(self).written() == old(self).written() + bytes_of(v as nat, 4, old(self).big_endian()),
            final(self).big_endian() == old(self).big_endian(),
    {
        let big = self.is_big_endian();
        let mut b = uint_to_bytes(v as u64, 4, big);
        self.append(&mut b);
    }

    fn write_i32(&mut self, v: i32)
        ensures
            final(self).written() == old(self).written() + bytes_of(v as u32 as nat, 4, old(self).big_endian()),
            final(self).big_endian() == old(self).big_endian(),
    {
        let big = self.is_big_endian();
        let mut b = uint_to_bytes(#[verifier::truncate] (v as u32) as u64, 4, big);
        self.append(&mut b);
    }

    fn write_u64(&mut self, v: u64)
        ensures
            final(self).written() == old(self).written() + bytes_of(v as nat, 8, old(self).big_endian()),
            final(self).big_endian() == old(self).big_endian(),
    {
        let big = self.is_big_endian();
        let mut b = uint_to_bytes(v, 8, big);
        self.append(&mut b);
    }

    fn write_i64(&mut self, v: i64)
        ensures
            final(self).written() == old(self).written() + bytes_of(v as u64 as nat, 8, old(self).big_endian()),
            final(self).big_endian() == old(self).big_endian(),
    {
        let big = self.is_big_endian();
        let mut b = uint_to_bytes(#[verifier::truncate] (v as u64), 8, big);
        self.append(&mut b);
    }

    /// Writes a text: the byte length of its modified UTF-8 form, then
    /// those bytes (see `string_wire` for a text too long for the length).
    fn write_string(&mut self, s: &String)
        ensures
            final(self).written() == old(self).written() + string_wire(s@, old(self).big_endian()),
            final(self).big_endian() == old(self).big_endian(),
            text_reads_back(s@),
    {
        let mut b = to_mutf8(s.as_str());
        let n = b.len();
        self.write_u16(#[verifier::truncate] (n as u16));
        self.append(&mut b);
        assert(final(self).written() =~= old(self).written() + string_wire(s@, old(self).big_endian()));
    }
}

/// A writer of big-endian data.
pub struct FileWriterBE {
    bytes: Vec<u8>,
}

/// A writer of little-endian data.
pub struct FileWriterLE {
    bytes: Vec<u8>,
}

impl FileWriterBE {
    pub fn new() -> (r: Self)
        ensures
            r.written() == Seq::<u8>::empty(),
            r.big_endian(),
    {
        FileWriterBE { bytes: Vec::new() }
    }

    /// Writes a number in this writer's byte order.
    pub fn write_be<T: Io>(&mut self, v: &T)
        ensures
            final(self).written() == old(self).written() + v.wire(true),
            final(self).big_endian() == old(self).big_endian(),
    {
        v.write(self)
    }

    /// Writes a number in the other byte order, through a writer of that
    /// order whose bytes are then appended.
    pub fn write_le<T: Io>(&mut self, v: &T)
        ensures
            final(self).written() == old(self).written() + v.wire(false),
            final(self).big_endian() == old(self).big_endian(),
    {
        let mut inverse = FileWriterLE::new();
        v.write(&mut inverse);
        self.append(&mut inverse.bytes);
        assert(final(self).written() =~= old(self).written() + v.wire(false));
    }
}

impl FileWriterLE {
    pub fn new() -> (r: Self)
        ensures
            r.written() == Seq::<u8>::empty(),
            !r.big_endian(),
    {
        FileWriterLE { bytes: Vec::new() }
    }

    /// Writes a number in this writer's byte order.
    pub fn write_le<T: Io>(&mut self, v: &T)
        ensures
            final(self).written() == old(self).written() + v.wire(false),
            final(self).big_endian() == old(self).big_endian(),
    {
        v.write(self)
    }

    /// Writes a number in the other byte order, through a writer of that
    /// order whose bytes are then appended.
    pub fn write_be<T: Io>(&mut self, v: &T)
        ensures
            final(self).written() == old(self).written() + v.wire(true),
            final(self).big_endian() == old(self).big_endian(),
    {
        let mut inverse = FileWriterBE::new();
        v.write(&mut inverse);
        self.append(&mut inverse.bytes);
        assert(final(self).written() =~= old(self).written() + v.wire(true));
    }
}

impl FileWriter for FileWriterBE {
    closed spec fn written(&self) -> Seq<u8> {
        self.bytes@
    }

    closed spec fn big_endian(&self) -> bool {
        true
    }

    fn is_big_endian(&self) -> (r: bool) {
        true
    }

    fn append(&mut self, bytes: &mut Vec<u8>) {
        self.bytes.append(bytes);
    }

    fn bytes(self) -> (r: Vec<u8>) {
        self.bytes
    }
}

impl FileWriter for FileWriterLE {
    closed spec fn written(&self) -> Seq<u8> {
        self.bytes@
    }

    closed spec fn big_endian(&self) -> bool {
        false
    }

    fn is_big_endian(&self) -> (r: bool) {
        false
    }

    fn append(&mut self, bytes: &mut Vec<u8>) {
        self.bytes.append(bytes);
    }

    fn bytes(self) -> (r: Vec<u8>) {
        self.bytes
    }
}

} // verus!

verus! {

/// A read that gives a value and the position after it, or a fault.
pub type Step<T> = Result<(T, int), Fault>;

/// Reads `n` bytes at `pos` and takes their value by `v`.
pub open spec fn fixed_at<T>(data: Seq<u8>, pos: int, n: int, v: spec_fn(Seq<u8>) -> T) -> Step<T> {
    match window(data, pos, n) {
        Some(b) => Ok((v(b), pos + n)),
        None => Err(Fault::EndOfStream),
    }
}

/// A value with a wire form that can be written.
pub trait Writer {
    /// The bytes that stand for the value.
    spec fn wire(&self, big: bool) -> Seq<u8>;

    fn write<W: FileWriter>(&self, fw: &mut W)
        ensures
            final(fw).written() == old(fw).written() + self.wire(old(fw).big_endian()),
            final(fw).big_endian() == old(fw).big_endian(),
    ;
}

/// A tree node read by its type id, which the wire puts before it.
pub trait TagIo: Writer + Sized {
    fn read<R: FileReader>(tag_id: u8, fr: &mut R) -> BinResult<Self>;
}

/// A number type with a fixed-width wire form.
pub trait Io: Writer + Sized {
    /// What reading one value at `pos` gives.
    spec fn at(data: Seq<u8>, pos: int, big: bool) -> Step<Self>;

    fn read<R: FileReader>(fr: &mut R) -> (r: BinResult<Self>)
        ensures
            final(fr).data() == old(fr).data(),
            final(fr).big_endian() == old(fr).big_endian(),
            match Self::at(old(fr).data(), old(fr).pos(), old(fr).big_endian()) {
                Ok((v, p)) => r == Ok::<Self, BinError>(v) && final(fr).pos() == p,
                Err(f) => r matches Err(e) && describes(e, f),
            },
            r is Ok ==> old(fr).pos() <= final(fr).pos() <= old(fr).data().len(),
    ;

    /// A value reads back from its own bytes, whatever follows them.
    proof fn lemma_read_back(&self, data: Seq<u8>, pos: int, big: bool)
        requires
            0 <= pos,
            pos + self.wire(big).len() <= data.len(),
            data.subrange(pos, pos + self.wire(big).len()) == self.wire(big),
        ensures
            Self::at(data, pos, big) == Ok::<(Self, int), Fault>((*self, pos + self.wire(big).len())),
    ;
}

impl Writer for u8 {
    open spec fn wire(&self, big: bool) -> Seq<u8> {
        seq![*self]
    }

    fn write<W: FileWriter>(&self, fw: &mut W) {
        fw.write_u8(*self)
    }
}

impl Io for u8 {
    open spec fn at(data: Seq<u8>, pos: int, big: bool) -> Step<u8> {
        fixed_at(data, pos, 1, |b: Seq<u8>| b[0])
    }

    fn read<R: FileReader>(fr: &mut R) -> (r: BinResult<u8>) {
        fr.read_u8()
    }

    proof fn lemma_read_back(&self, data: Seq<u8>, pos: int, big: bool) {
        assert(data.subrange(pos, pos + 1)[0] == *self);
    }
}

impl Writer for i8 {
    open spec fn wire(&self, big: bool) -> Seq<u8> {
        seq![*self as u8]
    }

    fn write<W: FileWriter>(&self, fw: &mut W) {
        fw.write_i8(*self)
    }
}

impl Io for i8 {
    open spec fn at(data: Seq<u8>, pos: int, big: bool) -> Step<i8> {
        fixed_at(data, pos, 1, |b: Seq<u8>| b[0] as i8)
    }

    fn read<R: FileReader>(fr: &mut R) -> (r: BinResult<i8>) {
        fr.read_i8()
    }

    proof fn lemma_read_back(&self, data: Seq<u8>, pos: int, big: bool) {
        let v = *self;
        assert(data.subrange(pos, pos + 1)[0] == v as u8);
        assert((v as u8) as i8 == v) by (bit_vector);
    }
}

impl Writer for i16 {
    open spec fn wire(&self, big: bool) -> Seq<u8> {
        bytes_of(*self as u16 as nat, 2, big)
    }

    fn write<W: FileWriter>(&self, fw: &mut W) {
        fw.write_i16(*self)
    }
}

impl Io for i16 {
    open spec fn at(data: Seq<u8>, pos: int, big: bool) -> Step<i16> {
        fixed_at(data, pos, 2, |b: Seq<u8>| uint_of(b, big) as u16 as i16)
    }

    fn read<R: FileReader>(fr: &mut R) -> (r: BinResult<i16>) {
        fr.read_i16()
    }

    proof fn lemma_read_back(&self, data: Seq<u8>, pos: int, big: bool) {
        let v = *self;
        let u = v as u16;
        lemma_uint_round_trip(u as nat, 2, big);
        reveal_with_fuel(pow256, 3);
        assert((u as nat) % 65536 == u as nat);
        assert((u as nat) as u16 == u);
        assert((v as u16) as i16 == v) by (bit_vector);
    }
}

impl Writer for u16 {
    open spec fn wire(&self, big: bool) -> Seq<u8> {
        bytes_of(*self as nat, 2, big)
    }

    fn write<W: FileWriter>(&self, fw: &mut W) {
        fw.write_u16(*self)
    }
}

impl Io for u16 {
    open spec fn at(data: Seq<u8>, pos: int, big: bool) -> Step<u16> {
        fixed_at(data, pos, 2, |b: Seq<u8>| uint_of(b, big) as u16)
    }

    fn read<R: FileReader>(fr: &mut R) -> (r: BinResult<u16>) {
        fr.read_u16()
    }

    proof fn lemma_read_back(&self, data: Seq<u8>, pos: int, big: bool) {
        let u = *self;
        lemma_uint_round_trip(u as nat, 2, big);
        reveal_with_fuel(pow256, 3);
        assert((u as nat) % 65536 == u as nat);
    }
}

impl Writer for u32 {
    open spec fn wire(&self, big: bool) -> Seq<u8> {
        bytes_of(*self as nat, 4, big)
    }

    fn write<W: FileWriter>(&self, fw: &mut W) {
        fw.write_u32(*self)
    }
}

impl Io for u32 {
    open spec fn at(data: Seq<u8>, pos: int, big: bool) -> Step<u32> {
        fixed_at(data, pos, 4, |b: Seq<u8>| uint_of(b, big) as u32)
    }

    fn read<R: FileReader>(fr: &mut R) -> (r: BinResult<u32>) {
        fr.read_u32()
    }

    proof fn lemma_read_back(&self, data: Seq<u8>, pos: int, big: bool) {
        let u = *self;
        lemma_uint_round_trip(u as nat, 4, big);
        reveal_with_fuel(pow256, 5);
        assert((u as nat) % 0x100000000 == u as nat);
    }
}

impl Writer for i32 {
    open spec fn wire(&self, big: bool) -> Seq<u8> {
        bytes_of(*self as u32 as nat, 4, big)
    }

    fn write<W: FileWriter>(&self, fw: &mut W) {
        fw.write_i32(*self)
    }
}

impl Io for i32 {
    open spec fn at(data: Seq<u8>, pos: int, big: bool) -> Step<i32> {
        fixed_at(data, pos, 4, |b: Seq<u8>| uint_of(b, big) as u32 as i32)
    }

    fn read<R: FileReader>(fr: &mut R) -> (r: BinResult<i32>) {
        fr.read_i32()
    }

    proof fn lemma_read_back(&self, data: Seq<u8>, pos: int, big: bool) {
        let v = *self;
        let u = v as u32;
        lemma_uint_round_trip(u as nat, 4, big);
        reveal_with_fuel(pow256, 5);
        assert((u as nat) % 0x100000000 == u as nat);
        assert((u as nat) as u32 == u);
        assert((v as u32) as i32 == v) by (bit_vector);
    }
}

impl Writer for u64 {
    open spec fn wire(&self, big: bool) -> Seq<u8> {
        bytes_of(*self as nat, 8, big)
    }

    fn write<W: FileWriter>(&self, fw: &mut W) {
        fw.write_u64(*self)
    }
}

impl Io for u64 {
    open spec fn at(data: Seq<u8>, pos: int, big: bool) -> Step<u64> {
        fixed_at(data, pos, 8, |b: Seq<u8>| uint_of(b, big) as u64)
    }

    fn read<R: FileReader>(fr: &mut R) -> (r: BinResult<u64>) {
        fr.read_u64()
    }

    proof fn lemma_read_back(&self, data: Seq<u8>, pos: int, big: bool) {
        let u = *self;
        lemma_uint_round_trip(u as nat, 8, big);
        reveal_with_fuel(pow256, 9);
        assert((u as nat) % 0x10000000000000000 == u as nat);
    }
}

impl Writer for i64 {
    open spec fn wire(&self, big: bool) -> Seq<u8> {
        bytes_of(*self as u64 as nat, 8, big)
    }

    fn write<W: FileWriter>(&self, fw: &mut W) {
        fw.write_i64(*self)
    }
}

impl Io for i64 {
    open spec fn at(data: Seq<u8>, pos: int, big: bool) -> Step<i64> {
        fixed_at(data, pos, 8, |b: Seq<u8>| uint_of(b, big) as u64 as i64)
    }

    fn read<R: FileReader>(fr: &mut R) -> (r: BinResult<i64>) {
        fr.read_i64()
    }

    proof fn lemma_read_back(&self, data: Seq<u8>, pos: int, big: bool) {
        let v = *self;
        let u = v as u64;
        lemma_uint_round_trip(u as nat, 8, big);
        reveal_with_fuel(pow256, 9);
        assert((u as nat) % 0x10000000000000000 == u as nat);
        assert((u as nat) as u64 == u);
        assert((v as u64) as i64 == v) by (bit_vector);
    }
}

} // verus!

verus! {

/// `x` in front of the values that `r` read.
pub open spec fn prepend<T>(x: T, r: Step<Seq<T>>) -> Step<Seq<T>> {
    match r {
        Ok((xs, p)) => Ok((seq![x] + xs, p)),
        Err(f) => Err(f),
    }
}

/// `xs` in front of the values that `r` read.
pub open spec fn after<T>(xs: Seq<T>, r: Step<Seq<T>>) -> Step<Seq<T>> {
    match r {
        Ok((ys, p)) => Ok((xs + ys, p)),
        Err(f) => Err(f),
    }
}

/// `k` values, each read by `item` where the one before ended.
pub open spec fn repeat_at<T>(k: nat, pos: int, item: spec_fn(int) -> Step<T>) -> Step<Seq<T>>
    decreases k,
{
    if k == 0 {
        Ok((Seq::empty(), pos))
    } else {
        match item(pos) {
            Ok((x, p)) => prepend(x, repeat_at((k - 1) as nat, p, item)),
            Err(f) => Err(f),
        }
    }
}

/// `k` numbers of type `T`.
pub open spec fn items_at<T: Io>(data: Seq<u8>, pos: int, k: nat, big: bool) -> Step<Seq<T>> {
    repeat_at(k, pos, |q: int| T::at(data, q, big))
}

/// An array: a signed 32-bit count, then that many numbers. A negative
/// count is a fault.
pub open spec fn array_at<T: Io>(data: Seq<u8>, pos: int, big: bool) -> Step<Seq<T>> {
    match i32::at(data, pos, big) {
        Ok((n, p)) => if n < 0 {
            Err(Fault::NegativeLength)
        } else {
            items_at::<T>(data, p, n as nat, big)
        },
        Err(f) => Err(f),
    }
}

/// `k` arrays, one after another.
pub open spec fn arrays_at<T: Io>(data: Seq<u8>, pos: int, k: nat, big: bool) -> Step<Seq<Seq<T>>> {
    repeat_at(k, pos, |q: int| array_at::<T>(data, q, big))
}

/// `k` texts, one after another.
pub open spec fn strings_at(data: Seq<u8>, pos: int, k: nat, big: bool) -> Step<Seq<Seq<char>>> {
    repeat_at(k, pos, |q: int| string_at(data, q, big))
}

/// The bytes of each element, one after another.
pub open spec fn each<A>(s: Seq<A>, f: spec_fn(A) -> Seq<u8>) -> Seq<u8> {
    Seq::new(s.len(), |i: int| f(s[i])).flatten()
}

/// A length or count field: the low 32 bits of `n`, as a signed 32-bit
/// number. A count beyond `i32::MAX` does not read back.
pub open spec fn count_wire(n: nat, big: bool) -> Seq<u8> {
    bytes_of(n as u32 as nat, 4, big)
}

pub open spec fn items_wire<T: Io>(s: Seq<T>, big: bool) -> Seq<u8> {
    each(s, |x: T| x.wire(big))
}

pub open spec fn array_wire<T: Io>(s: Seq<T>, big: bool) -> Seq<u8> {
    count_wire(s.len(), big) + items_wire(s, big)
}

pub open spec fn arrays_wire<T: Io>(s: Seq<Seq<T>>, big: bool) -> Seq<u8> {
    each(s, |a: Seq<T>| array_wire(a, big))
}

pub open spec fn strings_wire(s: Seq<Seq<char>>, big: bool) -> Seq<u8> {
    each(s, |t: Seq<char>| string_wire(t, big))
}

pub proof fn lemma_after_prepend<T>(xs: Seq<T>, x: T, r: Step<Seq<T>>)
    ensures
        after(xs, prepend(x, r)) == after(xs.push(x), r),
{
    match r {
        Ok((ys, p)) => {
            assert(xs + (seq![x] + ys) =~= xs.push(x) + ys);
        },
        Err(f) => {},
    }
}

pub proof fn lemma_each_push<A>(s: Seq<A>, x: A, f: spec_fn(A) -> Seq<u8>)
    ensures
        each(s.push(x), f) == each(s, f) + f(x),
{
    broadcast use Seq::lemma_flatten_push;
    assert(Seq::new(s.push(x).len(), |i: int| f(s.push(x)[i]))
        =~= Seq::new(s.len(), |i: int| f(s[i])).push(f(x)));
}

/// Reads `k` numbers.
pub fn read_items<T: Io, R: FileReader>(fr: &mut R, k: usize) -> (r: BinResult<Vec<T>>)
    ensures
        final(fr).data() == old(fr).data(),
        final(fr).big_endian() == old(fr).big_endian(),
        match items_at::<T>(old(fr).data(), old(fr).pos(), k as nat, old(fr).big_endian()) {
            Ok((v, p)) => r matches Ok(x) && x@ == v && final(fr).pos() == p,
            Err(f) => r matches Err(e) && describes(e, f),
        },
        r is Ok ==> old(fr).pos() <= final(fr).pos(),
        r is Ok && final(fr).pos() != old(fr).pos() ==> final(fr).pos() <= old(fr).data().len(),
{
    let ghost d = fr.data();
    let ghost big = fr.big_endian();
    let ghost start = fr.pos();
    let mut out: Vec<T> = Vec::new();
    let mut i: usize = 0;
    assert(after(out@, items_at::<T>(d, start, k as nat, big)) =~= items_at::<T>(d, start, k as nat, big)) by {
        match items_at::<T>(d, start, k as nat, big) {
            Ok((ys, p)) => { assert(out@ + ys =~= ys); },
            Err(f) => {},
        }
    }
    while i < k
        invariant
            fr.data() == d,
            d == old(fr).data(),
            fr.big_endian() == big,
            big == old(fr).big_endian(),
            start == old(fr).pos(),
            start <= fr.pos(),
            fr.pos() == start || fr.pos() <= d.len(),
            i <= k,
            items_at::<T>(d, start, k as nat, big) == after(out@, items_at::<T>(d, fr.pos(), (k - i) as nat, big)),
        decreases k - i,
    {
        let ghost cur = fr.pos();
        match T::read(fr) {
            Ok(x) => {
                proof {
                    lemma_after_prepend(out@, x, items_at::<T>(d, fr.pos(), (k - i - 1) as nat, big));
                }
                out.push(x);
                i = i + 1;
            },
            Err(e) => {
                return Err(e);
            },
        }
    }
    proof {
        assert(out@ + Seq::<T>::empty() =~= out@);
    }
    Ok(out)
}

/// Reads an array: a count, then that many numbers.
pub fn read_array<T: Io, R: FileReader>(fr: &mut R) -> (r: BinResult<Vec<T>>)
    ensures
        final(fr).data() == old(fr).data(),
        final(fr).big_endian() == old(fr).big_endian(),
        match array_at::<T>(old(fr).data(), old(fr).pos(), old(fr).big_endian()) {
            Ok((v, p)) => r matches Ok(x) && x@ == v && final(fr).pos() == p,
            Err(f) => r matches Err(e) && describes(e, f),
        },
        r is Ok ==> old(fr).pos() <= final(fr).pos(),
        r is Ok && final(fr).pos() != old(fr).pos() ==> final(fr).pos() <= old(fr).data().len(),
{
    let n = i32::read(fr)?;
    if n < 0 {
        return Err(fault_error(&Fault::NegativeLength));
    }
    read_items(fr, n as usize)
}

/// Reads `k` arrays.
pub fn read_arrays<T: Io, R: FileReader>(fr: &mut R, k: usize) -> (r: BinResult<Vec<Vec<T>>>)
    ensures
        final(fr).data() == old(fr).data(),
        final(fr).big_endian() == old(fr).big_endian(),
        match arrays_at::<T>(old(fr).data(), old(fr).pos(), k as nat, old(fr).big_endian()) {
            Ok((v, p)) => r matches Ok(x) && x@.map_values(|a: Vec<T>| a@) == v && final(fr).pos() == p,
            Err(f) => r matches Err(e) && describes(e, f),
        },
        r is Ok ==> old(fr).pos() <= final(fr).pos(),
        r is Ok && final(fr).pos() != old(fr).pos() ==> final(fr).pos() <= old(fr).data().len(),
{
    let ghost d = fr.data();
    let ghost big = fr.big_endian();
    let ghost start = fr.pos();
    let mut out: Vec<Vec<T>> = Vec::new();
    let mut i: usize = 0;
    assert(after(Seq::empty(), arrays_at::<T>(d, start, k as nat, big)) =~= arrays_at::<T>(d, start, k as nat, big)) by {
        match arrays_at::<T>(d, start, k as nat, big) {
            Ok((ys, p)) => { assert(Seq::<Seq<T>>::empty() + ys =~= ys); },
            Err(f) => {},
        }
    }
    assert(out@.map_values(|a: Vec<T>| a@) =~= Seq::<Seq<T>>::empty());
    while i < k
        invariant
            fr.data() == d,
            d == old(fr).data(),
            fr.big_endian() == big,
            big == old(fr).big_endian(),
            start == old(fr).pos(),
            start <= fr.pos(),
            fr.pos() == start || fr.pos() <= d.len(),
            i <= k,
            arrays_at::<T>(d, start, k as nat, big)
                == after(out@.map_values(|a: Vec<T>| a@), arrays_at::<T>(d, fr.pos(), (k - i) as nat, big)),
        decreases k - i,
    {
        match read_array::<T, R>(fr) {
            Ok(x) => {
                proof {
                    lemma_after_prepend(
                        out@.map_values(|a: Vec<T>| a@),
                        x@,
                        arrays_at::<T>(d, fr.pos(), (k - i - 1) as nat, big),
                    );
                }
                let ghost before = out@;
                out.push(x);
                i = i + 1;
                assert(out@.map_values(|a: Vec<T>| a@) =~= before.map_values(|a: Vec<T>| a@).push(x@));
            },
            Err(e) => {
                return Err(e);
            },
        }
    }
    proof {
        assert(out@.map_values(|a: Vec<T>| a@) + Seq::<Seq<T>>::empty() =~= out@.map_values(|a: Vec<T>| a@));
    }
    Ok(out)
}

/// Reads `k` texts.
pub fn read_strings<R: FileReader>(fr: &mut R, k: usize) -> (r: BinResult<Vec<String>>)
    ensures
        final(fr).data() == old(fr).data(),
        final(fr).big_endian() == old(fr).big_endian(),
        match strings_at(old(fr).data(), old(fr).pos(), k as nat, old(fr).big_endian()) {
            Ok((v, p)) => r matches Ok(x) && x@.map_values(|s: String| s@) == v && final(fr).pos() == p,
            Err(f) => r matches Err(e) && describes(e, f),
        },
        r is Ok ==> old(fr).pos() <= final(fr).pos(),
        r is Ok && final(fr).pos() != old(fr).pos() ==> final(fr).pos() <= old(fr).data().len(),
{
    let ghost d = fr.data();
    let ghost big = fr.big_endian();
    let ghost start = fr.pos();
    let mut out: Vec<String> = Vec::new();
    let mut i: usize = 0;
    assert(after(Seq::empty(), strings_at(d, start, k as nat, big)) =~= strings_at(d, start, k as nat, big)) by {
        match strings_at(d, start, k as nat, big) {
            Ok((ys, p)) => { assert(Seq::<Seq<char>>::empty() + ys =~= ys); },
            Err(f) => {},
        }
    }
    assert(out@.map_values(|s: String| s@) =~= Seq::<Seq<char>>::empty());
    while i < k
        invariant
            fr.data() == d,
            d == old(fr).data(),
            fr.big_endian() == big,
            big == old(fr).big_endian(),
            start == old(fr).pos(),
            start <= fr.pos(),
            fr.pos() == start || fr.pos() <= d.len(),
            i <= k,
            strings_at(d, start, k as nat, big)
                == after(out@.map_values(|s: String| s@), strings_at(d, fr.pos(), (k - i) as nat, big)),
        decreases k - i,
    {
        match fr.read_string() {
            Ok(x) => {
                proof {
                    lemma_after_prepend(
                        out@.map_values(|s: String| s@),
                        x@,
                        strings_at(d, fr.pos(), (k - i - 1) as nat, big),
                    );
                }
                let ghost before = out@;
                out.push(x);
                i = i + 1;
                assert(out@.map_values(|s: String| s@) =~= before.map_values(|s: String| s@).push(x@));
            },
            Err(e) => {
                return Err(e);
            },
        }
    }
    proof {
        assert(out@.map_values(|s: String| s@) + Seq::<Seq<char>>::empty() =~= out@.map_values(|s: String| s@));
    }
    Ok(out)
}

} // verus!

verus! {

/// Writes each number.
pub fn write_items<T: Io, W: FileWriter>(fw: &mut W, items: &Vec<T>)
    ensures
        final(fw).written() == old(fw).written() + items_wire(items@, old(fw).big_endian()),
        final(fw).big_endian() == old(fw).big_endian(),
{
    let ghost big = fw.big_endian();
    let ghost w0 = fw.written();
    let mut i: usize = 0;
    assert(items@.subrange(0, 0) =~= Seq::<T>::empty());
    assert(items_wire(Seq::<T>::empty(), big) =~= Seq::<u8>::empty());
    assert(w0 + Seq::<u8>::empty() =~= w0);
    while i < items.len()
        invariant
            i <= items.len(),
            fw.big_endian() == big,
            big == old(fw).big_endian(),
            w0 == old(fw).written(),
            fw.written() == w0 + items_wire(items@.subrange(0, i as int), big),
        decreases items.len() - i,
    {
        items[i].write(fw);
        proof {
            let s = items@.subrange(0, i as int);
            lemma_each_push(s, items@[i as int], |x: T| x.wire(big));
            assert(items@.subrange(0, i + 1) =~= s.push(items@[i as int]));
        }
        i = i + 1;
    }
    assert(items@.subrange(0, items.len() as int) =~= items@);
}

/// Writes an array: its count, then its numbers.
pub fn write_array<T: Io, W: FileWriter>(fw: &mut W, items: &Vec<T>)
    ensures
        final(fw).written() == old(fw).written() + array_wire(items@, old(fw).big_endian()),
        final(fw).big_endian() == old(fw).big_endian(),
{
    fw.write_u32(#[verifier::truncate] (items.len() as u32));
    write_items(fw, items);
    assert(final(fw).written() =~= old(fw).written() + array_wire(items@, old(fw).big_endian()));
}

/// Writes each array.
pub fn write_arrays<T: Io, W: FileWriter>(fw: &mut W, arrays: &Vec<Vec<T>>)
    ensures
        final(fw).written() == old(fw).written()
            + arrays_wire(arrays@.map_values(|a: Vec<T>| a@), old(fw).big_endian()),
        final(fw).big_endian() == old(fw).big_endian(),
{
    let ghost big = fw.big_endian();
    let ghost w0 = fw.written();
    let ghost m = arrays@.map_values(|a: Vec<T>| a@);
    let mut i: usize = 0;
    assert(m.subrange(0, 0) =~= Seq::<Seq<T>>::empty());
    assert(arrays_wire(Seq::<Seq<T>>::empty(), big) =~= Seq::<u8>::empty());
    assert(w0 + Seq::<u8>::empty() =~= w0);
    while i < arrays.len()
        invariant
            i <= arrays.len(),
            m == arrays@.map_values(|a: Vec<T>| a@),
            fw.big_endian() == big,
            big == old(fw).big_endian(),
            w0 == old(fw).written(),
            fw.written() == w0 + arrays_wire(m.subrange(0, i as int), big),
        decreases arrays.len() - i,
    {
        write_array(fw, &arrays[i]);
        proof {
            let s = m.subrange(0, i as int);
            lemma_each_push(s, m[i as int], |a: Seq<T>| array_wire(a, big));
            assert(m.subrange(0, i + 1) =~= s.push(m[i as int]));
        }
        i = i + 1;
    }
    assert(m.subrange(0, arrays.len() as int) =~= m);
}

/// Writes each text.
pub fn write_strings<W: FileWriter>(fw: &mut W, texts: &Vec<String>)
    ensures
        final(fw).written() == old(fw).written()
            + strings_wire(texts@.map_values(|s: String| s@), old(fw).big_endian()),
        final(fw).big_endian() == old(fw).big_endian(),
        forall|i: int| 0 <= i < texts.len() ==> text_reads_back(#[trigger] texts@[i]@),
{
    let ghost big = fw.big_endian();
    let ghost w0 = fw.written();
    let ghost m = texts@.map_values(|s: String| s@);
    let mut i: usize = 0;
    assert(m.subrange(0, 0) =~= Seq::<Seq<char>>::empty());
    assert(strings_wire(Seq::<Seq<char>>::empty(), big) =~= Seq::<u8>::empty());
    assert(w0 + Seq::<u8>::empty() =~= w0);
    while i < texts.len()
        invariant
            i <= texts.len(),
            m == texts@.map_values(|s: String| s@),
            fw.big_endian() == big,
            big == old(fw).big_endian(),
            w0 == old(fw).written(),
            fw.written() == w0 + strings_wire(m.subrange(0, i as int), big),
            forall|j: int| 0 <= j < i ==> text_reads_back(#[trigger] texts@[j]@),
        decreases texts.len() - i,
    {
        fw.write_string(&texts[i]);
        proof {
            let s = m.subrange(0, i as int);
            lemma_each_push(s, m[i as int], |t: Seq<char>| string_wire(t, big));
            assert(m.subrange(0, i + 1) =~= s.push(m[i as int]));
        }
        i = i + 1;
    }
    assert(m.subrange(0, texts.len() as int) =~= m);
}

} // verus!
