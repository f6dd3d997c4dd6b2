//! A cursor whose methods name the byte order of each number.
use vstd::prelude::*;
use crate::binary::{bytes_of, string_wire, uint_from, uint_of, uint_to_bytes};
use crate::text::{from_mutf8, text_of_mutf8, to_mutf8};

pub use crate::compression::Compression;

verus! {

/// Reads numbers from a buffer, each method in the byte order it names.
/// Each read needs the bytes it takes to be there.
pub struct FileParser<'a> {
    bytes: &'a Vec<u8>,
    pos: usize,
}

impl<'a> FileParser<'a> {
    pub closed spec fn data(&self) -> Seq<u8> {
        self.bytes@
    }

    pub closed spec fn pos(&self) -> int {
        self.pos as int
    }

    /// The bytes of the `n` next positions.
    pub open spec fn ahead(&self, n: int) -> Seq<u8> {
        self.data().subrange(self.pos(), self.pos() + n)
    }

    pub fn new(bytes: &'a Vec<u8>, pos: usize) -> (r: FileParser<'a>)
        ensures
            r.data() == bytes@,
            r.pos() == pos,
    {
        FileParser { bytes, pos }
    }

    fn take(&mut self, n: usize) -> (r: &[u8])
        requires
            old(self).pos() + n <= old(self).data().len(),
        ensures
            r@ == old(self).ahead(n as int),
            final(self).data() == old(self).data(),
            final(self).pos() == old(self).pos() + n,
    {
        let start = self.pos;
        assert(start + n <= self.bytes.len());
        self.pos = start + n;
        &self.bytes.as_slice()[start..start + n]
    }

    pub fn read_u8(&mut self) -> (r: u8)
        requires
            old(self).pos() + 1 <= old(self).data().len(),
        ensures
            r == old(self).ahead(1)[0],
            final(self).data() == old(self).data(),
            final(self).pos() == old(self).pos() + 1,
    {
        let s = self.take(1);
        s[0]
    }

    pub fn read_i8(&mut self) -> (r: i8)
        requires
            old(self).pos() + 1 <= old(self).data().len(),
        ensures
            r == old(self).ahead(1)[0] as i8,
            final(self).data() == old(self).data(),
            final(self).pos() == old(self).pos() + 1,
    {
        let s = self.take(1);
        #[verifier::truncate] (s[0] as i8)
    }

    pub fn read_be_u16(&mut self) -> (r: u16)
        requires
            old(self).pos() + 2 <= old(self).data().len(),
        ensures
            r == uint_of(old(self).ahead(2), true) as u16,
            final(self).data() == old(self).data(),
            final(self).pos() == old(self).pos() + 2,
    {
        let s = self.take(2);
        #[verifier::truncate] (uint_from(s, true) as u16)
    }

    pub fn read_be_i16(&mut self) -> (r: i16)
        requires
            old(self).pos() + 2 <= old(self).data().len(),
        ensures
            r == uint_of(old(self).ahead(2), true) as u16 as i16,
            final(self).data() == old(self).data(),
            final(self).pos() == old(self).pos() + 2,
    {
        let s = self.take(2);
        #[verifier::truncate] (uint_from(s, true) as u16 as i16)
    }

    pub fn read_be_i32(&mut self) -> (r: i32)
        requires
            old(self).pos() + 4 <= old(self).data().len(),
        ensures
            r == uint_of(old(self).ahead(4), true) as u32 as i32,
            final(self).data() == old(self).data(),
            final(self).pos() == old(self).pos() + 4,
    {
        let s = self.take(4);
        #[verifier::truncate] (uint_from(s, true) as u32 as i32)
    }

    pub fn read_be_i64(&mut self) -> (r: i64)
        requires
            old(self).pos() + 8 <= old(self).data().len(),
        ensures
            r == uint_of(old(self).ahead(8), true) as u64 as i64,
            final(self).data() == old(self).data(),
            final(self).pos() == old(self).pos() + 8,
    {
        let s = self.take(8);
        #[verifier::truncate] (uint_from(s, true) as i64)
    }

    pub fn read_le_u16(&mut self) -> (r: u16)
        requires
            old(self).pos() + 2 <= old(self).data().len(),
        ensures
            r == uint_of(old(self).ahead(2), false) as u16,
            final(self).data() == old(self).data(),
            final(self).pos() == old(self).pos() + 2,
    {
        let s = self.take(2);
        #[verifier::truncate] (uint_from(s, false) as u16)
    }

    pub fn read_le_i16(&mut self) -> (r: i16)
        requires
            old(self).pos() + 2 <= old(self).data().len(),
        ensures
            r == uint_of(old(self).ahead(2), false) as u16 as i16,
            final(self).data() == old(self).data(),
            final(self).pos() == old(self).pos() + 2,
    {
        let s = self.take(2);
        #[verifier::truncate] (uint_from(s, false) as u16 as i16)
    }

    pub fn read_le_i32(&mut self) -> (r: i32)
        requires
            old(self).pos() + 4 <= old(self).data().len(),
        ensures
            r == uint_of(old(self).ahead(4), false) as u32 as i32,
            final(self).data() == old(self).data(),
            final(self).pos() == old(self).pos() + 4,
    {
        let s = self.take(4);
        #[verifier::truncate] (uint_from(s, false) as u32 as i32)
    }

    pub fn read_le_i64(&mut self) -> (r: i64)
        requires
            old(self).pos() + 8 <= old(self).data().len(),
        ensures
            r == uint_of(old(self).ahead(8), false) as u64 as i64,
            final(self).data() == old(self).data(),
            final(self).pos() == old(self).pos() + 8,
    {
        let s = self.take(8);
        #[verifier::truncate] (uint_from(s, false) as i64)
    }


    /// Reads a text: a 16-bit length in the named byte order, then that many
    /// bytes of modified UTF-8; `None` where those bytes are not modified
    /// UTF-8. The length and the bytes must be there.
    pub fn read_be_var_string(&mut self) -> (r: Option<String>)
        requires
            old(self).pos() + 2 <= old(self).data().len(),
            old(self).pos() + 2 + uint_of(old(self).ahead(2), true) <= old(self).data().len(),
        ensures
            final(self).data() == old(self).data(),
            final(self).pos() == old(self).pos() + 2 + uint_of(old(self).ahead(2), true),
            match r {
                Some(s) => text_of_mutf8(
                    old(self).data().subrange(old(self).pos() + 2, final(self).pos()),
                ) == Some(s@),
                None => text_of_mutf8(
                    old(self).data().subrange(old(self).pos() + 2, final(self).pos()),
                ) is None,
            },
    {
        let h = self.take(2);
        let u = uint_from(h, true);
        proof {
            crate::binary::lemma_uint_of_bound(h@, true);
            reveal_with_fuel(crate::binary::pow256, 3);
        }
        let n = u as usize;
        let b = self.take(n);
        from_mutf8(b)
    }

    /// Reads a text: a 16-bit length in the named byte order, then that many
    /// bytes of modified UTF-8; `None` where those bytes are not modified
    /// UTF-8. The length and the bytes must be there.
    pub fn read_le_var_string(&mut self) -> (r: Option<String>)
        requires
            old(self).pos() + 2 <= old(self).data().len(),
            old(self).pos() + 2 + uint_of(old(self).ahead(2), false) <= old(self).data().len(),
        ensures
            final(self).data() == old(self).data(),
            final(self).pos() == old(self).pos() + 2 + uint_of(old(self).ahead(2), false),
            match r {
                Some(s) => text_of_mutf8(
                    old(self).data().subrange(old(self).pos() + 2, final(self).pos()),
                ) == Some(s@),
                None => text_of_mutf8(
                    old(self).data().subrange(old(self).pos() + 2, final(self).pos()),
                ) is None,
            },
    {
        let h = self.take(2);
        let u = uint_from(h, false);
        proof {
            crate::binary::lemma_uint_of_bound(h@, false);
            reveal_with_fuel(crate::binary::pow256, 3);
        }
        let n = u as usize;
        let b = self.take(n);
        from_mutf8(b)
    }

    /// A copy of the bytes that remain.
    pub fn rest(&self) -> (r: Vec<u8>)
        ensures
            r@ == if self.pos() <= self.data().len() {
                self.data().subrange(self.pos(), self.data().len() as int)
            } else {
                Seq::empty()
            },
    {
        let n = self.bytes.len();
        let mut out: Vec<u8> = Vec::new();
        if self.pos <= n {
            let mut i: usize = self.pos;
            while i < n
                invariant
                    self.pos <= i <= n == self.bytes@.len(),
                    out@ == self.bytes@.subrange(self.pos as int, i as int),
                decreases n - i,
            {
                out.push(self.bytes[i]);
                i = i + 1;
                assert(out@ =~= self.bytes@.subrange(self.pos as int, i as int));
            }
        }
        out
    }

    /// Whether the position is exactly at the end of the buffer.
    pub fn at_end(&self) -> (r: bool)
        ensures
            r == (self.pos() == self.data().len()),
    {
        self.pos == self.bytes.len()
    }
}

/// Collects numbers into a buffer, each method in the byte order it names.
pub struct FileWriter {
    bytes: Vec<u8>,
}

impl FileWriter {
    pub closed spec fn written(&self) -> Seq<u8> {
        self.bytes@
    }

    pub fn new() -> (r: FileWriter)
        ensures
            r.written() == Seq::<u8>::empty(),
    {
        FileWriter { bytes: Vec::new() }
    }

    /// Moves all of `bytes` to the end of the buffer.
    pub fn append(&mut self, bytes: &mut Vec<u8>)
        ensures
            final(self).written() == old(self).written() + old(bytes)@,
            final(bytes)@ == Seq::<u8>::empty(),
    {
        self.bytes.append(bytes);
    }

    pub fn write_u8(&mut self, v: u8)
        ensures
            final(self).written() == old(self).written() + seq![v],
    {
        self.bytes.push(v);
    }

    pub fn write_i8(&mut self, v: i8)
        ensures
            final(self).written() == old(self).written() + seq![v as u8],
    {
        self.bytes.push(#[verifier::truncate] (v as u8));
    }

    pub fn write_be_u16(&mut self, v: u16)
        ensures
            final(self).written() == old(self).written() + bytes_of(v as nat, 2, true),
    {
        let mut b = uint_to_bytes(v as u64, 2, true);
        self.bytes.append(&mut b);
    }

    pub fn write_be_i16(&mut self, v: i16)
        ensures
            final(self).written() == old(self).written() + bytes_of(v as u16 as nat, 2, true),
    {
        let mut b = uint_to_bytes(#[verifier::truncate] (v as u16) as u64, 2, true);
        self.bytes.append(&mut b);
    }

    pub fn write_be_i32(&mut self, v: i32)
        ensures
            final(self).written() == old(self).written() + bytes_of(v as u32 as nat, 4, true),
    {
        let mut b = uint_to_bytes(#[verifier::truncate] (v as u32) as u64, 4, true);
        self.bytes.append(&mut b);
    }

    pub fn write_be_i64(&mut self, v: i64)
        ensures
            final(self).written() == old(self).written() + bytes_of(v as u64 as nat, 8, true),
    {
        let mut b = uint_to_bytes(#[verifier::truncate] (v as u64), 8, true);
        self.bytes.append(&mut b);
    }

    pub fn write_le_u16(&mut self, v: u16)
        ensures
            final(self).written() == old(self).written() + bytes_of(v as nat, 2, false),
    {
        let mut b = uint_to_bytes(v as u64, 2, false);
        self.bytes.append(&mut b);
    }

    pub fn write_le_i16(&mut self, v: i16)
        ensures
            final(self).written() == old(self).written() + bytes_of(v as u16 as nat, 2, false),
    {
        let mut b = uint_to_bytes(#[verifier::truncate] (v as u16) as u64, 2, false);
        self.bytes.append(&mut b);
    }

    pub fn write_le_i32(&mut self, v: i32)
        ensures
            final(self).written() == old(self).written() + bytes_of(v as u32 as nat, 4, false),
    {
        let mut b = uint_to_bytes(#[verifier::truncate] (v as u32) as u64, 4, false);
        self.bytes.append(&mut b);
    }

    pub fn write_le_i64(&mut self, v: i64)
        ensures
            final(self).written() == old(self).written() + bytes_of(v as u64 as nat, 8, false),
    {
        let mut b = uint_to_bytes(#[verifier::truncate] (v as u64), 8, false);
        self.bytes.append(&mut b);
    }


    /// Writes a text: the byte length of its modified UTF-8 form in the
    /// named byte order, then those bytes.
    pub fn write_be_var_string(&mut self, v: &String)
        ensures
            final(self).written() == old(self).written() + string_wire(v@, true),
    {
        let mut b = to_mutf8(v.as_str());
        let mut len = uint_to_bytes(#[verifier::truncate] (b.len() as u16) as u64, 2, true);
        self.bytes.append(&mut len);
        self.bytes.append(&mut b);
        assert(self.bytes@ =~= old(self).bytes@ + string_wire(v@, true));
    }

    /// Writes a text: the byte length of its modified UTF-8 form in the
    /// named byte order, then those bytes.
    pub fn write_le_var_string(&mut self, v: &String)
        ensures
            final(self).written() == old(self).written() + string_wire(v@, false),
    {
        let mut b = to_mutf8(v.as_str());
        let mut len = uint_to_bytes(#[verifier::truncate] (b.len() as u16) as u64, 2, false);
        self.bytes.append(&mut len);
        self.bytes.append(&mut b);
        assert(self.bytes@ =~= old(self).bytes@ + string_wire(v@, false));
    }

    /// The finished buffer.
    pub fn bytes(self) -> (r: Vec<u8>)
        ensures
            r@ == self.written(),
    {
        self.bytes
    }
}

} // verus!
