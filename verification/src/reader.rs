//! A forward-only cursor over an owned byte buffer.
//!
//! A read that cannot be completed consumes whatever is left, so that no
//! later read can pick up bytes from the middle of an incomplete field.

use byteorder::{ByteOrder, LittleEndian};
use vstd::prelude::*;
use vstd::slice::slice_subrange;
use vstd::slice::slice_to_vec;

verus! {

/// The value of four bytes read as a little-endian unsigned integer.
pub open spec fn le_u32(b: Seq<u8>) -> int
    recommends
        b.len() == 4,
{
    b[0] + 0x100 * b[1] + 0x1_0000 * b[2] + 0x100_0000 * b[3]
}

/// Calls `byteorder::LittleEndian::read_u32`, which converts the first four
/// bytes of `buf` with `u32::from_le_bytes` and panics on a shorter slice:
/// the first byte is the least significant.
#[verifier::external_body]
fn decode_le_u32(buf: &[u8]) -> (v: u32)
    requires
        buf@.len() >= 4,
    ensures
        v as int == le_u32(buf@.take(4)),
{
    LittleEndian::read_u32(buf)
}

/// The little-endian `u32` that stands at offset `at` of `bytes`; `None`
/// where fewer than four bytes follow the offset.
pub fn u32_le_at(bytes: &[u8], at: usize) -> (r: Option<u32>)
    ensures
        match r {
            Some(v) => at + 4 <= bytes@.len() && v as int == le_u32(
                bytes@.subrange(at as int, at + 4),
            ),
            None => at + 4 > bytes@.len(),
        },
{
    if bytes.len() < 4 || at > bytes.len() - 4 {
        return None;
    }
    let field = slice_subrange(bytes, at, at + 4);
    assert(field@.take(4) == field@);
    Some(decode_le_u32(field))
}

/// An owned buffer and a read position in it.
pub struct ByteReader {
    data: Vec<u8>,
    pos: usize,
}

impl ByteReader {
    #[verifier::type_invariant]
    spec fn in_bounds(self) -> bool {
        self.pos <= self.data@.len()
    }

    /// The bytes that have not been read yet.
    pub closed spec fn remaining(&self) -> Seq<u8> {
        self.data@.skip(self.pos as int)
    }

    /// A reader at the start of `data`.
    pub fn new(data: Vec<u8>) -> (r: Self)
        ensures
            r.remaining() == data@,
    {
        ByteReader { data, pos: 0 }
    }

    /// True when every byte has been read.
    pub fn at_end(&self) -> (b: bool)
        ensures
            b == (self.remaining().len() == 0),
    {
        proof {
            use_type_invariant(self);
        }
        self.pos >= self.data.len()
    }

    /// The number of bytes that have not been read yet.
    pub fn remaining_len(&self) -> (n: usize)
        ensures
            n == self.remaining().len(),
    {
        proof {
            use_type_invariant(self);
        }
        self.data.len() - self.pos
    }

    /// Moves past every remaining byte.
    pub fn skip_to_end(&mut self)
        ensures
            final(self).remaining() == Seq::<u8>::empty(),
    {
        self.pos = self.data.len();
    }

    /// Reads a little-endian `u32`. With fewer than four bytes left it
    /// returns `None` and consumes them.
    pub fn read_u32_le(&mut self) -> (r: Option<u32>)
        ensures
            match r {
                Some(v) => {
                    &&& old(self).remaining().len() >= 4
                    &&& v as int == le_u32(old(self).remaining().take(4))
                    &&& final(self).remaining() == old(self).remaining().skip(4)
                },
                None => {
                    &&& old(self).remaining().len() < 4
                    &&& final(self).remaining() == Seq::<u8>::empty()
                },
            },
    {
        proof {
            use_type_invariant(&*self);
        }
        if self.data.len() - self.pos < 4 {
            self.pos = self.data.len();
            return None;
        }
        let field = slice_subrange(self.data.as_slice(), self.pos, self.pos + 4);
        let v = decode_le_u32(field);
        proof {
            assert(field@.take(4) == old(self).remaining().take(4));
            assert(self.data@.skip(self.pos + 4) == old(self).remaining().skip(4));
        }
        self.pos = self.pos + 4;
        Some(v)
    }

    /// Reads exactly `n` bytes. With fewer than `n` bytes left it returns
    /// `None` and consumes them.
    pub fn read_exact(&mut self, n: usize) -> (r: Option<Vec<u8>>)
        ensures
            match r {
                Some(bytes) => {
                    &&& old(self).remaining().len() >= n
                    &&& bytes@ == old(self).remaining().take(n as int)
                    &&& final(self).remaining() == old(self).remaining().skip(n as int)
                },
                None => {
                    &&& old(self).remaining().len() < n
                    &&& final(self).remaining() == Seq::<u8>::empty()
                },
            },
    {
        proof {
            use_type_invariant(&*self);
        }
        if self.data.len() - self.pos < n {
            self.pos = self.data.len();
            return None;
        }
        let bytes = slice_to_vec(slice_subrange(self.data.as_slice(), self.pos, self.pos + n));
        proof {
            assert(bytes@ == old(self).remaining().take(n as int));
            assert(self.data@.skip(self.pos + n) == old(self).remaining().skip(n as int));
        }
        self.pos = self.pos + n;
        Some(bytes)
    }
}

} // verus!
