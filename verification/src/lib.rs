//! Storage layer of a sorted-string-table file format: a variable-length
//! integer codec, size-bounded compressed blocks of key/value entries, and
//! the bookkeeping of a table writer and reader.

use vstd::prelude::*;

pub mod block;
pub mod endian;
pub mod model;
pub mod sst;
pub mod varint;

verus! {

/// Why an operation of this crate failed.
#[derive(Debug, Clone, Copy, PartialEq, Eq, Structural)]
pub enum Error {
    /// A byte sequence is too long for a 32-bit length field.
    LengthOverflow,
    /// Appending to a non-empty block would exceed its target size.
    BlockFull,
    /// Fewer bytes are present than the encoding calls for.
    Truncated,
    /// The trailing footer offset or the block boundaries contradict the file length.
    CorruptFooter,
    /// The compression codec rejected its input.
    Codec,
    /// The table has grown past what a 64-bit file offset can address.
    OffsetOverflow,
}

/// An owned sequence of bytes whose length fits in 32 bits.
#[derive(Debug, PartialEq, Eq)]
pub struct ByteString {
    len: u32,
    bytes: Vec<u8>,
}

impl View for ByteString {
    type V = Seq<u8>;

    closed spec fn view(&self) -> Seq<u8> {
        self.bytes@
    }
}

impl ByteString {
    #[verifier::type_invariant]
    spec fn length_recorded(self) -> bool {
        self.len == self.bytes@.len()
    }

    /// Copies `v`; fails exactly when its length does not fit in 32 bits.
    pub fn from_str(v: &[u8]) -> (r: Result<ByteString, Error>)
        ensures
            v@.len() <= u32::MAX ==> r is Ok && r->Ok_0@ == v@,
            v@.len() > u32::MAX ==> r == Err::<ByteString, Error>(Error::LengthOverflow),
    {
        if v.len() > 0xffff_ffff {
            return Err(Error::LengthOverflow);
        }
        let len: u32 = v.len() as u32;
        Ok(ByteString { len, bytes: vstd::slice::slice_to_vec(v) })
    }

    /// Takes ownership of a buffer that is known to be short enough.
    pub fn from_short_vec(v: Vec<u8>) -> (r: ByteString)
        requires
            v@.len() <= u32::MAX,
        ensures
            r@ == v@,
    {
        let len: u32 = v.len() as u32;
        ByteString { len, bytes: v }
    }

    /// Takes ownership of `v`; fails exactly when its length does not fit in 32 bits.
    pub fn from_vec(v: Vec<u8>) -> (r: Result<ByteString, Error>)
        ensures
            v@.len() <= u32::MAX ==> r is Ok && r->Ok_0@ == v@,
            v@.len() > u32::MAX ==> r == Err::<ByteString, Error>(Error::LengthOverflow),
    {
        if v.len() > 0xffff_ffff {
            return Err(Error::LengthOverflow);
        }
        let len: u32 = v.len() as u32;
        Ok(ByteString { len, bytes: v })
    }

    /// Number of bytes held.
    pub fn len(&self) -> (n: u32)
        ensures
            n == self@.len(),
    {
        proof {
            use_type_invariant(self);
        }
        self.len
    }

    /// The bytes held.
    pub fn as_ref(&self) -> (s: &[u8])
        ensures
            s@ == self@,
    {
        self.bytes.as_slice()
    }
}

/// Sum of two offsets.
pub fn add(left: u64, right: u64) -> (sum: u64)
    requires
        left + right <= u64::MAX,
    ensures
        sum == left + right,
{
    left + right
}

} // verus!
