//! Fixed-width big-endian integers, as the block and table layouts use them.

use vstd::prelude::*;

verus! {

/// The four bytes of `n`, most significant first.
pub open spec fn be32(n: u32) -> Seq<u8> {
    seq![(n >> 24) as u8, (n >> 16) as u8, (n >> 8) as u8, n as u8]
}

/// The integer that four bytes stand for, most significant first.
pub open spec fn from_be32(s: Seq<u8>) -> u32
    recommends
        s.len() == 4,
{
    (s[0] as u32) << 24 | (s[1] as u32) << 16 | (s[2] as u32) << 8 | (s[3] as u32)
}

/// The eight bytes of `n`, most significant first.
pub open spec fn be64(n: u64) -> Seq<u8> {
    seq![
        (n >> 56) as u8,
        (n >> 48) as u8,
        (n >> 40) as u8,
        (n >> 32) as u8,
        (n >> 24) as u8,
        (n >> 16) as u8,
        (n >> 8) as u8,
        n as u8,
    ]
}

/// The integer that eight bytes stand for, most significant first.
pub open spec fn from_be64(s: Seq<u8>) -> u64
    recommends
        s.len() == 8,
{
    (s[0] as u64) << 56 | (s[1] as u64) << 48 | (s[2] as u64) << 40 | (s[3] as u64) << 32 | (
    s[4] as u64) << 24 | (s[5] as u64) << 16 | (s[6] as u64) << 8 | (s[7] as u64)
}

/// Reading back the four bytes of an integer gives the integer.
pub proof fn lemma_be32_round_trip(n: u32)
    ensures
        be32(n).len() == 4,
        from_be32(be32(n)) == n,
{
    let b0 = (n >> 24) as u8;
    let b1 = (n >> 16) as u8;
    let b2 = (n >> 8) as u8;
    let b3 = n as u8;
    assert((b0 as u32) << 24 | (b1 as u32) << 16 | (b2 as u32) << 8 | (b3 as u32) == n)
        by (bit_vector)
        requires
            b0 == (n >> 24) as u8,
            b1 == (n >> 16) as u8,
            b2 == (n >> 8) as u8,
            b3 == n as u8,
    ;
}

/// Reading back the eight bytes of an integer gives the integer.
pub proof fn lemma_be64_round_trip(n: u64)
    ensures
        be64(n).len() == 8,
        from_be64(be64(n)) == n,
{
    let b0 = (n >> 56) as u8;
    let b1 = (n >> 48) as u8;
    let b2 = (n >> 40) as u8;
    let b3 = (n >> 32) as u8;
    let b4 = (n >> 24) as u8;
    let b5 = (n >> 16) as u8;
    let b6 = (n >> 8) as u8;
    let b7 = n as u8;
    assert((b0 as u64) << 56 | (b1 as u64) << 48 | (b2 as u64) << 40 | (b3 as u64) << 32 | (
    b4 as u64) << 24 | (b5 as u64) << 16 | (b6 as u64) << 8 | (b7 as u64) == n) by (bit_vector)
        requires
            b0 == (n >> 56) as u8,
            b1 == (n >> 48) as u8,
            b2 == (n >> 40) as u8,
            b3 == (n >> 32) as u8,
            b4 == (n >> 24) as u8,
            b5 == (n >> 16) as u8,
            b6 == (n >> 8) as u8,
            b7 == n as u8,
    ;
}

/// Appends the four big-endian bytes of `n` to `w`.
pub fn put_be32(w: &mut Vec<u8>, n: u32)
    ensures
        final(w)@ == old(w)@ + be32(n),
{
    w.push((n >> 24) as u8);
    w.push((n >> 16) as u8);
    w.push((n >> 8) as u8);
    w.push(n as u8);
    assert(w@ =~= old(w)@ + be32(n));
}

/// Reads the big-endian integer in the four bytes of `s` from index `at` on.
pub fn get_be32(s: &[u8], at: usize) -> (n: u32)
    requires
        at + 4 <= s@.len(),
    ensures
        n == from_be32(s@.subrange(at as int, at + 4)),
{
    (s[at] as u32) << 24 | (s[at + 1] as u32) << 16 | (s[at + 2] as u32) << 8 | (s[at + 3] as u32)
}

/// Appends the eight big-endian bytes of `n` to `w`.
pub fn put_be64(w: &mut Vec<u8>, n: u64)
    ensures
        final(w)@ == old(w)@ + be64(n),
{
    w.push((n >> 56) as u8);
    w.push((n >> 48) as u8);
    w.push((n >> 40) as u8);
    w.push((n >> 32) as u8);
    w.push((n >> 24) as u8);
    w.push((n >> 16) as u8);
    w.push((n >> 8) as u8);
    w.push(n as u8);
    assert(w@ =~= old(w)@ + be64(n));
}

/// Reads the big-endian integer in the eight bytes of `s` from index `at` on.
pub fn get_be64(s: &[u8], at: usize) -> (n: u64)
    requires
        at + 8 <= s@.len(),
    ensures
        n == from_be64(s@.subrange(at as int, at + 8)),
{
    (s[at] as u64) << 56 | (s[at + 1] as u64) << 48 | (s[at + 2] as u64) << 40 | (s[at + 3] as u64)
        << 32 | (s[at + 4] as u64) << 24 | (s[at + 5] as u64) << 16 | (s[at + 6] as u64) << 8 | (
    s[at + 7] as u64)
}

/// Appends the bytes of `s` to `w`.
pub fn put_bytes(w: &mut Vec<u8>, s: &[u8])
    ensures
        final(w)@ == old(w)@ + s@,
{
    let mut i: usize = 0;
    while i < s.len()
        invariant
            i <= s@.len(),
            w@ == old(w)@ + s@.take(i as int),
        decreases s@.len() - i,
    {
        w.push(s[i]);
        i = i + 1;
        assert(w@ =~= old(w)@ + s@.take(i as int));
    }
    assert(s@.take(s@.len() as int) =~= s@);
}

} // verus!
