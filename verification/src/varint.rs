//! Variable-length encoding of unsigned 32-bit integers in one to five bytes.
//!
//! The first byte announces the length by its leading bits (`0`, `10`, `110`,
//! `1110`, `11110`) and carries the lowest value bits; the bytes after it
//! carry the remaining bits, least significant byte first.

use crate::Error;
use byteorder::ReadBytesExt;
use vstd::prelude::*;

verus! {

/// Number of bytes in the encoding of `n`.
pub open spec fn encoded_length(n: u32) -> nat {
    if n < 0x80 {
        1
    } else if n < 0x4000 {
        2
    } else if n < 0x20_0000 {
        3
    } else if n < 0x1000_0000 {
        4
    } else {
        5
    }
}

/// The encoding of `n`.
pub open spec fn encoding(n: u32) -> Seq<u8> {
    if n < 0x80 {
        seq![n as u8]
    } else if n < 0x4000 {
        seq![0x80u8 | (n & 0x3f) as u8, (n >> 6) as u8]
    } else if n < 0x20_0000 {
        seq![0xc0u8 | (n & 0x1f) as u8, (n >> 5) as u8, (n >> 13) as u8]
    } else if n < 0x1000_0000 {
        seq![0xe0u8 | (n & 0x0f) as u8, (n >> 4) as u8, (n >> 12) as u8, (n >> 20) as u8]
    } else {
        seq![
            0xf0u8 | (n & 0x07) as u8,
            (n >> 3) as u8,
            (n >> 11) as u8,
            (n >> 19) as u8,
            (n >> 27) as u8,
        ]
    }
}

/// Number of bytes that an encoding starting with `first` occupies.
pub open spec fn announced_length(first: u8) -> nat {
    if first < 0x80 {
        1
    } else if first < 0xc0 {
        2
    } else if first < 0xe0 {
        3
    } else if first < 0xf0 {
        4
    } else {
        5
    }
}

/// The integer that the leading `announced_length(s[0])` bytes of `s` stand for.
/// No check is made that the shortest form was used.
pub open spec fn assembled(s: Seq<u8>) -> u32
    recommends
        s.len() >= 1,
        s.len() >= announced_length(s[0]),
{
    let first = s[0];
    if first < 0x80 {
        first as u32
    } else if first < 0xc0 {
        (first & 0x3f) as u32 | (s[1] as u32) << 6
    } else if first < 0xe0 {
        (first & 0x1f) as u32 | (s[1] as u32) << 5 | (s[2] as u32) << 13
    } else if first < 0xf0 {
        (first & 0x0f) as u32 | (s[1] as u32) << 4 | (s[2] as u32) << 12 | (s[3] as u32) << 20
    } else {
        (first & 0x07) as u32 | (s[1] as u32) << 3 | (s[2] as u32) << 11 | (s[3] as u32) << 19 | (
        s[4] as u32) << 27
    }
}

/// What decoding the front of `s` gives: the integer and the number of bytes
/// it took, or `None` where `s` ends before the announced length.
pub open spec fn decoding(s: Seq<u8>) -> Option<(u32, nat)> {
    if s.len() == 0 || s.len() < announced_length(s[0]) {
        None
    } else {
        Some((assembled(s), announced_length(s[0])))
    }
}

/// Decoding what was encoded gives the integer back, whatever bytes follow,
/// and takes exactly the bytes of the encoding, whose number is the encoded
/// length.
pub proof fn lemma_round_trip(n: u32, rest: Seq<u8>)
    ensures
        encoding(n).len() == encoded_length(n),
        decoding(encoding(n) + rest) == Some((n, encoded_length(n))),
{
    let s = encoding(n) + rest;
    assert(forall|i: int| 0 <= i < encoding(n).len() ==> s[i] == encoding(n)[i]);
    if n < 0x80 {
        assert((n as u8) < 0x80 && (n as u8) as u32 == n) by (bit_vector)
            requires
                n < 0x80,
        ;
    } else if n < 0x4000 {
        let b0 = 0x80u8 | (n & 0x3f) as u8;
        let b1 = (n >> 6) as u8;
        assert(0x80 <= b0 < 0xc0 && (b0 & 0x3f) as u32 | (b1 as u32) << 6 == n) by (bit_vector)
            requires
                n < 0x4000,
                b0 == 0x80u8 | (n & 0x3f) as u8,
                b1 == (n >> 6) as u8,
        ;
    } else if n < 0x20_0000 {
        let b0 = 0xc0u8 | (n & 0x1f) as u8;
        let b1 = (n >> 5) as u8;
        let b2 = (n >> 13) as u8;
        assert(0xc0 <= b0 < 0xe0 && (b0 & 0x1f) as u32 | (b1 as u32) << 5 | (b2 as u32) << 13 == n)
            by (bit_vector)
            requires
                n < 0x20_0000,
                b0 == 0xc0u8 | (n & 0x1f) as u8,
                b1 == (n >> 5) as u8,
                b2 == (n >> 13) as u8,
        ;
    } else if n < 0x1000_0000 {
        let b0 = 0xe0u8 | (n & 0x0f) as u8;
        let b1 = (n >> 4) as u8;
        let b2 = (n >> 12) as u8;
        let b3 = (n >> 20) as u8;
        assert(0xe0 <= b0 < 0xf0 && (b0 & 0x0f) as u32 | (b1 as u32) << 4 | (b2 as u32) << 12 | (
        b3 as u32) << 20 == n) by (bit_vector)
            requires
                n < 0x1000_0000,
                b0 == 0xe0u8 | (n & 0x0f) as u8,
                b1 == (n >> 4) as u8,
                b2 == (n >> 12) as u8,
                b3 == (n >> 20) as u8,
        ;
    } else {
        let b0 = 0xf0u8 | (n & 0x07) as u8;
        let b1 = (n >> 3) as u8;
        let b2 = (n >> 11) as u8;
        let b3 = (n >> 19) as u8;
        let b4 = (n >> 27) as u8;
        assert(0xf0 <= b0 && (b0 & 0x07) as u32 | (b1 as u32) << 3 | (b2 as u32) << 11 | (
        b3 as u32) << 19 | (b4 as u32) << 27 == n) by (bit_vector)
            requires
                b0 == 0xf0u8 | (n & 0x07) as u8,
                b1 == (n >> 3) as u8,
                b2 == (n >> 11) as u8,
                b3 == (n >> 19) as u8,
                b4 == (n >> 27) as u8,
        ;
    }
}

/// Bytes that follow a complete encoding do not change what is decoded.
pub proof fn lemma_decoding_stable(s: Seq<u8>, more: Seq<u8>)
    requires
        decoding(s) is Some,
    ensures
        decoding(s + more) == decoding(s),
{
    let long = s + more;
    assert(forall|i: int| 0 <= i < s.len() ==> long[i] == s[i]);
}

/// The first byte alone decides how many bytes a decoding takes, so a two-byte
/// form of a value below 128 decodes to that value: the shortest form is not
/// enforced.
pub proof fn lemma_overlong_accepted(low: u8, rest: Seq<u8>)
    requires
        low < 0x40,
    ensures
        decoding(seq![0x80u8 | low, 0u8] + rest) == Some((low as u32, 2nat)),
{
    let b0 = 0x80u8 | low;
    let s = seq![b0, 0u8] + rest;
    assert(s[0] == b0 && s[1] == 0u8);
    assert(0x80 <= b0 < 0xc0 && (b0 & 0x3f) as u32 | (0u8 as u32) << 6 == low as u32)
        by (bit_vector)
        requires
            low < 0x40,
            b0 == 0x80u8 | low,
    ;
}

/// A buffer that ends before the length its first byte announces does not
/// decode, and neither does an empty one.
pub proof fn lemma_truncated_rejected(s: Seq<u8>)
    requires
        s.len() == 0 || s.len() < announced_length(s[0]),
    ensures
        decoding(s) is None,
{
}

/// Number of bytes in the encoding of `n`, without encoding it.
pub fn encoded_length_u32(n: u32) -> (len: u32)
    ensures
        len == encoded_length(n),
        len == encoding(n).len(),
        1 <= len <= 5,
{
    if n < 0x80 {
        return 1;
    }
    if n < 0x4000 {
        return 2;
    }
    if n < 0x20_0000 {
        return 3;
    }
    if n < 0x1000_0000 {
        return 4;
    }
    5
}

/// Appends the encoding of `n` to `w` and returns the number of bytes appended.
pub fn encode_u32(n: u32, w: &mut Vec<u8>) -> (len: u32)
    ensures
        final(w)@ == old(w)@ + encoding(n),
        len == encoded_length(n),
        len == encoding(n).len(),
{
    if n < 0x80 {
        w.push(n as u8);
        assert(w@ =~= old(w)@ + encoding(n));
        return 1;
    }
    if n < 0x4000 {
        w.push(0x80u8 | (n & 0x3f) as u8);
        w.push((n >> 6) as u8);
        assert(w@ =~= old(w)@ + encoding(n));
        return 2;
    }
    if n < 0x20_0000 {
        w.push(0xc0u8 | (n & 0x1f) as u8);
        w.push((n >> 5) as u8);
        w.push((n >> 13) as u8);
        assert(w@ =~= old(w)@ + encoding(n));
        return 3;
    }
    if n < 0x1000_0000 {
        w.push(0xe0u8 | (n & 0x0f) as u8);
        w.push((n >> 4) as u8);
        w.push((n >> 12) as u8);
        w.push((n >> 20) as u8);
        assert(w@ =~= old(w)@ + encoding(n));
        return 4;
    }
    w.push(0xf0u8 | (n & 0x07) as u8);
    w.push((n >> 3) as u8);
    w.push((n >> 11) as u8);
    w.push((n >> 19) as u8);
    w.push((n >> 27) as u8);
    assert(w@ =~= old(w)@ + encoding(n));
    5
}

/// Number of bytes that an encoding starting with `first` occupies, so that a
/// reader of a stream knows how many more to fetch.
pub fn length_announced_by(first: u8) -> (len: usize)
    ensures
        len == announced_length(first),
        1 <= len <= 5,
{
    if first < 0x80 {
        1
    } else if first < 0xc0 {
        2
    } else if first < 0xe0 {
        3
    } else if first < 0xf0 {
        4
    } else {
        5
    }
}

/// `byteorder::ReadBytesExt::read_u8` on the bytes of `input` from index `at`
/// on: it yields the byte at `at`, or nothing where no byte is left.
#[verifier::external_body]
fn read_u8(input: &[u8], at: usize) -> (r: Option<u8>)
    requires
        at <= input@.len(),
    ensures
        r == if at < input@.len() {
            Some(input@[at as int])
        } else {
            None::<u8>
        },
{
    let mut rest: &[u8] = &input[at..];
    rest.read_u8().ok()
}

/// Decodes one integer from the front of `input`, and says how many bytes it
/// took. Fails exactly when `input` ends before the announced length.
pub fn decode_u32(input: &[u8]) -> (r: Result<(u32, usize), Error>)
    ensures
        match decoding(input@) {
            Some((n, taken)) => r == Ok::<(u32, usize), Error>((n, taken as usize)),
            None => r == Err::<(u32, usize), Error>(Error::Truncated),
        },
{
    let Some(first) = read_u8(input, 0) else {
        return Err(Error::Truncated);
    };
    if first < 0x80 {
        return Ok((first as u32, 1));
    }
    let Some(b1) = read_u8(input, 1) else {
        return Err(Error::Truncated);
    };
    if first < 0xc0 {
        return Ok(((first & 0x3f) as u32 | (b1 as u32) << 6, 2));
    }
    let Some(b2) = read_u8(input, 2) else {
        return Err(Error::Truncated);
    };
    if first < 0xe0 {
        return Ok(((first & 0x1f) as u32 | (b1 as u32) << 5 | (b2 as u32) << 13, 3));
    }
    let Some(b3) = read_u8(input, 3) else {
        return Err(Error::Truncated);
    };
    if first < 0xf0 {
        return Ok(
            ((first & 0x0f) as u32 | (b1 as u32) << 4 | (b2 as u32) << 12 | (b3 as u32) << 20, 4),
        );
    }
    let Some(b4) = read_u8(input, 4) else {
        return Err(Error::Truncated);
    };
    Ok(
        (
            (first & 0x07) as u32 | (b1 as u32) << 3 | (b2 as u32) << 11 | (b3 as u32) << 19 | (
            b4 as u32) << 27,
            5,
        ),
    )
}

} // verus!
