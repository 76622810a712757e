//! Big-endian integers in byte sequences.

use vstd::prelude::*;

verus! {

/// The more significant byte of `x`.
#[verifier::opaque]
pub open spec fn high_byte(x: u16) -> u8 {
    (x / 256) as u8
}

/// The less significant byte of `x`.
#[verifier::opaque]
pub open spec fn low_byte(x: u16) -> u8 {
    (x % 256) as u8
}

/// The 16-bit integer with the given bytes.
#[verifier::opaque]
pub open spec fn join16(high: u8, low: u8) -> u16 {
    (high * 256 + low) as u16
}

/// The byte of `x` with the given place value: 3 for the most significant,
/// 0 for the least.
#[verifier::opaque]
pub open spec fn byte_of(x: u32, place: int) -> u8 {
    if place == 3 {
        (x / 0x100_0000) as u8
    } else if place == 2 {
        ((x / 0x1_0000) % 256) as u8
    } else if place == 1 {
        ((x / 256) % 256) as u8
    } else {
        (x % 256) as u8
    }
}

/// The 32-bit integer with the given bytes, most significant first.
#[verifier::opaque]
pub open spec fn join32(b3: u8, b2: u8, b1: u8, b0: u8) -> u32 {
    (b3 * 0x100_0000 + b2 * 0x1_0000 + b1 * 256 + b0) as u32
}

/// The two bytes of `x`, most significant first.
pub open spec fn be16(x: u16) -> Seq<u8> {
    seq![high_byte(x), low_byte(x)]
}

/// The four bytes of `x`, most significant first.
pub open spec fn be32(x: u32) -> Seq<u8> {
    seq![byte_of(x, 3), byte_of(x, 2), byte_of(x, 1), byte_of(x, 0)]
}

/// The 16-bit integer whose big-endian bytes stand at `s[at]` and `s[at + 1]`.
pub open spec fn be16_at(s: Seq<u8>, at: int) -> u16 {
    join16(s[at], s[at + 1])
}

/// The 32-bit integer whose big-endian bytes stand at `s[at] .. s[at + 3]`.
pub open spec fn be32_at(s: Seq<u8>, at: int) -> u32 {
    join32(s[at], s[at + 1], s[at + 2], s[at + 3])
}

/// Joining the two bytes of a 16-bit integer gives the integer.
pub proof fn lemma_join16_of_bytes(x: u16)
    ensures
        join16(high_byte(x), low_byte(x)) == x,
{
    reveal(high_byte);
    reveal(low_byte);
    reveal(join16);
}

/// The bytes of a joined 16-bit integer are the bytes joined.
pub proof fn lemma_bytes_of_join16(high: u8, low: u8)
    ensures
        high_byte(join16(high, low)) == high,
        low_byte(join16(high, low)) == low,
{
    reveal(high_byte);
    reveal(low_byte);
    reveal(join16);
}

/// Joining the four bytes of a 32-bit integer gives the integer.
pub proof fn lemma_join32_of_bytes(x: u32)
    ensures
        join32(byte_of(x, 3), byte_of(x, 2), byte_of(x, 1), byte_of(x, 0)) == x,
{
    reveal(byte_of);
    reveal(join32);
}

/// The bytes of a joined 32-bit integer are the bytes joined.
pub proof fn lemma_bytes_of_join32(b3: u8, b2: u8, b1: u8, b0: u8)
    ensures
        byte_of(join32(b3, b2, b1, b0), 3) == b3,
        byte_of(join32(b3, b2, b1, b0), 2) == b2,
        byte_of(join32(b3, b2, b1, b0), 1) == b1,
        byte_of(join32(b3, b2, b1, b0), 0) == b0,
{
    reveal(byte_of);
    reveal(join32);
    let x = b3 * 0x100_0000 + b2 * 0x1_0000 + b1 * 256 + b0;
    assert(x / 0x1_0000 == b3 * 256 + b2);
    assert(x / 256 == b3 * 0x1_0000 + b2 * 256 + b1);
}

/// Reading back what `be16` wrote gives the integer written.
pub proof fn lemma_be16_round_trip(s: Seq<u8>, at: int, x: u16)
    requires
        0 <= at,
        at + 2 <= s.len(),
        s.subrange(at, at + 2) == be16(x),
    ensures
        be16_at(s, at) == x,
{
    assert(s[at] == s.subrange(at, at + 2)[0]);
    assert(s[at + 1] == s.subrange(at, at + 2)[1]);
    lemma_join16_of_bytes(x);
}

/// Reading back what `be32` wrote gives the integer written.
pub proof fn lemma_be32_round_trip(s: Seq<u8>, at: int, x: u32)
    requires
        0 <= at,
        at + 4 <= s.len(),
        s.subrange(at, at + 4) == be32(x),
    ensures
        be32_at(s, at) == x,
{
    assert(s[at] == s.subrange(at, at + 4)[0]);
    assert(s[at + 1] == s.subrange(at, at + 4)[1]);
    assert(s[at + 2] == s.subrange(at, at + 4)[2]);
    assert(s[at + 3] == s.subrange(at, at + 4)[3]);
    lemma_join32_of_bytes(x);
}

/// Writing what `be16_at` read gives the bytes read.
pub proof fn lemma_be16_at_round_trip(s: Seq<u8>, at: int)
    requires
        0 <= at,
        at + 2 <= s.len(),
    ensures
        be16(be16_at(s, at)) == s.subrange(at, at + 2),
{
    lemma_bytes_of_join16(s[at], s[at + 1]);
    assert(be16(be16_at(s, at)) =~= s.subrange(at, at + 2));
}

/// Writing what `be32_at` read gives the bytes read.
pub proof fn lemma_be32_at_round_trip(s: Seq<u8>, at: int)
    requires
        0 <= at,
        at + 4 <= s.len(),
    ensures
        be32(be32_at(s, at)) == s.subrange(at, at + 4),
{
    lemma_bytes_of_join32(s[at], s[at + 1], s[at + 2], s[at + 3]);
    assert(be32(be32_at(s, at)) =~= s.subrange(at, at + 4));
}

/// Appends the big-endian bytes of `x` to `out`.
pub fn push_be16(out: &mut Vec<u8>, x: u16)
    ensures
        final(out)@ == old(out)@ + be16(x),
{
    out.push((x / 256) as u8);
    out.push((x % 256) as u8);
    proof {
        reveal(high_byte);
        reveal(low_byte);
    }
    assert(out@ =~= old(out)@ + be16(x));
}

/// Appends the big-endian bytes of `x` to `out`.
pub fn push_be32(out: &mut Vec<u8>, x: u32)
    ensures
        final(out)@ == old(out)@ + be32(x),
{
    out.push((x / 0x100_0000) as u8);
    out.push(((x / 0x1_0000) % 256) as u8);
    out.push(((x / 256) % 256) as u8);
    out.push((x % 256) as u8);
    proof {
        reveal(byte_of);
    }
    assert(out@ =~= old(out)@ + be32(x));
}

/// Reads the big-endian 16-bit integer at `bytes[at]`.
pub fn read_be16(bytes: &[u8], at: usize) -> (x: u16)
    requires
        at + 2 <= bytes@.len(),
    ensures
        x == be16_at(bytes@, at as int),
{
    let hi: u16 = bytes[at] as u16;
    let lo: u16 = bytes[at + 1] as u16;
    proof {
        reveal(join16);
    }
    hi * 256 + lo
}

/// Reads the big-endian 32-bit integer at `bytes[at]`.
pub fn read_be32(bytes: &[u8], at: usize) -> (x: u32)
    requires
        at + 4 <= bytes@.len(),
    ensures
        x == be32_at(bytes@, at as int),
{
    let b0: u32 = bytes[at] as u32;
    let b1: u32 = bytes[at + 1] as u32;
    let b2: u32 = bytes[at + 2] as u32;
    let b3: u32 = bytes[at + 3] as u32;
    proof {
        reveal(join32);
    }
    b0 * 0x100_0000 + b1 * 0x1_0000 + b2 * 256 + b3
}

/// A copy of `bytes[from..to]`.
pub fn copy_range(bytes: &[u8], from: usize, to: usize) -> (out: Vec<u8>)
    requires
        from <= to <= bytes@.len(),
    ensures
        out@ == bytes@.subrange(from as int, to as int),
{
    let mut out: Vec<u8> = Vec::new();
    let mut i: usize = from;
    while i < to
        invariant
            from <= i <= to <= bytes@.len(),
            out@ == bytes@.subrange(from as int, i as int),
        decreases to - i,
    {
        out.push(bytes[i]);
        i = i + 1;
        assert(out@ =~= bytes@.subrange(from as int, i as int));
    }
    out
}

/// Appends every byte of `bytes` to `out`.
pub fn push_all(out: &mut Vec<u8>, bytes: &[u8])
    ensures
        final(out)@ == old(out)@ + bytes@,
{
    let mut i: usize = 0;
    while i < bytes.len()
        invariant
            i <= bytes@.len(),
            out@ == old(out)@ + bytes@.subrange(0, i as int),
        decreases bytes@.len() - i,
    {
        out.push(bytes[i]);
        i = i + 1;
        assert(out@ =~= old(out)@ + bytes@.subrange(0, i as int));
    }
    assert(bytes@.subrange(0, i as int) =~= bytes@);
}

} // verus!
