//! The integrity checksum of a datagram.
//!
//! Where a host carries checksums, the four bytes behind the protocol header
//! of each datagram hold the CRC-32 of the datagram, computed with those four
//! bytes at zero.

use vstd::prelude::*;
use crate::bytes::{
    be32, be32_at, copy_range, lemma_be32_round_trip, push_all, push_be32, read_be32,
};

verus! {

/// The polynomial of the CRC-32, bits reversed.
pub const CRC_POLYNOMIAL: u32 = 0xEDB8_8320;

/// The checksum register after one bit has been shifted out.
pub open spec fn spec_crc_shift(crc: u32) -> u32 {
    if crc & 1 == 1 {
        (crc >> 1) ^ CRC_POLYNOMIAL
    } else {
        crc >> 1
    }
}

/// The checksum register after `times` bits have been shifted out.
pub open spec fn spec_crc_shifts(crc: u32, times: nat) -> u32
    decreases times,
{
    if times == 0 {
        crc
    } else {
        spec_crc_shifts(spec_crc_shift(crc), (times - 1) as nat)
    }
}

/// The checksum register after it has taken in one byte.
pub open spec fn spec_crc_byte(crc: u32, byte: u8) -> u32 {
    spec_crc_shifts(crc ^ (byte as u32), 8)
}

/// The checksum register after it has taken in the bytes, first to last.
pub open spec fn spec_crc_run(crc: u32, bytes: Seq<u8>) -> u32
    decreases bytes.len(),
{
    if bytes.len() == 0 {
        crc
    } else {
        spec_crc_run(spec_crc_byte(crc, bytes[0]), bytes.drop_first())
    }
}

/// The CRC-32 of the bytes: the register starts with every bit set, takes in
/// the bytes, and is inverted.
pub open spec fn spec_crc32(bytes: Seq<u8>) -> u32 {
    !spec_crc_run(0xFFFF_FFFF, bytes)
}

/// Taking in two runs of bytes one after the other is taking in the two as
/// one.
pub proof fn lemma_crc_run_concat(crc: u32, first: Seq<u8>, second: Seq<u8>)
    ensures
        spec_crc_run(spec_crc_run(crc, first), second) == spec_crc_run(crc, first + second),
    decreases first.len(),
{
    if first.len() == 0 {
        assert(first + second =~= second);
    } else {
        lemma_crc_run_concat(spec_crc_byte(crc, first[0]), first.drop_first(), second);
        assert((first + second).drop_first() =~= first.drop_first() + second);
        assert((first + second)[0] == first[0]);
    }
}

/// Takes the bytes into the checksum register.
pub fn crc_update(crc: u32, bytes: &[u8]) -> (next: u32)
    ensures
        next == spec_crc_run(crc, bytes@),
{
    let mut register = crc;
    let mut i: usize = 0;
    assert(bytes@.skip(0) =~= bytes@);
    while i < bytes.len()
        invariant
            i <= bytes@.len(),
            spec_crc_run(crc, bytes@) == spec_crc_run(register, bytes@.skip(i as int)),
        decreases bytes@.len() - i,
    {
        let ghost before = register;
        register = register ^ (bytes[i] as u32);
        let ghost mixed = register;
        let mut bit: u8 = 0;
        while bit < 8
            invariant
                bit <= 8,
                spec_crc_shifts(mixed, 8) == spec_crc_shifts(register, (8 - bit) as nat),
            decreases 8 - bit,
        {
            register = if register & 1 == 1 {
                (register >> 1) ^ CRC_POLYNOMIAL
            } else {
                register >> 1
            };
            bit = bit + 1;
        }
        proof {
            assert(bytes@.skip(i as int)[0] == bytes@[i as int]);
            assert(bytes@.skip(i as int).drop_first() =~= bytes@.skip(i + 1));
            assert(register == spec_crc_byte(before, bytes@[i as int]));
        }
        i = i + 1;
    }
    register
}

/// The CRC-32 of the bytes.
pub fn crc32(bytes: &[u8]) -> (sum: u32)
    ensures
        sum == spec_crc32(bytes@),
{
    !crc_update(0xFFFF_FFFF, bytes)
}

/// Length in bytes of the protocol header of the datagram that begins with
/// the given bytes: four where the header says that a sent time follows,
/// two otherwise.
pub open spec fn spec_header_length(bytes: Seq<u8>) -> int {
    if bytes.len() > 0 && bytes[0] >= 0x80 {
        4
    } else {
        2
    }
}

/// The checksum of a datagram without checksum field whose protocol header
/// is `at` bytes long: the CRC-32 of the datagram with four zero bytes behind
/// the header.
pub open spec fn spec_checksum(bytes: Seq<u8>, at: int) -> u32 {
    spec_crc32(bytes.subrange(0, at) + be32(0) + bytes.subrange(at, bytes.len() as int))
}

/// The datagram with its checksum behind the protocol header. Bytes too few
/// for a protocol header stay as they are.
pub open spec fn spec_sealed(bytes: Seq<u8>) -> Seq<u8> {
    let at = spec_header_length(bytes);
    if bytes.len() < at {
        bytes
    } else {
        bytes.subrange(0, at) + be32(spec_checksum(bytes, at)) + bytes.subrange(
            at,
            bytes.len() as int,
        )
    }
}

/// The datagram without its checksum, if the checksum behind the protocol
/// header is that of the datagram.
pub open spec fn spec_unsealed(bytes: Seq<u8>) -> Option<Seq<u8>> {
    let at = spec_header_length(bytes);
    if bytes.len() < at + 4 {
        None
    } else {
        let inner = bytes.subrange(0, at) + bytes.subrange(at + 4, bytes.len() as int);
        if be32_at(bytes, at) == spec_checksum(inner, at) {
            Some(inner)
        } else {
            None
        }
    }
}

/// Length in bytes of the protocol header of the datagram that begins with
/// the given bytes.
pub fn header_length(bytes: &[u8]) -> (at: usize)
    ensures
        at == spec_header_length(bytes@),
{
    if bytes.len() > 0 && bytes[0] >= 0x80 {
        4
    } else {
        2
    }
}

/// The checksum of a datagram whose protocol header is `bytes[..at]` and
/// whose commands are `bytes[from..]`.
fn checksum_of(bytes: &[u8], at: usize, from: usize) -> (sum: u32)
    requires
        at <= from <= bytes@.len(),
    ensures
        sum == spec_crc32(
            bytes@.subrange(0, at as int) + be32(0) + bytes@.subrange(
                from as int,
                bytes@.len() as int,
            ),
        ),
{
    let head = copy_range(bytes, 0, at);
    let tail = copy_range(bytes, from, bytes.len());
    let mut zeros: Vec<u8> = Vec::new();
    push_be32(&mut zeros, 0);
    let first = crc_update(0xFFFF_FFFF, head.as_slice());
    let second = crc_update(first, zeros.as_slice());
    let third = crc_update(second, tail.as_slice());
    proof {
        lemma_crc_run_concat(0xFFFF_FFFF, head@, zeros@);
        lemma_crc_run_concat(0xFFFF_FFFF, head@ + zeros@, tail@);
        assert(zeros@ =~= be32(0));
    }
    !third
}

/// Puts the checksum of the datagram behind its protocol header.
pub fn seal(bytes: &[u8]) -> (sealed: Vec<u8>)
    ensures
        sealed@ == spec_sealed(bytes@),
{
    let at = header_length(bytes);
    if bytes.len() < at {
        let same = copy_range(bytes, 0, bytes.len());
        assert(bytes@.subrange(0, bytes@.len() as int) =~= bytes@);
        return same;
    }
    let sum = checksum_of(bytes, at, at);
    let mut sealed = copy_range(bytes, 0, at);
    push_be32(&mut sealed, sum);
    let tail = copy_range(bytes, at, bytes.len());
    push_all(&mut sealed, tail.as_slice());
    sealed
}

/// Checks the checksum behind the protocol header of the datagram and takes
/// it out. `None` where the bytes are too few or the checksum is not that of
/// the datagram.
pub fn unseal(bytes: &[u8]) -> (inner: Option<Vec<u8>>)
    ensures
        match inner {
            Some(inner) => spec_unsealed(bytes@) == Some(inner@),
            None => spec_unsealed(bytes@) is None,
        },
{
    let at = header_length(bytes);
    if bytes.len() < 4 || bytes.len() - 4 < at {
        return None;
    }
    let mut inner = copy_range(bytes, 0, at);
    let tail = copy_range(bytes, at + 4, bytes.len());
    push_all(&mut inner, tail.as_slice());
    let sum = checksum_of(bytes, at, at + 4);
    proof {
        assert(inner@.subrange(0, at as int) =~= bytes@.subrange(0, at as int));
        assert(inner@.subrange(at as int, inner@.len() as int) =~= bytes@.subrange(
            at + 4,
            bytes@.len() as int,
        ));
    }
    if read_be32(bytes, at) == sum {
        Some(inner)
    } else {
        None
    }
}

/// A datagram that was sealed is found intact when it is unsealed.
pub proof fn lemma_unseal_inverts_seal(bytes: Seq<u8>)
    requires
        bytes.len() >= spec_header_length(bytes),
    ensures
        spec_unsealed(spec_sealed(bytes)) == Some(bytes),
{
    let at = spec_header_length(bytes);
    let sealed = spec_sealed(bytes);
    assert(sealed[0] == bytes[0]);
    assert(spec_header_length(sealed) == at);
    let inner = sealed.subrange(0, at) + sealed.subrange(at + 4, sealed.len() as int);
    assert(inner =~= bytes);
    assert(sealed.subrange(at, at + 4) =~= be32(spec_checksum(bytes, at)));
    lemma_be32_round_trip(sealed, at, spec_checksum(bytes, at));
}

/// A datagram whose checksum field was tampered with is refused.
pub proof fn lemma_wrong_checksum_is_refused(bytes: Seq<u8>, sum: u32)
    requires
        bytes.len() >= spec_header_length(bytes),
        sum != spec_checksum(bytes, spec_header_length(bytes)),
    ensures
        spec_unsealed(
            bytes.subrange(0, spec_header_length(bytes)) + be32(sum) + bytes.subrange(
                spec_header_length(bytes),
                bytes.len() as int,
            ),
        ) is None,
{
    let at = spec_header_length(bytes);
    let forged = bytes.subrange(0, at) + be32(sum) + bytes.subrange(at, bytes.len() as int);
    assert(forged[0] == bytes[0]);
    assert(spec_header_length(forged) == at);
    let inner = forged.subrange(0, at) + forged.subrange(at + 4, forged.len() as int);
    assert(inner =~= bytes);
    assert(forged.subrange(at, at + 4) =~= be32(sum));
    lemma_be32_round_trip(forged, at, sum);
}

} // verus!
