//! CRC-32 (IEEE 802.3, reflected polynomial `0xEDB88320`).
//!
//! The same function serves as the content digest of a resource identifier
//! and as the integrity checksum of a stored record.

use vstd::prelude::*;

verus! {

/// The reflected generator polynomial.
pub const POLYNOMIAL: u32 = 0xEDB8_8320;

/// The register value before the first byte, and the mask applied after the last.
pub const ALL_ONES: u32 = 0xFFFF_FFFF;

/// One shift of the register: divide by `x`, reducing by the polynomial
/// when a one falls off the low end.
pub open spec fn spec_round(reg: u32) -> u32 {
    if reg & 1 == 1 {
        (reg >> 1) ^ POLYNOMIAL
    } else {
        reg >> 1
    }
}

/// The register after one more input byte: the byte is folded into the low
/// eight bits, then the register is shifted eight times.
pub open spec fn spec_feed(reg: u32, byte: u8) -> u32 {
    let r0 = reg ^ (byte as u32);
    spec_round(
        spec_round(
            spec_round(spec_round(spec_round(spec_round(spec_round(spec_round(r0)))))),
        ),
    )
}

/// The register after all of `bytes`, starting from `reg`.
pub open spec fn spec_update(reg: u32, bytes: Seq<u8>) -> u32
    decreases bytes.len(),
{
    if bytes.len() == 0 {
        reg
    } else {
        spec_feed(spec_update(reg, bytes.drop_last()), bytes.last())
    }
}

/// The CRC-32 of `bytes`.
pub open spec fn spec_crc32(bytes: Seq<u8>) -> u32 {
    spec_update(ALL_ONES, bytes) ^ ALL_ONES
}

/// Feeding a concatenation is feeding its parts in turn.
pub proof fn lemma_update_concat(reg: u32, a: Seq<u8>, b: Seq<u8>)
    ensures
        spec_update(reg, a + b) == spec_update(spec_update(reg, a), b),
    decreases b.len(),
{
    if b.len() == 0 {
        assert(a + b =~= a);
    } else {
        lemma_update_concat(reg, a, b.drop_last());
        assert((a + b).drop_last() =~= a + b.drop_last());
        assert((a + b).last() == b.last());
    }
}

fn round(reg: u32) -> (out: u32)
    ensures
        out == spec_round(reg),
{
    if reg & 1 == 1 {
        (reg >> 1) ^ POLYNOMIAL
    } else {
        reg >> 1
    }
}

fn feed(reg: u32, byte: u8) -> (out: u32)
    ensures
        out == spec_feed(reg, byte),
{
    let mut r: u32 = reg ^ (byte as u32);
    r = round(r);
    r = round(r);
    r = round(r);
    r = round(r);
    r = round(r);
    r = round(r);
    r = round(r);
    r = round(r);
    r
}

/// Continues a running CRC register over `bytes`.
pub fn update(reg: u32, bytes: &[u8]) -> (out: u32)
    ensures
        out == spec_update(reg, bytes@),
{
    let mut r: u32 = reg;
    let mut i: usize = 0;
    while i < bytes.len()
        invariant
            i <= bytes.len(),
            r == spec_update(reg, bytes@.take(i as int)),
        decreases bytes.len() - i,
    {
        assert(bytes@.take(i + 1).drop_last() =~= bytes@.take(i as int));
        r = feed(r, bytes[i]);
        i = i + 1;
    }
    assert(bytes@.take(i as int) =~= bytes@);
    r
}

/// Computes the CRC-32 of `bytes`.
pub fn crc32(bytes: &[u8]) -> (out: u32)
    ensures
        out == spec_crc32(bytes@),
{
    update(ALL_ONES, bytes) ^ ALL_ONES
}

} // verus!
