//! Bit-level primitives shared by the builder and the lookup machines.
//!
//! Everything here is part of the data layout: a map that was built with
//! these equations can only be read back with the very same equations.

use vstd::prelude::*;

verus! {

/// Multiplier used to blend a pilot byte into a seed.
pub const PILOT_MULTIPLIER: u64 = 0x517cc1b727220a95;

/// Upper 32 bits of a 64-bit hash.
pub open spec fn spec_high(v: u64) -> u32 {
    (v >> 32) as u32
}

/// Lower 32 bits of a 64-bit hash.
pub open spec fn spec_low(v: u64) -> u32 {
    (v & 0xffff_ffff) as u32
}

/// Multiply-shift range reduction: `floor(x * limit / 2^32)`.
pub open spec fn spec_fast_reduct32(x: u32, limit: u32) -> u32 {
    ((x as int * limit as int) / 0x1_0000_0000) as u32
}

/// Multiply-shift range reduction on 64 bits: `floor(x * limit / 2^64)`.
pub open spec fn spec_fast_reduct64(x: u64, limit: u64) -> u64 {
    ((x as int * limit as int) / 0x1_0000_0000_0000_0000) as u64
}

/// The pilot hash: the seed xored with the pilot, times a fixed odd constant,
/// modulo 2^64.
pub open spec fn spec_hash_pilot(seed: u64, pilot: u8) -> u64 {
    PILOT_MULTIPLIER.wrapping_mul(seed ^ (pilot as u64))
}

/// Slot of a key in a single-level map of `len` keys.
pub open spec fn small_slot(hash: u64, len: u32) -> u32 {
    spec_fast_reduct32(spec_high(hash) ^ spec_low(hash), len)
}

/// Bucket of a key in a bucketed map of `buckets` buckets.
pub open spec fn medium_bucket(hash: u64, buckets: u32) -> u32 {
    spec_fast_reduct32(spec_low(hash), buckets)
}

/// Slot of a key whose bucket carries `pilot`, in a table of `slots` slots.
pub open spec fn medium_slot(hash: u64, seed: u64, pilot: u8, slots: u32) -> u32 {
    let hp = spec_hash_pilot(seed, pilot);
    spec_fast_reduct32(spec_high(hash) ^ spec_high(hp) ^ spec_low(hp), slots)
}

/// Position at which a bucketed map of `len` keys keeps the key with this
/// hash: the key's slot where that lies in the dense part, the slot's remap
/// entry where it lies in the tail.
pub open spec fn medium_index(hash: u64, seed: u64, slots: u32, pilots: Seq<u8>, remap: Seq<u32>, len: nat) -> int {
    let bucket = medium_bucket(hash, pilots.len() as u32);
    let slot = medium_slot(hash, seed, pilots[bucket as int], slots);
    if slot < len {
        slot as int
    } else {
        remap[slot - len] as int
    }
}

/// The product of two 32-bit values, divided by 2^32, stays below the second
/// factor.
pub proof fn lemma_fast_reduct32_bound(x: u32, limit: u32)
    ensures
        limit > 0 ==> spec_fast_reduct32(x, limit) < limit,
        limit == 0 ==> spec_fast_reduct32(x, limit) == 0,
        (x as int * limit as int) / 0x1_0000_0000 <= u32::MAX,
        0 <= x as int * limit as int <= 0xffff_ffff * 0xffff_ffff,
{
    assert(0 <= x as int * limit as int <= 0xffff_ffff * 0xffff_ffff) by (nonlinear_arith)
        requires
            0 <= x <= 0xffff_ffff,
            0 <= limit <= 0xffff_ffff,
    ;
    if limit > 0 {
        assert((x as int * limit as int) / 0x1_0000_0000 < limit as int) by (nonlinear_arith)
            requires
                0 <= x < 0x1_0000_0000,
                0 < limit,
        ;
    } else {
        assert(x as int * limit as int == 0) by (nonlinear_arith)
            requires
                limit == 0,
        ;
    }
}

/// Lower 32 bits of `v`.
pub fn low(v: u64) -> (r: u32)
    ensures
        r == spec_low(v),
{
    (v & 0xffff_ffff) as u32
}

/// Upper 32 bits of `v`.
pub fn high(v: u64) -> (r: u32)
    ensures
        r == spec_high(v),
{
    assert((v >> 32) <= 0xffff_ffff) by (bit_vector);
    (v >> 32) as u32
}

/// Maps `x` into `[0, limit)` without a division.
pub fn fast_reduct32(x: u32, limit: u32) -> (r: u32)
    ensures
        r == spec_fast_reduct32(x, limit),
        limit > 0 ==> r < limit,
{
    proof {
        lemma_fast_reduct32_bound(x, limit);
    }
    let wide: u64 = (x as u64) * (limit as u64);
    assert(wide >> 32 == wide / 0x1_0000_0000) by (bit_vector);
    (wide >> 32) as u32
}

/// Blends a pilot byte into the seed.
pub fn hash_pilot(seed: u64, pilot: u8) -> (r: u64)
    ensures
        r == spec_hash_pilot(seed, pilot),
{
    PILOT_MULTIPLIER.wrapping_mul(seed ^ (pilot as u64))
}

/// A hash function with a seed: from a seed and the bytes of a key to 64
/// bits. The builder and the lookup must use the same one.
pub trait HashOne {
    /// The hash of `bytes` under `seed`.
    spec fn spec_hash_one(seed: u64, bytes: Seq<u8>) -> u64;

    /// Hashes `bytes` under `seed`.
    fn hash_one(seed: u64, bytes: &[u8]) -> (h: u64)
        ensures
            h == Self::spec_hash_one(seed, bytes@),
    ;
}

} // verus!
