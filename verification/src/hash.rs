//! Seeded hash functions for the builder and the lookup.

use std::collections::hash_map::DefaultHasher;
use std::hash::Hasher;
use std::marker::PhantomData;
use vstd::bytes::{spec_u64_to_le_bytes, u64_to_le_bytes};
use vstd::prelude::*;
use vstd::std_specs::hash::DefaultHasherAdditionalSpecFns;
use crate::phf::HashOne;

verus! {

/// The hasher `H`, seeded by writing the seed before the key.
pub struct U64Hasher<H>(pub PhantomData<H>);

impl HashOne for U64Hasher<DefaultHasher> {
    /// The digest of the seed, written as eight little-endian bytes, followed
    /// by the key.
    open spec fn spec_hash_one(seed: u64, bytes: Seq<u8>) -> u64 {
        DefaultHasher::spec_finish(seq![spec_u64_to_le_bytes(seed), bytes])
    }

    fn hash_one(seed: u64, bytes: &[u8]) -> (h: u64) {
        let mut hasher = DefaultHasher::new();
        let first = u64_to_le_bytes(seed);
        hasher.write(first.as_slice());
        hasher.write(bytes);
        assert(hasher@ =~= seq![spec_u64_to_le_bytes(seed), bytes@]);
        hasher.finish()
    }
}

/// SipHash-1-3 of `bytes` under the 128-bit key `(key0, key1)`.
pub uninterp spec fn sip13(key0: u64, key1: u64, bytes: Seq<u8>) -> u64;

/// XXH3, 64 bits, of `bytes` under `seed`.
pub uninterp spec fn xxh3(bytes: Seq<u8>, seed: u64) -> u64;

/// SipHash-1-3 of `bytes` under the key `(key0, key1)`.
///
/// Wraps `SipHasher13::new_with_keys` and `SipHasher13::hash` of the crate
/// `siphasher`. The digest is computed from the two keys and the bytes alone,
/// with the input read in little-endian order, and that is all the contract
/// claims: equal arguments give equal digests.
#[verifier::external_body]
fn sip13_digest(key0: u64, key1: u64, bytes: &[u8]) -> (r: u64)
    ensures
        r == sip13(key0, key1, bytes@),
{
    siphasher::sip::SipHasher13::new_with_keys(key0, key1).hash(bytes)
}

/// XXH3, 64 bits, of `bytes` under `seed`.
///
/// Wraps `xxh3_64_with_seed` of the crate `xxhash_rust`. The digest is
/// computed from the bytes and the seed alone, and that is all the contract
/// claims: equal arguments give equal digests.
#[verifier::external_body]
fn xxh3_digest(bytes: &[u8], seed: u64) -> (r: u64)
    ensures
        r == xxh3(bytes@, seed),
{
    xxhash_rust::xxh3::xxh3_64_with_seed(bytes, seed)
}

/// SipHash-1-3 with the seed as the first half of the key.
pub struct Sip;

/// XXH3 with the seed as its seed.
pub struct Xx3;

impl HashOne for Sip {
    open spec fn spec_hash_one(seed: u64, bytes: Seq<u8>) -> u64 {
        sip13(seed, 0, bytes)
    }

    fn hash_one(seed: u64, bytes: &[u8]) -> (h: u64) {
        sip13_digest(seed, 0, bytes)
    }
}

impl HashOne for Xx3 {
    open spec fn spec_hash_one(seed: u64, bytes: Seq<u8>) -> u64 {
        xxh3(bytes, seed)
    }

    fn hash_one(seed: u64, bytes: &[u8]) -> (h: u64) {
        xxh3_digest(bytes, seed)
    }
}

} // verus!
