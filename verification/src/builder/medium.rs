//! Bucketed-displacement construction with pilot bytes and a remap tail.
//!
//! Keys are grouped into buckets by the low half of their hash. Each bucket
//! gets one pilot byte; the pilot moves all keys of the bucket at once, and the
//! search looks for a pilot under which every key of the bucket lands in a
//! slot of its own. When no free pilot exists the cheapest set of already
//! placed buckets is evicted and queued for placement again.

use vstd::prelude::*;
use crate::builder::{MapKind, MapOutput};
use crate::builder::medium::extract::{extract, extracted, holds_key, landing, one_slot_per_key, reached};
use crate::builder::medium::round::{place_buckets, spec_place_buckets};
use crate::builder::medium::table::{bucket_lists, bucket_ok, cand_slot, entry_ok, fill_buckets};
use crate::builder::medium::table::lemma_cand_slot_bound;
use crate::builder::tiny::is_permutation;
use crate::phf::{lemma_fast_reduct32_bound, medium_bucket, medium_index, spec_low};

pub mod evict;
pub mod extract;
pub mod free;
pub mod order;
pub mod round;
pub mod table;

verus! {

/// Largest key count the bucketed construction accepts.
pub const MEDIUM_MAX_KEYS: usize = 10_485_760;

/// Largest key count for which slot numbers fit in 32 bits. A builder that is
/// forced to go on past [`MEDIUM_MAX_KEYS`] can go on up to here.
pub const FORCED_MAX_KEYS: u64 = 4_000_000_000;

/// One occupied slot of the placement table.
#[derive(Clone, Copy, Debug)]
pub struct Slot {
    pub bucket: u32,
    pub keys_idx: usize,
}

/// `x` is `2^e` for some `e < 32`.
pub open spec fn spec_is_power_of_two(x: u32) -> bool {
    exists|e: u32| e < 32 && x == (1u32 << e)
}

/// `ceil(n / 0.99)`, written over the integers.
pub open spec fn spec_ceil_over_alpha(n: nat) -> nat {
    ((n * 100 + 98) / 99) as nat
}

/// Number of slots for `n` keys: `ceil(n / 0.99)`, plus one where that is a
/// power of two.
pub open spec fn spec_slots_len(n: nat) -> nat {
    let len = spec_ceil_over_alpha(n);
    if len <= u32::MAX && spec_is_power_of_two(len as u32) {
        len + 1
    } else {
        len
    }
}

/// Number of buckets for `n` keys: `ceil(n / 3) + 3`.
pub open spec fn spec_buckets_len(n: nat) -> nat {
    (n + 2) / 3 + 3
}

/// Tells whether `x` is a power of two.
pub fn is_power_of_two(x: u32) -> (r: bool)
    ensures
        r == spec_is_power_of_two(x),
        x == 0 ==> !r,
{
    let mut e: u32 = 0;
    while e < 32
        invariant
            e <= 32,
            forall|j: u32| j < e ==> x != (1u32 << j),
        decreases 32 - e,
    {
        if x == (1u32 << e) {
            assert((1u32 << e) != 0) by (bit_vector)
                requires
                    e < 32,
            ;
            return true;
        }
        e += 1;
    }
    false
}

/// Number of slots for `n` keys.
pub fn slots_len(n: u32) -> (r: u32)
    requires
        n <= FORCED_MAX_KEYS,
    ensures
        r == spec_slots_len(n as nat),
        n <= r,
        r <= n + n / 99 + 2,
        n == 0 ==> r == 0,
{
    let len: u32 = ((n as u64 * 100 + 98) / 99) as u32;
    if is_power_of_two(len) {
        len + 1
    } else {
        len
    }
}

/// Number of buckets for `n` keys.
pub fn buckets_len(n: u32) -> (r: u32)
    requires
        n <= FORCED_MAX_KEYS,
    ensures
        r == spec_buckets_len(n as nat),
        r >= 3,
{
    (n + 2) / 3 + 3
}

/// The result of a bucketed construction fits the hashes: the tables have
/// the sizes that the key count calls for, and the lookup equation sends the
/// key stored at each position back to that position.
pub open spec fn medium_placed(
    hashes: Seq<u64>,
    seed: u64,
    slots: u32,
    pilots: Seq<u8>,
    remap: Seq<u32>,
    index: Seq<usize>,
) -> bool {
    let n = hashes.len();
    &&& index.len() == n
    &&& slots == spec_slots_len(n)
    &&& pilots.len() == spec_buckets_len(n)
    &&& remap.len() == slots - n
    &&& forall|t: int| 0 <= t < remap.len() ==> #[trigger] remap[t] < n
    &&& forall|i: int|
        0 <= i < n ==> (#[trigger] index[i]) < n && medium_index(
            hashes[index[i] as int],
            seed,
            slots,
            pilots,
            remap,
            n,
        ) == i
}

/// What the bucketed construction gives for keys with these hashes under
/// `seed`: the slot count, the pilots, the remap table and the order of the
/// keys; `None` where some bucket finds no pilot.
pub open spec fn spec_place_medium(hs: Seq<u64>, seed: u64) -> Option<(u32, Seq<u8>, Seq<u32>, Seq<usize>)> {
    let n = hs.len();
    let sl = spec_slots_len(n) as u32;
    let bl = spec_buckets_len(n) as u32;
    match spec_place_buckets(hs, seed, bl, sl, bucket_lists(hs, bl)) {
        None => None,
        Some(table) => {
            let read = extracted(table.1, n, table.1.len() as int);
            Some((sl, table.0, read.1, read.0))
        },
    }
}

/// `out` is the bucketed map with these parts, built under `seed`.
pub open spec fn medium_is(out: MapOutput, seed: u64, parts: (u32, Seq<u8>, Seq<u32>, Seq<usize>)) -> bool {
    &&& out.kind matches MapKind::Medium { seed: s, slots, pilots, remap }
    &&& s == seed
    &&& slots == parts.0
    &&& pilots@ == parts.1
    &&& remap@ == parts.2
    &&& out.index@ == parts.3
}

/// Builds the bucketed map for keys with the given hashes under `seed`.
/// Returns `None` where the search finds no pilot for some bucket: another
/// seed has to be tried.
pub fn place_medium(hashes: &Vec<u64>, seed: u64) -> (r: Option<MapOutput>)
    requires
        hashes@.len() <= FORCED_MAX_KEYS,
    ensures
        r matches Some(out) ==> spec_place_medium(hashes@, seed) is Some && medium_is(
            out,
            seed,
            spec_place_medium(hashes@, seed)->0,
        ),
        r is None ==> spec_place_medium(hashes@, seed) is None,
        r matches Some(out) ==> (out.kind matches MapKind::Medium { seed: s, slots, pilots, remap } && s == seed
            && medium_placed(hashes@, seed, slots, pilots@, remap@, out.index@)),
{
    let ghost hs = hashes@;
    let n = hashes.len();
    let sl = slots_len(n as u32);
    let bl = buckets_len(n as u32);
    let buckets = fill_buckets(hashes, bl);
    match place_buckets(hashes, seed, bl, sl, &buckets) {
        None => None,
        Some(table) => {
            let (pilots, slots) = table;
            proof {
                assert forall|k: int| 0 <= k < n implies #[trigger] holds_key(slots@, k) by {
                    let x = medium_bucket(hs[k], bl) as int;
                    lemma_fast_reduct32_bound(spec_low(hs[k]), bl);
                    assert(buckets@[x]@.contains(k as usize));
                    let j = choose|j: int| 0 <= j < buckets@[x]@.len() && buckets@[x]@[j] == k as usize;
                    assert(bucket_ok(hs, seed, sl, buckets@, pilots@, slots@, Set::<int>::empty(), x));
                    let s = cand_slot(hs, seed, sl, buckets@[x]@, pilots@[x], j);
                    lemma_cand_slot_bound(hs, seed, sl, buckets@[x]@, pilots@[x], j);
                    assert(slots@[s] == Some(Slot { bucket: x as u32, keys_idx: k as usize }));
                }
                assert forall|s: int, t: int|
                    0 <= s < slots@.len() && 0 <= t < slots@.len() && s != t && (#[trigger] slots@[s]) is Some && (
                    #[trigger] slots@[t]) is Some implies slots@[s]->0.keys_idx != slots@[t]->0.keys_idx by {
                    assert(entry_ok(hs, seed, bl, sl, pilots@, slots@[s]->0, s));
                    assert(entry_ok(hs, seed, bl, sl, pilots@, slots@[t]->0, t));
                }
                assert(one_slot_per_key(slots@, n as nat));
            }
            let (index, remap) = extract(&slots, n);
            proof {
                assert forall|i: int| 0 <= i < n implies (#[trigger] index@[i]) < n && medium_index(
                    hs[index@[i] as int],
                    seed,
                    sl,
                    pilots@,
                    remap@,
                    n as nat,
                ) == i by {
                    assert(reached(slots@, remap@, n as nat, i));
                    let s = choose|s: int|
                        0 <= s < slots@.len() && (#[trigger] slots@[s]) is Some && landing(remap@, n as nat, s)
                            == i;
                    assert(entry_ok(hs, seed, bl, sl, pilots@, slots@[s]->0, s));
                }
            }
            Some(MapOutput { kind: MapKind::Medium { seed, slots: sl, pilots, remap }, index })
        },
    }
}

/// Where the lookup equation sends the key stored at each position back to
/// that position, the positions hold each key once.
pub proof fn lemma_medium_placed_permutation(
    hashes: Seq<u64>,
    seed: u64,
    slots: u32,
    pilots: Seq<u8>,
    remap: Seq<u32>,
    index: Seq<usize>,
)
    requires
        medium_placed(hashes, seed, slots, pilots, remap, index),
    ensures
        is_permutation(index),
{
    let n = hashes.len();
    assert forall|i: int, j: int| 0 <= i < j < index.len() implies index[i] != index[j] by {
        assert(index[i] < n && medium_index(hashes[index[i] as int], seed, slots, pilots, remap, n) == i);
        assert(index[j] < n && medium_index(hashes[index[j] as int], seed, slots, pilots, remap, n) == j);
    }
}

} // verus!
