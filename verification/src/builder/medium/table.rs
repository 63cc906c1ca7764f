//! The placement table: which key sits in which slot, and what it means for
//! a bucket to be placed.

use vstd::prelude::*;
use crate::builder::medium::Slot;
use crate::phf::{fast_reduct32, high, lemma_fast_reduct32_bound, low, medium_bucket, medium_slot};
use crate::phf::{spec_fast_reduct32, spec_hash_pilot, spec_high, spec_low};

verus! {

/// Slot that key number `j` of `keys` takes under pilot `p`.
pub open spec fn cand_slot(hs: Seq<u64>, seed: u64, sl: u32, keys: Seq<usize>, p: u8, j: int) -> int {
    medium_slot(hs[keys[j] as int], seed, p, sl) as int
}

/// Under pilot `p` no two keys of `keys` share a slot.
pub open spec fn slots_distinct(hs: Seq<u64>, seed: u64, sl: u32, keys: Seq<usize>, p: u8) -> bool {
    forall|i: int, j: int|
        0 <= i < j < keys.len() ==> #[trigger] cand_slot(hs, seed, sl, keys, p, i) != #[trigger] cand_slot(
            hs,
            seed,
            sl,
            keys,
            p,
            j,
        )
}

/// Under pilot `p` every key of `keys` lands in an empty slot of its own.
pub open spec fn pilot_free(
    hs: Seq<u64>,
    seed: u64,
    sl: u32,
    slots: Seq<Option<Slot>>,
    keys: Seq<usize>,
    p: u8,
) -> bool {
    &&& slots_distinct(hs, seed, sl, keys, p)
    &&& forall|j: int|
        0 <= j < keys.len() ==> slots[#[trigger] cand_slot(hs, seed, sl, keys, p, j)] is None
}

/// Under pilot `p` every key of `keys` lands in a slot of its own, and none
/// of these slots belongs to a bucket listed in `recent`.
pub open spec fn pilot_admissible(
    hs: Seq<u64>,
    seed: u64,
    sl: u32,
    slots: Seq<Option<Slot>>,
    recent: Seq<u32>,
    keys: Seq<usize>,
    p: u8,
) -> bool {
    &&& slots_distinct(hs, seed, sl, keys, p)
    &&& forall|j: int|
        0 <= j < keys.len() ==> (slots[#[trigger] cand_slot(hs, seed, sl, keys, p, j)] matches Some(e)
            ==> !recent.contains(e.bucket))
}

/// Every key index of every bucket is in range and hashes to that bucket, and
/// every key is listed in the bucket it hashes to.
pub open spec fn buckets_wf(hs: Seq<u64>, bl: u32, buckets: Seq<Vec<usize>>) -> bool {
    &&& buckets.len() == bl
    &&& forall|b: int, j: int|
        0 <= b < bl && 0 <= j < buckets[b]@.len() ==> {
            let k = #[trigger] buckets[b]@[j];
            k < hs.len() && medium_bucket(hs[k as int], bl) == b
        }
    &&& forall|k: int|
        0 <= k < hs.len() ==> buckets[#[trigger] medium_bucket(hs[k], bl) as int]@.contains(k as usize)
}

/// The entry `e` found at slot `s` names a key of its bucket that the
/// bucket's pilot sends to `s`.
pub open spec fn entry_ok(hs: Seq<u64>, seed: u64, bl: u32, sl: u32, pilots: Seq<u8>, e: Slot, s: int) -> bool {
    &&& e.bucket < bl
    &&& e.keys_idx < hs.len()
    &&& medium_bucket(hs[e.keys_idx as int], bl) == e.bucket
    &&& medium_slot(hs[e.keys_idx as int], seed, pilots[e.bucket as int], sl) == s
}

/// Every occupied slot holds a key that its bucket's pilot sends there.
pub open spec fn table_wf(
    hs: Seq<u64>,
    seed: u64,
    bl: u32,
    sl: u32,
    pilots: Seq<u8>,
    slots: Seq<Option<Slot>>,
) -> bool {
    &&& pilots.len() == bl
    &&& slots.len() == sl
    &&& hs.len() <= sl
    &&& forall|s: int|
        0 <= s < sl ==> (#[trigger] slots[s] matches Some(e) ==> entry_ok(hs, seed, bl, sl, pilots, e, s))
}

/// Every key of bucket `b` sits in the slot its pilot sends it to.
pub open spec fn placed(
    hs: Seq<u64>,
    seed: u64,
    sl: u32,
    pilots: Seq<u8>,
    slots: Seq<Option<Slot>>,
    buckets: Seq<Vec<usize>>,
    b: int,
) -> bool {
    forall|j: int|
        0 <= j < buckets[b]@.len() ==> slots[#[trigger] cand_slot(hs, seed, sl, buckets[b]@, pilots[b], j)]
            == Some(Slot { bucket: b as u32, keys_idx: buckets[b]@[j] })
}

/// No slot is held by bucket `b`.
pub open spec fn owns_none(slots: Seq<Option<Slot>>, b: int) -> bool {
    forall|s: int| 0 <= s < slots.len() ==> (#[trigger] slots[s] matches Some(e) ==> e.bucket != b)
}

/// Bucket `x` holds no slot if it is in `unplaced`, and has all its keys in
/// place otherwise.
pub open spec fn bucket_ok(
    hs: Seq<u64>,
    seed: u64,
    sl: u32,
    buckets: Seq<Vec<usize>>,
    pilots: Seq<u8>,
    slots: Seq<Option<Slot>>,
    unplaced: Set<int>,
    x: int,
) -> bool {
    if unplaced.contains(x) {
        owns_none(slots, x)
    } else {
        placed(hs, seed, sl, pilots, slots, buckets, x)
    }
}

/// The table is consistent; the buckets in `unplaced` hold no slot, and every
/// other bucket has all its keys in place.
pub open spec fn placement_inv(
    hs: Seq<u64>,
    seed: u64,
    bl: u32,
    sl: u32,
    buckets: Seq<Vec<usize>>,
    pilots: Seq<u8>,
    slots: Seq<Option<Slot>>,
    unplaced: Set<int>,
) -> bool {
    &&& buckets_wf(hs, bl, buckets)
    &&& table_wf(hs, seed, bl, sl, pilots, slots)
    &&& forall|x: int| 0 <= x < bl ==> #[trigger] bucket_ok(hs, seed, sl, buckets, pilots, slots, unplaced, x)
}

/// A candidate slot lies inside the table.
pub proof fn lemma_cand_slot_bound(hs: Seq<u64>, seed: u64, sl: u32, keys: Seq<usize>, p: u8, j: int)
    requires
        sl > 0,
    ensures
        0 <= cand_slot(hs, seed, sl, keys, p, j) < sl,
{
    let hp = spec_hash_pilot(seed, p);
    lemma_fast_reduct32_bound(spec_high(hs[keys[j] as int]) ^ spec_high(hp) ^ spec_low(hp), sl);
}

/// The slot of key `idx` under the pilot hash `hp`.
pub(crate) fn reduct(hashes: &Vec<u64>, idx: usize, hp: u64, sl: u32) -> (r: u32)
    requires
        idx < hashes.len(),
        sl > 0,
    ensures
        r == spec_fast_reduct32(spec_high(hashes@[idx as int]) ^ spec_high(hp) ^ spec_low(hp), sl),
        r < sl,
{
    fast_reduct32(high(hashes[idx]) ^ high(hp) ^ low(hp), sl)
}

/// Tells whether `x` is among the entries of `v`.
pub(crate) fn contains_u32(v: &Vec<u32>, x: u32) -> (r: bool)
    ensures
        r == v@.contains(x),
{
    let mut i: usize = 0;
    while i < v.len()
        invariant
            i <= v.len(),
            forall|j: int| 0 <= j < i ==> v@[j] != x,
        decreases v.len() - i,
    {
        if v[i] == x {
            return true;
        }
        i += 1;
    }
    false
}

/// The keys below `upto` that hash to bucket `b`, in ascending order.
pub open spec fn members(hs: Seq<u64>, bl: u32, b: int, upto: int) -> Seq<usize>
    decreases upto,
{
    if upto <= 0 {
        Seq::empty()
    } else if medium_bucket(hs[upto - 1], bl) == b {
        members(hs, bl, b, upto - 1).push((upto - 1) as usize)
    } else {
        members(hs, bl, b, upto - 1)
    }
}

/// The keys of each bucket, in ascending order.
pub open spec fn bucket_lists(hs: Seq<u64>, bl: u32) -> Seq<Seq<usize>> {
    Seq::new(bl as nat, |b: int| members(hs, bl, b, hs.len() as int))
}

/// The key lists by their views.
pub open spec fn lists_of(buckets: Seq<Vec<usize>>) -> Seq<Seq<usize>> {
    buckets.map_values(|v: Vec<usize>| v@)
}

/// Groups the keys by bucket.
pub(crate) fn fill_buckets(hashes: &Vec<u64>, bl: u32) -> (buckets: Vec<Vec<usize>>)
    requires
        bl > 0,
    ensures
        buckets_wf(hashes@, bl, buckets@),
        lists_of(buckets@) == bucket_lists(hashes@, bl),
        forall|b: int| 0 <= b < bl ==> (#[trigger] buckets@[b])@.len() <= hashes@.len(),
{
    let mut buckets: Vec<Vec<usize>> = Vec::new();
    let mut b: u32 = 0;
    while b < bl
        invariant
            b <= bl,
            buckets.len() == b,
            forall|i: int| 0 <= i < b ==> (#[trigger] buckets@[i])@.len() == 0,
        decreases bl - b,
    {
        buckets.push(Vec::new());
        b += 1;
    }
    let mut i: usize = 0;
    while i < hashes.len()
        invariant
            bl > 0,
            i <= hashes.len(),
            buckets.len() == bl,
            forall|b: int, j: int|
                0 <= b < bl && 0 <= j < buckets@[b]@.len() ==> {
                    let k = #[trigger] buckets@[b]@[j];
                    k < i && medium_bucket(hashes@[k as int], bl) == b
                },
            forall|k: int|
                0 <= k < i ==> buckets@[#[trigger] medium_bucket(hashes@[k], bl) as int]@.contains(k as usize),
            forall|b: int| 0 <= b < bl ==> (#[trigger] buckets@[b])@ == members(hashes@, bl, b, i as int),
            forall|b: int| 0 <= b < bl ==> (#[trigger] buckets@[b])@.len() <= i,
        decreases hashes.len() - i,
    {
        let bi = fast_reduct32(low(hashes[i]), bl) as usize;
        let ghost before = buckets@;
        buckets[bi].push(i);
        proof {
            assert(buckets@[bi as int]@ == before[bi as int]@.push(i));
            assert forall|k: int| 0 <= k < i + 1 implies buckets@[#[trigger] medium_bucket(
                hashes@[k],
                bl,
            ) as int]@.contains(k as usize) by {
                let t = medium_bucket(hashes@[k], bl) as int;
                lemma_fast_reduct32_bound(spec_low(hashes@[k]), bl);
                if k == i {
                    assert(buckets@[t]@[before[t]@.len() as int] == i);
                } else if t == bi {
                    assert(before[t]@.contains(k as usize));
                    let w = choose|w: int| 0 <= w < before[t]@.len() && before[t]@[w] == k as usize;
                    assert(buckets@[t]@[w] == k as usize);
                } else {
                    assert(buckets@[t] == before[t]);
                }
            }
        }
        i += 1;
    }
    assert(lists_of(buckets@) =~= bucket_lists(hashes@, bl));
    buckets
}

/// Distinct numbers below `bound` are at most `bound` many.
pub(crate) proof fn lemma_distinct_bounded(s: Seq<u32>, bound: u32)
    requires
        s.no_duplicates(),
        forall|i: int| 0 <= i < s.len() ==> #[trigger] s[i] < bound,
    ensures
        s.len() <= bound,
{
    let t = s.map_values(|x: u32| x as int);
    assert(t.no_duplicates()) by {
        assert forall|i: int, j: int| 0 <= i < t.len() && 0 <= j < t.len() && i != j implies t[i] != t[j] by {
            assert(s[i] != s[j]);
        }
    }
    t.unique_seq_to_set();
    vstd::set_lib::lemma_int_range(0, bound as int);
    assert(t.to_set().subset_of(vstd::set_lib::set_int_range(0, bound as int))) by {
        assert forall|x: int| t.to_set().contains(x) implies vstd::set_lib::set_int_range(
            0,
            bound as int,
        ).contains(x) by {
            let i = choose|i: int| 0 <= i < t.len() && t[i] == x;
            assert(s[i] < bound);
        }
    }
    vstd::set_lib::lemma_len_subset(t.to_set(), vstd::set_lib::set_int_range(0, bound as int));
}

} // verus!
