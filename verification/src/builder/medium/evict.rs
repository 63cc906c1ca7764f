//! Placing a bucket at the cost of others: the search for the pilot that
//! evicts the least, and the eviction itself.

use vstd::prelude::*;
use crate::builder::medium::Slot;
use crate::builder::medium::table::{bucket_ok, buckets_wf, cand_slot, contains_u32, entry_ok};
use crate::builder::medium::table::{lemma_cand_slot_bound, lists_of, owns_none, pilot_admissible, placed};
use crate::builder::medium::table::{placement_inv, reduct};
use crate::phf::{hash_pilot, medium_bucket, spec_hash_pilot};

verus! {

/// Every occupied slot names a bucket below `bl`.
pub open spec fn entries_in_range(slots: Seq<Option<Slot>>, bl: u32) -> bool {
    forall|s: int| 0 <= s < slots.len() ==> (#[trigger] slots[s] matches Some(e) ==> e.bucket < bl)
}

/// Place of pilot `q` in the order in which eviction candidates are tried:
/// the search starts at `0x42` and wraps around.
pub open spec fn pilot_rank(q: u8) -> int {
    (q as int + 256 - 0x42) % 256
}

/// Some earlier key of `keys` takes, under pilot `p`, the slot of key `j`.
pub open spec fn slot_repeats(hs: Seq<u64>, seed: u64, sl: u32, keys: Seq<usize>, p: u8, j: int) -> bool {
    exists|i: int| 0 <= i < j && #[trigger] cand_slot(hs, seed, sl, keys, p, i) == cand_slot(hs, seed, sl, keys, p, j)
}

/// The running cost of pilot `p` after the first `upto` keys of `keys`, with
/// the buckets that were counted so far; `None` where the pilot was given up
/// on the way.
///
/// Each key adds the squared size of the bucket that holds its slot, if that
/// bucket was not counted before. The pilot is given up where it sends two
/// keys to one slot, where it would evict a bucket of `recent`, and where the
/// running cost reaches `best`.
pub open spec fn tally(
    hs: Seq<u64>,
    seed: u64,
    sl: u32,
    lists: Seq<Seq<usize>>,
    slots: Seq<Option<Slot>>,
    recent: Seq<u32>,
    keys: Seq<usize>,
    p: u8,
    best: Option<u128>,
    upto: int,
) -> Option<(u128, Seq<u32>)>
    decreases upto,
{
    if upto <= 0 {
        Some((0u128, Seq::<u32>::empty()))
    } else {
        match tally(hs, seed, sl, lists, slots, recent, keys, p, best, upto - 1) {
            None => None,
            Some(so_far) => {
                let j = upto - 1;
                let held = slots[cand_slot(hs, seed, sl, keys, p, j)];
                if slot_repeats(hs, seed, sl, keys, p, j) {
                    None
                } else if held is Some && recent.contains(held->0.bucket) {
                    None
                } else {
                    let fresh = held is Some && !so_far.1.contains(held->0.bucket);
                    let size = lists[held->0.bucket as int].len();
                    let total = if fresh {
                        so_far.0.saturating_add((size * size) as u128)
                    } else {
                        so_far.0
                    };
                    let counted = if fresh {
                        so_far.1.push(held->0.bucket)
                    } else {
                        so_far.1
                    };
                    if best is Some && total >= best->0 {
                        None
                    } else {
                        Some((total, counted))
                    }
                }
            },
        }
    }
}

/// The collision cost of pilot `p` for the keys of a bucket, or `None` where
/// the pilot is given up.
pub open spec fn spec_score(
    hs: Seq<u64>,
    seed: u64,
    sl: u32,
    lists: Seq<Seq<usize>>,
    slots: Seq<Option<Slot>>,
    recent: Seq<u32>,
    keys: Seq<usize>,
    p: u8,
    best: Option<u128>,
) -> Option<u128> {
    match tally(hs, seed, sl, lists, slots, recent, keys, p, best, keys.len() as int) {
        Some(done) => Some(done.0),
        None => None,
    }
}

/// Collision cost of pilot `p` for bucket `b`, or `None` where the pilot is
/// given up: it sends two keys to one slot, it would evict a bucket listed in
/// `recent`, or its running cost reaches `best`.
///
/// The cost is the sum, over the buckets that the pilot would evict, of the
/// squared bucket size, each bucket counted once.
fn score_pilot(
    hashes: &Vec<u64>,
    seed: u64,
    sl: u32,
    buckets: &Vec<Vec<usize>>,
    slots: &Vec<Option<Slot>>,
    recent: &Vec<u32>,
    b: u32,
    p: u8,
    best: Option<u128>,
    seen: &mut Vec<u32>,
    scored: &mut Vec<u32>,
) -> (r: Option<u128>)
    requires
        sl > 0,
        slots.len() == sl,
        b < buckets.len(),
        buckets.len() <= u32::MAX,
        entries_in_range(slots@, buckets.len() as u32),
        forall|j: int| 0 <= j < buckets@[b as int]@.len() ==> #[trigger] buckets@[b as int]@[j] < hashes@.len(),
    ensures
        r == spec_score(hashes@, seed, sl, lists_of(buckets@), slots@, recent@, buckets@[b as int]@, p, best),
        r is Some ==> pilot_admissible(hashes@, seed, sl, slots@, recent@, buckets@[b as int]@, p),
        best is None ==> (r is Some <==> pilot_admissible(
            hashes@,
            seed,
            sl,
            slots@,
            recent@,
            buckets@[b as int]@,
            p,
        )),
{
    seen.clear();
    scored.clear();
    let ghost lists = lists_of(buckets@);
    let ghost hs = hashes@;
    let ghost keys = buckets@[b as int]@;
    let hp = hash_pilot(seed, p);
    let n = buckets[b as usize].len();
    let mut score: u128 = 0;
    let mut j: usize = 0;
    while j < n
        invariant
            sl > 0,
            slots.len() == sl,
            b < buckets.len(),
            buckets.len() <= u32::MAX,
            entries_in_range(slots@, buckets.len() as u32),
            hs == hashes@,
            keys == buckets@[b as int]@,
            n == keys.len(),
            forall|j: int| 0 <= j < keys.len() ==> #[trigger] keys[j] < hs.len(),
            hp == spec_hash_pilot(seed, p),
            j <= n,
            seen@.len() == j,
            lists == lists_of(buckets@),
            tally(hs, seed, sl, lists, slots@, recent@, keys, p, best, j as int) == Some((score, scored@)),
            forall|i: int| 0 <= i < j ==> #[trigger] seen@[i] == cand_slot(hs, seed, sl, keys, p, i),
            forall|i: int|
                0 <= i < j ==> (slots@[#[trigger] cand_slot(hs, seed, sl, keys, p, i)] matches Some(e)
                    ==> !recent@.contains(e.bucket)),
            forall|a: int, c: int|
                0 <= a < c < j ==> #[trigger] cand_slot(hs, seed, sl, keys, p, a) != #[trigger] cand_slot(
                    hs,
                    seed,
                    sl,
                    keys,
                    p,
                    c,
                ),
        decreases n - j,
    {
        let slot = reduct(hashes, buckets[b as usize][j], hp, sl);
        assert(slot == cand_slot(hs, seed, sl, keys, p, j as int));
        if contains_u32(seen, slot) {
            proof {
                let i = choose|i: int| 0 <= i < seen@.len() && seen@[i] == slot;
                assert(cand_slot(hs, seed, sl, keys, p, i) == cand_slot(hs, seed, sl, keys, p, j as int));
                assert(slot_repeats(hs, seed, sl, keys, p, j as int));
                lemma_tally_given_up(hs, seed, sl, lists, slots@, recent@, keys, p, best, j + 1, n as int);
            }
            return None;
        }
        proof {
            assert forall|a: int| 0 <= a < j implies #[trigger] cand_slot(hs, seed, sl, keys, p, a)
                != slot by {
                assert(seen@[a] == cand_slot(hs, seed, sl, keys, p, a));
                assert(seen@.contains(seen@[a]));
            }
            assert(!slot_repeats(hs, seed, sl, keys, p, j as int));
        }
        let mut new_score: u128 = 0;
        match slots[slot as usize] {
            None => {},
            Some(e) => {
                if contains_u32(recent, e.bucket) {
                    proof {
                        lemma_tally_given_up(hs, seed, sl, lists, slots@, recent@, keys, p, best, j + 1, n as int);
                    }
                    return None;
                }
                if !contains_u32(scored, e.bucket) {
                    scored.push(e.bucket);
                    let size = buckets[e.bucket as usize].len() as u128;
                    assert(size * size <= 0xffff_ffff_ffff_ffff * 0xffff_ffff_ffff_ffff) by (nonlinear_arith)
                        requires
                            0 <= size <= 0xffff_ffff_ffff_ffff,
                    ;
                    new_score = size * size;
                    assert(size == lists[e.bucket as int].len());
                }
            },
        }
        seen.push(slot);
        score = score.saturating_add(new_score);
        j += 1;
        match best {
            Some(limit) => {
                if score >= limit {
                    proof {
                        lemma_tally_given_up(hs, seed, sl, lists, slots@, recent@, keys, p, best, j as int, n as int);
                    }
                    return None;
                }
            },
            None => {},
        }
    }
    Some(score)
}

/// A pilot that was given up stays given up.
proof fn lemma_tally_given_up(
    hs: Seq<u64>,
    seed: u64,
    sl: u32,
    lists: Seq<Seq<usize>>,
    slots: Seq<Option<Slot>>,
    recent: Seq<u32>,
    keys: Seq<usize>,
    p: u8,
    best: Option<u128>,
    at: int,
    upto: int,
)
    requires
        0 <= at <= upto,
        tally(hs, seed, sl, lists, slots, recent, keys, p, best, at) is None,
    ensures
        tally(hs, seed, sl, lists, slots, recent, keys, p, best, upto) is None,
    decreases upto - at,
{
    if at < upto {
        lemma_tally_given_up(hs, seed, sl, lists, slots, recent, keys, p, best, at, upto - 1);
    }
}

/// The pilot that is tried at place `i`: the search starts at `0x42` and
/// wraps around.
pub open spec fn pilot_at(i: int) -> u8 {
    ((i + 0x42) % 256) as u8
}

/// The best pilot among the first `upto` that were tried, with its cost, and
/// whether the search has settled on it.
///
/// A pilot is the best so far where its cost stays below the cost of the best
/// before it. The search settles on a pilot that evicts as much as one bucket
/// of the size of the bucket that is placed.
pub open spec fn best_upto(
    hs: Seq<u64>,
    seed: u64,
    sl: u32,
    lists: Seq<Seq<usize>>,
    slots: Seq<Option<Slot>>,
    recent: Seq<u32>,
    keys: Seq<usize>,
    upto: int,
) -> (Option<(u128, u8)>, bool)
    decreases upto,
{
    if upto <= 0 {
        (None, false)
    } else {
        let before = best_upto(hs, seed, sl, lists, slots, recent, keys, upto - 1);
        if before.1 {
            before
        } else {
            let p = pilot_at(upto - 1);
            let limit = match before.0 {
                Some(found) => Some(found.0),
                None => None,
            };
            match spec_score(hs, seed, sl, lists, slots, recent, keys, p, limit) {
                Some(score) => (Some((score, p)), score == ((keys.len() * keys.len()) as u128)),
                None => (before.0, false),
            }
        }
    }
}

/// The pilot under which placing a bucket evicts the least, or `None` where
/// every pilot is given up.
pub open spec fn spec_best_pilot(
    hs: Seq<u64>,
    seed: u64,
    sl: u32,
    lists: Seq<Seq<usize>>,
    slots: Seq<Option<Slot>>,
    recent: Seq<u32>,
    keys: Seq<usize>,
) -> Option<u8> {
    match best_upto(hs, seed, sl, lists, slots, recent, keys, 256).0 {
        Some(found) => Some(found.1),
        None => None,
    }
}

/// A search that has settled stays as it is.
proof fn lemma_best_settled(
    hs: Seq<u64>,
    seed: u64,
    sl: u32,
    lists: Seq<Seq<usize>>,
    slots: Seq<Option<Slot>>,
    recent: Seq<u32>,
    keys: Seq<usize>,
    at: int,
    upto: int,
)
    requires
        0 <= at <= upto,
        best_upto(hs, seed, sl, lists, slots, recent, keys, at).1,
    ensures
        best_upto(hs, seed, sl, lists, slots, recent, keys, upto) == best_upto(
            hs,
            seed,
            sl,
            lists,
            slots,
            recent,
            keys,
            at,
        ),
    decreases upto - at,
{
    if at < upto {
        lemma_best_settled(hs, seed, sl, lists, slots, recent, keys, at, upto - 1);
    }
}

/// The pilot under which placing bucket `b` evicts the least, among the pilots
/// that send its keys to slots of their own and evict no bucket of `recent`.
/// `None` exactly where no pilot qualifies.
pub(crate) fn best_pilot(
    hashes: &Vec<u64>,
    seed: u64,
    sl: u32,
    buckets: &Vec<Vec<usize>>,
    slots: &Vec<Option<Slot>>,
    recent: &Vec<u32>,
    b: u32,
    seen: &mut Vec<u32>,
    scored: &mut Vec<u32>,
) -> (r: Option<u8>)
    requires
        sl > 0,
        slots.len() == sl,
        b < buckets.len(),
        buckets.len() <= u32::MAX,
        entries_in_range(slots@, buckets.len() as u32),
        forall|j: int| 0 <= j < buckets@[b as int]@.len() ==> #[trigger] buckets@[b as int]@[j] < hashes@.len(),
    ensures
        r == spec_best_pilot(hashes@, seed, sl, lists_of(buckets@), slots@, recent@, buckets@[b as int]@),
        r matches Some(p) ==> pilot_admissible(hashes@, seed, sl, slots@, recent@, buckets@[b as int]@, p),
        r is None ==> forall|q: u8|
            !pilot_admissible(hashes@, seed, sl, slots@, recent@, buckets@[b as int]@, q),
{
    let ghost lists = lists_of(buckets@);
    let ghost keys = buckets@[b as int]@;
    let size = buckets[b as usize].len() as u128;
    assert(size * size <= 0xffff_ffff_ffff_ffff * 0xffff_ffff_ffff_ffff) by (nonlinear_arith)
        requires
            0 <= size <= 0xffff_ffff_ffff_ffff,
    ;
    let single = size * size;
    let mut best: Option<(u128, u8)> = None;
    let mut i: u16 = 0;
    let mut settled = false;
    while i < 256 && !settled
        invariant
            i <= 256,
            sl > 0,
            slots.len() == sl,
            b < buckets.len(),
            buckets.len() <= u32::MAX,
            entries_in_range(slots@, buckets.len() as u32),
            forall|j: int|
                0 <= j < buckets@[b as int]@.len() ==> #[trigger] buckets@[b as int]@[j] < hashes@.len(),
            settled ==> best is Some,
            lists == lists_of(buckets@),
            keys == buckets@[b as int]@,
            single == ((keys.len() * keys.len()) as u128),
            best_upto(hashes@, seed, sl, lists, slots@, recent@, keys, i as int) == (best, settled),
            best matches Some(found) ==> pilot_admissible(
                hashes@,
                seed,
                sl,
                slots@,
                recent@,
                buckets@[b as int]@,
                found.1,
            ),
            best is None ==> forall|q: u8|
                pilot_rank(q) < i ==> !pilot_admissible(
                    hashes@,
                    seed,
                    sl,
                    slots@,
                    recent@,
                    buckets@[b as int]@,
                    q,
                ),
        decreases 256 - i,
    {
        let p = (i as u8).wrapping_add(0x42);
        assert(p == pilot_at(i as int));
        assert(pilot_rank(p) == i);
        assert(forall|q: u8| pilot_rank(q) == i ==> q == p);
        let limit = match best {
            Some(found) => Some(found.0),
            None => None,
        };
        match score_pilot(hashes, seed, sl, buckets, slots, recent, b, p, limit, seen, scored) {
            Some(score) => {
                best = Some((score, p));
                // After the search for a free pilot, nothing beats the eviction
                // of one bucket of the same size.
                settled = score == single;
            },
            None => {},
        }
        i += 1;
    }
    proof {
        if settled {
            lemma_best_settled(hashes@, seed, sl, lists, slots@, recent@, keys, i as int, 256);
        }
    }
    match best {
        Some(found) => Some(found.1),
        None => None,
    }
}

/// Slot `t` is one that the keys of `keys` take under pilot `p`.
pub open spec fn takes(hs: Seq<u64>, seed: u64, sl: u32, keys: Seq<usize>, p: u8, t: int) -> bool {
    exists|m: int| 0 <= m < keys.len() && cand_slot(hs, seed, sl, keys, p, m) == t
}

/// The table with every slot emptied that the keys of `keys` take under
/// pilot `p`, but for slot `keep`.
pub open spec fn wiped(
    hs: Seq<u64>,
    seed: u64,
    sl: u32,
    slots: Seq<Option<Slot>>,
    keys: Seq<usize>,
    p: u8,
    keep: int,
) -> Seq<Option<Slot>> {
    Seq::new(
        slots.len(),
        |t: int|
            if t != keep && takes(hs, seed, sl, keys, p, t) {
                None
            } else {
                slots[t]
            },
    )
}

/// Empties every slot that bucket `x`'s keys take under the bucket's pilot,
/// but for slot `keep`.
fn wipe_bucket(
    x: u32,
    keep: u32,
    hashes: &Vec<u64>,
    seed: u64,
    sl: u32,
    buckets: &Vec<Vec<usize>>,
    pilots: &Vec<u8>,
    slots: &mut Vec<Option<Slot>>,
)
    requires
        sl > 0,
        old(slots).len() == sl,
        x < buckets.len(),
        pilots.len() == buckets.len(),
        forall|j: int| 0 <= j < buckets@[x as int]@.len() ==> #[trigger] buckets@[x as int]@[j] < hashes@.len(),
    ensures
        final(slots).len() == sl,
        final(slots)@ == wiped(hashes@, seed, sl, old(slots)@, buckets@[x as int]@, pilots@[x as int], keep as int),
        forall|t: int|
            0 <= t < sl ==> #[trigger] final(slots)@[t] == (if t != keep && (exists|m: int|
                0 <= m < buckets@[x as int]@.len() && cand_slot(
                    hashes@,
                    seed,
                    sl,
                    buckets@[x as int]@,
                    pilots@[x as int],
                    m,
                ) == t) {
                None
            } else {
                old(slots)@[t]
            }),
{
    let ghost hs = hashes@;
    let ghost keys = buckets@[x as int]@;
    let ghost slots0 = slots@;
    let px = pilots[x as usize];
    let hp = hash_pilot(seed, px);
    let n = buckets[x as usize].len();
    let mut m: usize = 0;
    while m < n
        invariant
            sl > 0,
            slots.len() == sl,
            slots0.len() == sl,
            x < buckets.len(),
            hs == hashes@,
            keys == buckets@[x as int]@,
            n == keys.len(),
            forall|j: int| 0 <= j < keys.len() ==> #[trigger] keys[j] < hs.len(),
            hp == spec_hash_pilot(seed, px),
            m <= n,
            forall|t: int|
                0 <= t < sl ==> #[trigger] slots@[t] == (if t != keep && (exists|i: int|
                    0 <= i < m && cand_slot(hs, seed, sl, keys, px, i) == t) {
                    None
                } else {
                    slots0[t]
                }),
        decreases n - m,
    {
        let slot = reduct(hashes, buckets[x as usize][m], hp, sl);
        assert(slot == cand_slot(hs, seed, sl, keys, px, m as int));
        let ghost prev = slots@;
        if slot != keep {
            slots.set(slot as usize, None);
        }
        proof {
            assert forall|t: int| 0 <= t < sl implies #[trigger] slots@[t] == (if t != keep && (exists|i: int|
                0 <= i < m + 1 && cand_slot(hs, seed, sl, keys, px, i) == t) {
                None
            } else {
                slots0[t]
            }) by {
                if t == slot {
                } else {
                    assert(slots@[t] == prev[t]);
                    if exists|i: int| 0 <= i < m + 1 && cand_slot(hs, seed, sl, keys, px, i) == t {
                        let i = choose|i: int| 0 <= i < m + 1 && cand_slot(hs, seed, sl, keys, px, i) == t;
                        assert(i < m);
                    }
                }
            }
        }
        m += 1;
    }
    assert(slots@ =~= wiped(hs, seed, sl, slots0, keys, px, keep as int));
}

/// The table and the stack after the first `upto` keys of bucket `b` were
/// put into their slots under pilot `p`: a bucket that held one of these
/// slots has lost all its slots and was pushed onto the stack.
pub open spec fn evicted(
    hs: Seq<u64>,
    seed: u64,
    sl: u32,
    lists: Seq<Seq<usize>>,
    pilots: Seq<u8>,
    slots: Seq<Option<Slot>>,
    stack: Seq<u32>,
    b: u32,
    p: u8,
    upto: int,
) -> (Seq<Option<Slot>>, Seq<u32>)
    decreases upto,
{
    if upto <= 0 {
        (slots, stack)
    } else {
        let before = evicted(hs, seed, sl, lists, pilots, slots, stack, b, p, upto - 1);
        let keys = lists[b as int];
        let slot = cand_slot(hs, seed, sl, keys, p, upto - 1);
        let put = before.0.update(slot, Some(Slot { bucket: b, keys_idx: keys[upto - 1] }));
        match before.0[slot] {
            None => (put, before.1),
            Some(e) => (
                wiped(hs, seed, sl, put, lists[e.bucket as int], pilots[e.bucket as int], slot),
                before.1.push(e.bucket),
            ),
        }
    }
}

/// Records pilot `p` for bucket `b` and puts the bucket's keys into their
/// slots. A bucket that held one of these slots loses all its slots and is
/// pushed onto `stack`.
pub(crate) fn evict_place(
    b: u32,
    p: u8,
    hashes: &Vec<u64>,
    seed: u64,
    bl: u32,
    sl: u32,
    buckets: &Vec<Vec<usize>>,
    pilots: &mut Vec<u8>,
    slots: &mut Vec<Option<Slot>>,
    stack: &mut Vec<u32>,
    Ghost(unplaced): Ghost<Set<int>>,
    Ghost(recent): Ghost<Seq<u32>>,
) -> (next: Ghost<Set<int>>)
    requires
        sl > 0,
        b < bl,
        unplaced.contains(b as int),
        recent.contains(b),
        placement_inv(hashes@, seed, bl, sl, buckets@, old(pilots)@, old(slots)@, unplaced),
        pilot_admissible(hashes@, seed, sl, old(slots)@, recent, buckets@[b as int]@, p),
    ensures
        placement_inv(hashes@, seed, bl, sl, buckets@, final(pilots)@, final(slots)@, next@),
        final(pilots)@ == old(pilots)@.update(b as int, p),
        (final(slots)@, final(stack)@) == evicted(
            hashes@,
            seed,
            sl,
            lists_of(buckets@),
            old(pilots)@.update(b as int, p),
            old(slots)@,
            old(stack)@,
            b,
            p,
            buckets@[b as int]@.len() as int,
        ),
        final(stack)@.len() >= old(stack)@.len(),
        final(stack)@.subrange(0, old(stack)@.len() as int) == old(stack)@,
        forall|x: int|
            next@.contains(x) <==> (unplaced.contains(x) && x != b) || (exists|i: int|
                old(stack)@.len() <= i < final(stack)@.len() && final(stack)@[i] == x),
        forall|i: int|
            old(stack)@.len() <= i < final(stack)@.len() ==> {
                let x = #[trigger] final(stack)@[i];
                x < bl && !unplaced.contains(x as int) && !recent.contains(x)
            },
        forall|i: int, j: int|
            old(stack)@.len() <= i < j < final(stack)@.len() ==> final(stack)@[i] != final(stack)@[j],
{
    let ghost hs = hashes@;
    let ghost keys = buckets@[b as int]@;
    let ghost pilots0 = pilots@;
    let ghost slots0 = slots@;
    let ghost stack0 = stack@;
    let ghost base = stack@.len() as int;
    pilots.set(b as usize, p);
    let hp = hash_pilot(seed, p);
    let n = buckets[b as usize].len();
    let ghost cur: Set<int> = unplaced.remove(b as int);
    proof {
        assert forall|s: int| 0 <= s < sl implies (#[trigger] slots@[s] matches Some(e) ==> e.bucket != b
            && entry_ok(hs, seed, bl, sl, pilots@, e, s)) by {
            assert(bucket_ok(hs, seed, sl, buckets@, pilots0, slots0, unplaced, b as int));
        }
        assert forall|x: int| 0 <= x < bl && x != b implies #[trigger] bucket_ok(
            hs,
            seed,
            sl,
            buckets@,
            pilots@,
            slots@,
            cur,
            x,
        ) by {
            assert(bucket_ok(hs, seed, sl, buckets@, pilots0, slots0, unplaced, x));
        }
    }
    let mut j: usize = 0;
    while j < n
        invariant
            sl > 0,
            b < bl,
            j <= n,
            n == keys.len(),
            keys == buckets@[b as int]@,
            hs == hashes@,
            hp == spec_hash_pilot(seed, p),
            pilots@ == pilots0.update(b as int, p),
            pilots0.len() == bl,
            slots@.len() == sl,
            slots0.len() == sl,
            hs.len() <= sl,
            buckets_wf(hs, bl, buckets@),
            pilot_admissible(hs, seed, sl, slots0, recent, keys, p),
            recent.contains(b),
            (slots@, stack@) == evicted(
                hs,
                seed,
                sl,
                lists_of(buckets@),
                pilots0.update(b as int, p),
                slots0,
                stack0,
                b,
                p,
                j as int,
            ),
            base == stack0.len(),
            stack@.len() >= base,
            stack@.subrange(0, base) == stack0,
            forall|s: int|
                0 <= s < sl ==> (#[trigger] slots@[s] matches Some(e) ==> entry_ok(
                    hs,
                    seed,
                    bl,
                    sl,
                    pilots@,
                    e,
                    s,
                )),
            forall|i: int|
                0 <= i < j ==> slots@[#[trigger] cand_slot(hs, seed, sl, keys, p, i)] == Some(
                    Slot { bucket: b, keys_idx: keys[i] },
                ),
            forall|s: int|
                0 <= s < sl ==> (#[trigger] slots@[s] matches Some(e) ==> if e.bucket == b {
                    exists|i: int| 0 <= i < j && s == cand_slot(hs, seed, sl, keys, p, i)
                } else {
                    slots0[s] == slots@[s]
                }),
            forall|x: int|
                0 <= x < bl && x != b ==> #[trigger] bucket_ok(hs, seed, sl, buckets@, pilots@, slots@, cur, x),
            forall|x: int|
                cur.contains(x) <==> (unplaced.contains(x) && x != b) || (exists|i: int|
                    base <= i < stack@.len() && stack@[i] == x),
            forall|i: int|
                base <= i < stack@.len() ==> {
                    let x = #[trigger] stack@[i];
                    x < bl && !unplaced.contains(x as int) && !recent.contains(x)
                },
            forall|i: int, k: int| base <= i < k < stack@.len() ==> stack@[i] != stack@[k],
        decreases n - j,
    {
        let k = buckets[b as usize][j];
        assert(k == keys[j as int]);
        let slot = reduct(hashes, k, hp, sl);
        assert(slot == cand_slot(hs, seed, sl, keys, p, j as int));
        let ghost before = slots@;
        let ghost stack_before = stack@;
        let ghost cur_before = cur;
        let old_entry = slots[slot as usize];
        slots.set(slot as usize, Some(Slot { bucket: b, keys_idx: k }));
        let ghost mid = slots@;
        match old_entry {
            None => {
                proof {
                    assert forall|x: int| 0 <= x < bl && x != b implies #[trigger] bucket_ok(
                        hs,
                        seed,
                        sl,
                        buckets@,
                        pilots@,
                        slots@,
                        cur,
                        x,
                    ) by {
                        assert(bucket_ok(hs, seed, sl, buckets@, pilots@, before, cur, x));
                        if cur.contains(x) {
                            assert(owns_none(before, x));
                        } else {
                            assert forall|i: int| 0 <= i < buckets@[x]@.len() implies slots@[#[trigger] cand_slot(
                                hs,
                                seed,
                                sl,
                                buckets@[x]@,
                                pilots@[x],
                                i,
                            )] == Some(Slot { bucket: x as u32, keys_idx: buckets@[x]@[i] }) by {
                                lemma_cand_slot_bound(hs, seed, sl, buckets@[x]@, pilots@[x], i);
                            }
                        }
                    }
                }
            },
            Some(e) => {
                let x = e.bucket;
                proof {
                    assert(before[slot as int] == Some(e));
                    assert(entry_ok(hs, seed, bl, sl, pilots@, e, slot as int));
                    if x == b {
                        let i = choose|i: int| 0 <= i < j && slot == cand_slot(hs, seed, sl, keys, p, i);
                        assert(cand_slot(hs, seed, sl, keys, p, i) != cand_slot(hs, seed, sl, keys, p, j as int));
                    }
                    assert(x != b);
                    assert(slots0[slot as int] == Some(e));
                    assert(!recent.contains(x));
                    assert(bucket_ok(hs, seed, sl, buckets@, pilots@, before, cur, x as int));
                    if cur.contains(x as int) {
                        assert(owns_none(before, x as int));
                        assert(false);
                    }
                    assert(placed(hs, seed, sl, pilots@, before, buckets@, x as int));
                }
                stack.push(x);
                wipe_bucket(x, slot, hashes, seed, sl, buckets, pilots, slots);
                proof {
                    cur = cur.insert(x as int);
                    let xkeys = buckets@[x as int]@;
                    let px = pilots@[x as int];
                    // what the wipe removed was held by the evicted bucket
                    assert forall|t: int| 0 <= t < sl implies #[trigger] slots@[t] == mid[t] || (slots@[t] is None
                        && before[t] is Some && before[t]->0.bucket == x && t != slot) by {
                        if slots@[t] != mid[t] {
                            let m = choose|m: int|
                                0 <= m < xkeys.len() && cand_slot(hs, seed, sl, xkeys, px, m) == t;
                            assert(before[cand_slot(hs, seed, sl, xkeys, px, m)] == Some(
                                Slot { bucket: x, keys_idx: xkeys[m] },
                            ));
                        }
                    }
                    assert forall|s: int| 0 <= s < sl implies (#[trigger] slots@[s] matches Some(f)
                        ==> entry_ok(hs, seed, bl, sl, pilots@, f, s)) by {
                        if s == slot {
                            assert(buckets@[b as int]@[j as int] == k);
                        } else {
                            assert(slots@[s] == mid[s] || slots@[s] is None);
                            assert(mid[s] == before[s]);
                        }
                    }
                    assert forall|s: int| 0 <= s < sl implies (#[trigger] slots@[s] matches Some(f)
                        ==> if f.bucket == b {
                        exists|i: int| 0 <= i < j + 1 && s == cand_slot(hs, seed, sl, keys, p, i)
                    } else {
                        slots0[s] == slots@[s]
                    }) by {
                        if s == slot {
                            assert(s == cand_slot(hs, seed, sl, keys, p, j as int));
                        } else {
                            assert(slots@[s] == mid[s] || slots@[s] is None);
                            assert(mid[s] == before[s]);
                            if slots@[s] is Some {
                                let f = slots@[s]->0;
                                if f.bucket == b {
                                    let i = choose|i: int|
                                        0 <= i < j && s == cand_slot(hs, seed, sl, keys, p, i);
                                    assert(0 <= i < j + 1 && s == cand_slot(hs, seed, sl, keys, p, i));
                                }
                            }
                        }
                    }
                    assert forall|i: int| 0 <= i < j implies slots@[#[trigger] cand_slot(
                        hs,
                        seed,
                        sl,
                        keys,
                        p,
                        i,
                    )] == Some(Slot { bucket: b, keys_idx: keys[i] }) by {
                        let t = cand_slot(hs, seed, sl, keys, p, i);
                        lemma_cand_slot_bound(hs, seed, sl, keys, p, i);
                        assert(t != cand_slot(hs, seed, sl, keys, p, j as int));
                        assert(before[t] == Some(Slot { bucket: b, keys_idx: keys[i] }));
                        assert(slots@[t] == mid[t] || slots@[t] is None);
                    }
                    // the evicted bucket holds nothing any more
                    assert forall|t: int| 0 <= t < slots@.len() implies (#[trigger] slots@[t] matches Some(f)
                        ==> f.bucket != x) by {
                        if slots@[t] is Some {
                            let f = slots@[t]->0;
                            if f.bucket == x {
                                assert(t != slot);
                                assert(slots@[t] == mid[t]);
                                assert(before[t] == Some(f));
                                assert(entry_ok(hs, seed, bl, sl, pilots@, f, t));
                                assert(buckets@[medium_bucket(hs[f.keys_idx as int], bl) as int]@.contains(
                                    f.keys_idx,
                                ));
                                let m = choose|m: int| 0 <= m < xkeys.len() && xkeys[m] == f.keys_idx;
                                assert(cand_slot(hs, seed, sl, xkeys, px, m) == t);
                                assert(false);
                            }
                        }
                    }
                    assert(owns_none(slots@, x as int));
                    assert forall|y: int| 0 <= y < bl && y != b implies #[trigger] bucket_ok(
                        hs,
                        seed,
                        sl,
                        buckets@,
                        pilots@,
                        slots@,
                        cur,
                        y,
                    ) by {
                        assert(bucket_ok(hs, seed, sl, buckets@, pilots@, before, cur_before, y));
                        if y == x {
                        } else if cur_before.contains(y) {
                            assert(owns_none(before, y));
                            assert forall|t: int| 0 <= t < slots@.len() implies (#[trigger] slots@[t] matches Some(
                                f,
                            ) ==> f.bucket != y) by {
                                if t != slot {
                                    assert(slots@[t] == mid[t] || slots@[t] is None);
                                    assert(mid[t] == before[t]);
                                }
                            }
                        } else {
                            assert forall|i: int| 0 <= i < buckets@[y]@.len() implies slots@[#[trigger] cand_slot(
                                hs,
                                seed,
                                sl,
                                buckets@[y]@,
                                pilots@[y],
                                i,
                            )] == Some(Slot { bucket: y as u32, keys_idx: buckets@[y]@[i] }) by {
                                let t = cand_slot(hs, seed, sl, buckets@[y]@, pilots@[y], i);
                                lemma_cand_slot_bound(hs, seed, sl, buckets@[y]@, pilots@[y], i);
                                assert(before[t] == Some(Slot { bucket: y as u32, keys_idx: buckets@[y]@[i] }));
                                assert(t != slot);
                                assert(slots@[t] == mid[t] || slots@[t] is None && before[t]->0.bucket == x);
                            }
                        }
                    }
                    assert(stack@ == stack_before.push(x));
                    assert(stack@.subrange(0, base) =~= stack_before.subrange(0, base));
                    assert forall|y: int|
                        cur.contains(y) <==> (unplaced.contains(y) && y != b) || (exists|i: int|
                            base <= i < stack@.len() && stack@[i] == y) by {
                        if cur.contains(y) {
                            if y == x {
                                assert(stack@[stack_before.len() as int] == y);
                            } else {
                                assert(cur_before.contains(y));
                                if !(unplaced.contains(y) && y != b) {
                                    let i = choose|i: int|
                                        base <= i < stack_before.len() && stack_before[i] == y;
                                    assert(stack@[i] == y);
                                }
                            }
                        }
                        if exists|i: int| base <= i < stack@.len() && stack@[i] == y {
                            let i = choose|i: int| base <= i < stack@.len() && stack@[i] == y;
                            if i < stack_before.len() {
                                assert(stack_before[i] == y);
                                assert(cur_before.contains(y));
                            }
                        }
                    }
                    assert forall|i: int, k: int| base <= i < k < stack@.len() implies stack@[i]
                        != stack@[k] by {
                        if k == stack_before.len() {
                            assert(stack_before[i] == stack@[i]);
                            if stack@[i] == x {
                                assert(cur_before.contains(x as int));
                            }
                        } else {
                            assert(stack_before[i] == stack@[i]);
                            assert(stack_before[k] == stack@[k]);
                        }
                    }
                }
            },
        }
        proof {
            assert forall|i: int| 0 <= i < j + 1 implies slots@[#[trigger] cand_slot(
                hs,
                seed,
                sl,
                keys,
                p,
                i,
            )] == Some(Slot { bucket: b, keys_idx: keys[i] }) by {
                lemma_cand_slot_bound(hs, seed, sl, keys, p, i);
                if i < j {
                    assert(cand_slot(hs, seed, sl, keys, p, i) != cand_slot(hs, seed, sl, keys, p, j as int));
                }
            }
            assert forall|s: int| 0 <= s < sl implies (#[trigger] slots@[s] matches Some(f) ==> if f.bucket
                == b {
                exists|i: int| 0 <= i < j + 1 && s == cand_slot(hs, seed, sl, keys, p, i)
            } else {
                slots0[s] == slots@[s]
            }) by {
                if slots@[s] is Some {
                    let f = slots@[s]->0;
                    if s == slot {
                        assert(s == cand_slot(hs, seed, sl, keys, p, j as int));
                    } else if old_entry is None {
                        assert(slots@[s] == before[s]);
                        if f.bucket == b {
                            let i = choose|i: int| 0 <= i < j && s == cand_slot(hs, seed, sl, keys, p, i);
                            assert(0 <= i < j + 1 && s == cand_slot(hs, seed, sl, keys, p, i));
                        }
                    }
                }
            }
            assert forall|s: int| 0 <= s < sl implies (#[trigger] slots@[s] matches Some(f) ==> entry_ok(
                hs,
                seed,
                bl,
                sl,
                pilots@,
                f,
                s,
            )) by {
                if s == slot {
                    assert(buckets@[b as int]@[j as int] == k);
                } else if old_entry is None {
                    assert(slots@[s] == before[s]);
                }
            }
        }
        j += 1;
    }
    proof {
        assert(placed(hs, seed, sl, pilots@, slots@, buckets@, b as int));
        assert(!cur.contains(b as int)) by {
            if cur.contains(b as int) {
                let i = choose|i: int| base <= i < stack@.len() && stack@[i] == b as int;
                assert(!recent.contains(stack@[i]));
            }
        }
        assert forall|x: int| 0 <= x < bl implies #[trigger] bucket_ok(
            hs,
            seed,
            sl,
            buckets@,
            pilots@,
            slots@,
            cur,
            x,
        ) by {
            if x != b {
                assert(bucket_ok(hs, seed, sl, buckets@, pilots@, slots@, cur, x));
            }
        }
    }
    Ghost(cur)
}

} // verus!
