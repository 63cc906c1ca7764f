//! Placing a bucket without touching another: the search for a pilot that
//! takes empty slots only.

use vstd::prelude::*;
use crate::builder::medium::Slot;
use crate::builder::medium::table::{bucket_ok, buckets_wf, cand_slot, contains_u32, entry_ok};
use crate::builder::medium::table::{lemma_cand_slot_bound, owns_none, pilot_free, placed, placement_inv};
use crate::builder::medium::table::reduct;
use crate::phf::{hash_pilot, spec_hash_pilot};

verus! {

/// Tells whether pilot `p` sends every key of `keys` to an empty slot of its
/// own.
fn check_free(
    hashes: &Vec<u64>,
    seed: u64,
    sl: u32,
    slots: &Vec<Option<Slot>>,
    keys: &Vec<usize>,
    p: u8,
    seen: &mut Vec<u32>,
) -> (r: bool)
    requires
        sl > 0,
        slots.len() == sl,
        forall|j: int| 0 <= j < keys@.len() ==> #[trigger] keys@[j] < hashes@.len(),
    ensures
        r == pilot_free(hashes@, seed, sl, slots@, keys@, p),
{
    seen.clear();
    let hp = hash_pilot(seed, p);
    let mut j: usize = 0;
    while j < keys.len()
        invariant
            sl > 0,
            slots.len() == sl,
            hp == spec_hash_pilot(seed, p),
            j <= keys.len(),
            forall|j: int| 0 <= j < keys@.len() ==> #[trigger] keys@[j] < hashes@.len(),
            seen@.len() == j,
            forall|i: int| 0 <= i < j ==> #[trigger] seen@[i] == cand_slot(hashes@, seed, sl, keys@, p, i),
            forall|i: int|
                0 <= i < j ==> slots@[#[trigger] cand_slot(hashes@, seed, sl, keys@, p, i)] is None,
            forall|a: int, b: int|
                0 <= a < b < j ==> #[trigger] cand_slot(hashes@, seed, sl, keys@, p, a) != #[trigger] cand_slot(
                    hashes@,
                    seed,
                    sl,
                    keys@,
                    p,
                    b,
                ),
        decreases keys.len() - j,
    {
        let slot = reduct(hashes, keys[j], hp, sl);
        assert(slot == cand_slot(hashes@, seed, sl, keys@, p, j as int));
        if slots[slot as usize].is_some() {
            return false;
        }
        if contains_u32(seen, slot) {
            proof {
                let i = choose|i: int| 0 <= i < seen@.len() && seen@[i] == slot;
                assert(cand_slot(hashes@, seed, sl, keys@, p, i) == cand_slot(
                    hashes@,
                    seed,
                    sl,
                    keys@,
                    p,
                    j as int,
                ));
            }
            return false;
        }
        proof {
            assert forall|a: int| 0 <= a < j implies #[trigger] cand_slot(hashes@, seed, sl, keys@, p, a)
                != slot by {
                assert(seen@[a] == cand_slot(hashes@, seed, sl, keys@, p, a));
                assert(seen@.contains(seen@[a]));
            }
        }
        seen.push(slot);
        j += 1;
    }
    true
}

/// The smallest pilot that sends every key of `keys` to an empty slot of its
/// own, if there is one.
pub open spec fn first_free(hs: Seq<u64>, seed: u64, sl: u32, slots: Seq<Option<Slot>>, keys: Seq<usize>) -> Option<
    u8,
> {
    if exists|p: u8| pilot_free(hs, seed, sl, slots, keys, p) {
        Some(
            choose|p: u8|
                pilot_free(hs, seed, sl, slots, keys, p) && forall|q: u8|
                    q < p ==> !pilot_free(hs, seed, sl, slots, keys, q),
        )
    } else {
        None
    }
}

/// The smallest pilot that sends every key of `keys` to an empty slot of its
/// own, if there is one.
pub(crate) fn find_free_pilot(
    hashes: &Vec<u64>,
    seed: u64,
    sl: u32,
    slots: &Vec<Option<Slot>>,
    keys: &Vec<usize>,
    seen: &mut Vec<u32>,
) -> (r: Option<u8>)
    requires
        sl > 0,
        slots.len() == sl,
        forall|j: int| 0 <= j < keys@.len() ==> #[trigger] keys@[j] < hashes@.len(),
    ensures
        r == first_free(hashes@, seed, sl, slots@, keys@),
        r matches Some(p) ==> pilot_free(hashes@, seed, sl, slots@, keys@, p),
        r matches Some(p) ==> forall|q: u8| q < p ==> !pilot_free(hashes@, seed, sl, slots@, keys@, q),
        r is None ==> forall|q: u8| !pilot_free(hashes@, seed, sl, slots@, keys@, q),
{
    let mut i: u16 = 0;
    while i < 256
        invariant
            i <= 256,
            sl > 0,
            slots.len() == sl,
            forall|j: int| 0 <= j < keys@.len() ==> #[trigger] keys@[j] < hashes@.len(),
            forall|q: u8| q < i ==> !pilot_free(hashes@, seed, sl, slots@, keys@, q),
        decreases 256 - i,
    {
        let p = i as u8;
        if check_free(hashes, seed, sl, slots, keys, p, seen) {
            proof {
                let least = first_free(hashes@, seed, sl, slots@, keys@)->0;
                // two least pilots are one
                assert(!(least < p));
                assert(!(p < least));
            }
            return Some(p);
        }
        i += 1;
    }
    None
}

/// The table after the first `upto` keys of `keys` were put into their
/// slots under pilot `p`, for bucket `b`.
pub open spec fn filled(
    hs: Seq<u64>,
    seed: u64,
    sl: u32,
    slots: Seq<Option<Slot>>,
    keys: Seq<usize>,
    b: u32,
    p: u8,
    upto: int,
) -> Seq<Option<Slot>>
    decreases upto,
{
    if upto <= 0 {
        slots
    } else {
        filled(hs, seed, sl, slots, keys, b, p, upto - 1).update(
            cand_slot(hs, seed, sl, keys, p, upto - 1),
            Some(Slot { bucket: b, keys_idx: keys[upto - 1] }),
        )
    }
}

/// Records pilot `p` for bucket `b` and puts the bucket's keys into their
/// slots, all of which are empty.
pub(crate) fn fill_free(
    b: u32,
    p: u8,
    hashes: &Vec<u64>,
    seed: u64,
    bl: u32,
    sl: u32,
    buckets: &Vec<Vec<usize>>,
    pilots: &mut Vec<u8>,
    slots: &mut Vec<Option<Slot>>,
    Ghost(unplaced): Ghost<Set<int>>,
)
    requires
        sl > 0,
        b < bl,
        unplaced.contains(b as int),
        placement_inv(hashes@, seed, bl, sl, buckets@, old(pilots)@, old(slots)@, unplaced),
        pilot_free(hashes@, seed, sl, old(slots)@, buckets@[b as int]@, p),
    ensures
        placement_inv(hashes@, seed, bl, sl, buckets@, final(pilots)@, final(slots)@, unplaced.remove(b as int)),
        final(pilots)@ == old(pilots)@.update(b as int, p),
        final(slots)@ == filled(
            hashes@,
            seed,
            sl,
            old(slots)@,
            buckets@[b as int]@,
            b,
            p,
            buckets@[b as int]@.len() as int,
        ),
{
    let ghost hs = hashes@;
    let ghost keys = buckets@[b as int]@;
    let ghost pilots0 = pilots@;
    let ghost slots0 = slots@;
    pilots.set(b as usize, p);
    let ghost pilots1 = pilots@;
    let hp = hash_pilot(seed, p);
    let n = buckets[b as usize].len();
    let mut j: usize = 0;
    while j < n
        invariant
            sl > 0,
            b < bl,
            j <= n,
            n == keys.len(),
            keys == buckets@[b as int]@,
            hs == hashes@,
            hp == spec_hash_pilot(seed, p),
            pilots@ == pilots1,
            pilots1 == pilots0.update(b as int, p),
            pilots0.len() == bl,
            slots@.len() == sl,
            slots0.len() == sl,
            buckets_wf(hs, bl, buckets@),
            pilot_free(hs, seed, sl, slots0, keys, p),
            slots@ == filled(hs, seed, sl, slots0, keys, b, p, j as int),
            forall|i: int|
                0 <= i < j ==> slots@[#[trigger] cand_slot(hs, seed, sl, keys, p, i)] == Some(
                    Slot { bucket: b, keys_idx: keys[i] },
                ),
            forall|s: int|
                0 <= s < sl ==> #[trigger] slots@[s] == slots0[s] || (exists|i: int|
                    0 <= i < j && s == cand_slot(hs, seed, sl, keys, p, i) && slots@[s] == Some(
                        Slot { bucket: b, keys_idx: keys[i] },
                    )),
        decreases n - j,
    {
        let k = buckets[b as usize][j];
        assert(k == keys[j as int]);
        let slot = reduct(hashes, k, hp, sl);
        assert(slot == cand_slot(hs, seed, sl, keys, p, j as int));
        let ghost prev = slots@;
        slots.set(slot as usize, Some(Slot { bucket: b, keys_idx: k }));
        proof {
            assert forall|i: int| 0 <= i < j + 1 implies slots@[#[trigger] cand_slot(
                hs,
                seed,
                sl,
                keys,
                p,
                i,
            )] == Some(Slot { bucket: b, keys_idx: keys[i] }) by {
                lemma_cand_slot_bound(hs, seed, sl, keys, p, i);
                if i < j {
                    assert(cand_slot(hs, seed, sl, keys, p, i) != cand_slot(hs, seed, sl, keys, p, j as int));
                }
            }
            assert forall|s: int| 0 <= s < sl implies #[trigger] slots@[s] == slots0[s] || (exists|i: int|
                0 <= i < j + 1 && s == cand_slot(hs, seed, sl, keys, p, i) && slots@[s] == Some(
                    Slot { bucket: b, keys_idx: keys[i] },
                )) by {
                if s == slot {
                    assert(s == cand_slot(hs, seed, sl, keys, p, j as int));
                } else {
                    assert(slots@[s] == prev[s]);
                }
            }
        }
        j += 1;
    }
    proof {
        let u2 = unplaced.remove(b as int);
        assert forall|s: int| 0 <= s < sl implies (#[trigger] slots@[s] matches Some(e) ==> entry_ok(
            hs,
            seed,
            bl,
            sl,
            pilots@,
            e,
            s,
        )) by {
            if slots@[s] != slots0[s] {
                let i = choose|i: int|
                    0 <= i < j && s == cand_slot(hs, seed, sl, keys, p, i) && slots@[s] == Some(
                        Slot { bucket: b, keys_idx: keys[i] },
                    );
                assert(buckets@[b as int]@[i] == keys[i]);
            } else if slots0[s] is Some {
                let e = slots0[s]->0;
                assert(bucket_ok(hs, seed, sl, buckets@, pilots0, slots0, unplaced, b as int));
                assert(e.bucket != b);
                assert(entry_ok(hs, seed, bl, sl, pilots0, e, s));
            }
        }
        assert forall|x: int| 0 <= x < bl implies #[trigger] bucket_ok(
            hs,
            seed,
            sl,
            buckets@,
            pilots@,
            slots@,
            u2,
            x,
        ) by {
            assert(bucket_ok(hs, seed, sl, buckets@, pilots0, slots0, unplaced, x));
            if x == b {
                assert(placed(hs, seed, sl, pilots@, slots@, buckets@, x));
            } else if unplaced.contains(x) {
                assert(owns_none(slots0, x));
                assert forall|s: int| 0 <= s < slots@.len() implies (#[trigger] slots@[s] matches Some(e)
                    ==> e.bucket != x) by {
                    if slots@[s] == slots0[s] {
                    } else {
                    }
                }
            } else {
                assert(placed(hs, seed, sl, pilots0, slots0, buckets@, x));
                assert forall|i: int| 0 <= i < buckets@[x]@.len() implies slots@[#[trigger] cand_slot(
                    hs,
                    seed,
                    sl,
                    buckets@[x]@,
                    pilots@[x],
                    i,
                )] == Some(Slot { bucket: x as u32, keys_idx: buckets@[x]@[i] }) by {
                    let s = cand_slot(hs, seed, sl, buckets@[x]@, pilots0[x], i);
                    lemma_cand_slot_bound(hs, seed, sl, buckets@[x]@, pilots0[x], i);
                    assert(slots0[s] is Some);
                    if slots@[s] != slots0[s] {
                        let i2 = choose|i2: int|
                            0 <= i2 < j && s == cand_slot(hs, seed, sl, keys, p, i2) && slots@[s] == Some(
                                Slot { bucket: b, keys_idx: keys[i2] },
                            );
                        assert(slots0[cand_slot(hs, seed, sl, keys, p, i2)] is None);
                    }
                }
            }
        }
    }
}

} // verus!
