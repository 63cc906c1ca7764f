//! From the finished table to the order of the keys and the remap table.

use vstd::prelude::*;
use crate::builder::medium::Slot;

verus! {

/// Number of occupied slots among `slots[lo..hi]`.
pub open spec fn occupied(slots: Seq<Option<Slot>>, lo: int, hi: int) -> nat
    decreases hi - lo,
{
    if hi <= lo {
        0
    } else {
        occupied(slots, lo, hi - 1) + if slots[hi - 1] is Some {
            1nat
        } else {
            0nat
        }
    }
}

/// The occupied slots and the keys `0..n` correspond one to one.
pub open spec fn one_slot_per_key(slots: Seq<Option<Slot>>, n: nat) -> bool {
    &&& forall|s: int| 0 <= s < slots.len() ==> (#[trigger] slots[s] matches Some(e) ==> e.keys_idx < n)
    &&& forall|s: int, t: int|
        0 <= s < slots.len() && 0 <= t < slots.len() && s != t && (#[trigger] slots[s]) is Some && (
        #[trigger] slots[t]) is Some ==> slots[s]->0.keys_idx != slots[t]->0.keys_idx
    &&& forall|k: int| 0 <= k < n ==> #[trigger] holds_key(slots, k)
}

/// Some slot holds key `k`.
pub open spec fn holds_key(slots: Seq<Option<Slot>>, k: int) -> bool {
    exists|s: int| 0 <= s < slots.len() && (#[trigger] slots[s]) is Some && slots[s]->0.keys_idx == k
}

/// Where the lookup ends up for a key found in slot `s`: the slot itself in
/// the dense part, its remap entry in the tail.
pub open spec fn landing(remap: Seq<u32>, n: nat, s: int) -> int {
    if s < n {
        s
    } else {
        remap[s - n] as int
    }
}

/// Position `i` is where the lookup ends up for some occupied slot.
pub open spec fn reached(slots: Seq<Option<Slot>>, remap: Seq<u32>, n: nat, i: int) -> bool {
    exists|s: int| 0 <= s < slots.len() && (#[trigger] slots[s]) is Some && landing(remap, n, s) == i
}

/// The occupied slots of a range are those of its two parts.
proof fn lemma_occupied_split(slots: Seq<Option<Slot>>, lo: int, mid: int, hi: int)
    requires
        lo <= mid <= hi,
    ensures
        occupied(slots, lo, hi) == occupied(slots, lo, mid) + occupied(slots, mid, hi),
    decreases hi - mid,
{
    if mid < hi {
        lemma_occupied_split(slots, lo, mid, hi - 1);
    }
}

/// Emptying a slot takes one off the count if the slot was occupied.
proof fn lemma_occupied_update(slots: Seq<Option<Slot>>, at: int, hi: int)
    requires
        0 <= at < slots.len(),
        0 <= hi <= slots.len(),
    ensures
        occupied(slots, 0, hi) == occupied(slots.update(at, None), 0, hi) + if at < hi && slots[at] is Some {
            1nat
        } else {
            0nat
        },
    decreases hi,
{
    if hi > 0 {
        lemma_occupied_update(slots, at, hi - 1);
    }
}

/// An empty table has no occupied slot.
proof fn lemma_occupied_none(slots: Seq<Option<Slot>>, hi: int)
    requires
        0 <= hi <= slots.len(),
        forall|s: int| 0 <= s < slots.len() ==> #[trigger] slots[s] is None,
    ensures
        occupied(slots, 0, hi) == 0,
    decreases hi,
{
    if hi > 0 {
        lemma_occupied_none(slots, hi - 1);
    }
}

/// Where slots and keys correspond one to one, as many slots are occupied as
/// there are keys.
proof fn lemma_occupied_count(slots: Seq<Option<Slot>>, n: nat)
    requires
        one_slot_per_key(slots, n),
    ensures
        occupied(slots, 0, slots.len() as int) == n,
    decreases n,
{
    if n == 0 {
        lemma_occupied_none(slots, slots.len() as int);
    } else {
        assert(holds_key(slots, n - 1));
        let at = choose|s: int| 0 <= s < slots.len() && (#[trigger] slots[s]) is Some && slots[s]->0.keys_idx == n - 1;
        let rest = slots.update(at, None);
        assert forall|k: int| 0 <= k < n - 1 implies #[trigger] holds_key(rest, k) by {
            assert(holds_key(slots, k));
            let s = choose|s: int| 0 <= s < slots.len() && (#[trigger] slots[s]) is Some && slots[s]->0.keys_idx == k;
            assert(rest[s] is Some && rest[s]->0.keys_idx == k);
        }
        assert forall|s: int| 0 <= s < rest.len() implies (#[trigger] rest[s] matches Some(e) ==> e.keys_idx < n
            - 1) by {
            if s != at && rest[s] is Some {
                assert(slots[s] is Some);
                assert(slots[at] is Some);
            }
        }
        assert(one_slot_per_key(rest, (n - 1) as nat)) by {
            assert forall|s: int, t: int|
                0 <= s < rest.len() && 0 <= t < rest.len() && s != t && (#[trigger] rest[s]) is Some && (
                #[trigger] rest[t]) is Some implies rest[s]->0.keys_idx != rest[t]->0.keys_idx by {
                assert(slots[s] is Some);
                assert(slots[t] is Some);
            }
        }
        lemma_occupied_count(rest, (n - 1) as nat);
        lemma_occupied_update(slots, at, slots.len() as int);
    }
}

/// The key order, the remap table and the empty dense slots that are still
/// free, after the first `upto` slots were read.
///
/// A key in a dense slot keeps that position; an empty dense slot is noted.
/// A key in a tail slot takes the empty dense slot that was noted last, and
/// the remap entry of its slot says which.
pub open spec fn extracted(slots: Seq<Option<Slot>>, n: nat, upto: int) -> (Seq<usize>, Seq<u32>, Seq<usize>)
    decreases upto,
{
    if upto <= 0 {
        (Seq::new(n, |i: int| 0usize), Seq::new((slots.len() - n) as nat, |i: int| 0u32), Seq::<usize>::empty())
    } else {
        let before = extracted(slots, n, upto - 1);
        let s = upto - 1;
        match slots[s] {
            Some(e) => if s < n {
                (before.0.update(s, e.keys_idx), before.1, before.2)
            } else {
                let h = before.2.last();
                (before.0.update(h as int, e.keys_idx), before.1.update(s - n, h as u32), before.2.drop_last())
            },
            None => if s < n {
                (before.0, before.1, before.2.push(s as usize))
            } else {
                before
            },
        }
    }
}

/// Reads the dense part of a slot table: the keys of the occupied slots, and
/// the empty slots.
fn extract_dense(slots: &Vec<Option<Slot>>, n: usize, remap: Ghost<Seq<u32>>) -> (r: (Vec<usize>, Vec<usize>))
    requires
        n <= slots@.len(),
        remap@ == Seq::new((slots@.len() - n) as nat, |i: int| 0u32),
    ensures
        (r.0@, remap@, r.1@) == extracted(slots@, n as nat, n as int),
        r.0@.len() == n,
        r.1@.no_duplicates(),
        forall|a: int| 0 <= a < r.1@.len() ==> (#[trigger] r.1@[a]) < n && slots@[r.1@[a] as int] is None,
        forall|t: int| 0 <= t < n ==> (#[trigger] slots@[t] matches Some(e) ==> r.0@[t] == e.keys_idx),
        forall|h: int| 0 <= h < n && slots@[h] is None ==> #[trigger] r.1@.contains(h as usize),
        r.1@.len() + occupied(slots@, 0, n as int) == n,
{
    let mut index: Vec<usize> = Vec::new();
    let mut i: usize = 0;
    while i < n
        invariant
            i <= n,
            index@.len() == i,
            forall|k: int| 0 <= k < i ==> #[trigger] index@[k] == 0,
        decreases n - i,
    {
        index.push(0usize);
        i += 1;
    }
    assert(index@ =~= Seq::new(n as nat, |i: int| 0usize));
    let mut holes: Vec<usize> = Vec::new();
    let mut s: usize = 0;
    while s < n
        invariant
            n <= slots@.len(),
            s <= n,
            index@.len() == n,
            (index@, remap@, holes@) == extracted(slots@, n as nat, s as int),
            holes@.no_duplicates(),
            forall|a: int| 0 <= a < holes@.len() ==> (#[trigger] holes@[a]) < s && slots@[holes@[a] as int] is None,
            forall|t: int| 0 <= t < s ==> (#[trigger] slots@[t] matches Some(e) ==> index@[t] == e.keys_idx),
            forall|h: int| 0 <= h < s && slots@[h] is None ==> #[trigger] holes@.contains(h as usize),
            holes@.len() + occupied(slots@, 0, s as int) == s,
        decreases n - s,
    {
        let ghost holes0 = holes@;
        match slots[s] {
            Some(e) => {
                index.set(s, e.keys_idx);
            },
            None => {
                holes.push(s);
                proof {
                    assert forall|a: int, c: int|
                        0 <= a < holes@.len() && 0 <= c < holes@.len() && a != c implies holes@[a] != holes@[c] by {
                        if a < holes0.len() {
                            assert(holes0[a] < s);
                        }
                        if c < holes0.len() {
                            assert(holes0[c] < s);
                        }
                    }
                    assert forall|h: int| 0 <= h < s + 1 && slots@[h] is None implies #[trigger] holes@.contains(
                        h as usize,
                    ) by {
                        if h == s {
                            assert(holes@[holes0.len() as int] == s);
                        } else {
                            assert(holes0.contains(h as usize));
                            let a = choose|a: int| 0 <= a < holes0.len() && holes0[a] == h as usize;
                            assert(holes@[a] == h as usize);
                        }
                    }
                }
            },
        }
        s += 1;
    }
    (index, holes)
}

/// A tail slot `t` with a key has an empty dense slot of its own as its
/// remap entry, the key is stored there, and the slot is no longer free.
pub open spec fn tail_done(
    slots: Seq<Option<Slot>>,
    n: nat,
    index: Seq<usize>,
    remap: Seq<u32>,
    holes: Seq<usize>,
    t: int,
) -> bool {
    slots[t] matches Some(e) ==> {
        let h = remap[t - n];
        h < n && slots[h as int] is None && index[h as int] == e.keys_idx && !holes.contains(h as usize)
    }
}

/// The empty dense slot `h` is still free, or it is the remap entry of a tail
/// slot below `upto`.
pub open spec fn hole_known(slots: Seq<Option<Slot>>, n: nat, remap: Seq<u32>, holes: Seq<usize>, upto: int, h: int) -> bool {
    holes.contains(h as usize) || (exists|t: int| n <= t < upto && (#[trigger] slots[t]) is Some && remap[t - n] == h)
}

/// Reads the key order and the remap table off a finished slot table.
///
/// A key in a dense slot keeps that position. A key in a tail slot takes the
/// position of an empty dense slot, and the remap entry of its slot says
/// which.
pub(crate) fn extract(slots: &Vec<Option<Slot>>, n: usize) -> (r: (Vec<usize>, Vec<u32>))
    requires
        n <= slots@.len() <= u32::MAX,
        one_slot_per_key(slots@, n as nat),
    ensures
        r.0@ == extracted(slots@, n as nat, slots@.len() as int).0,
        r.1@ == extracted(slots@, n as nat, slots@.len() as int).1,
        r.0@.len() == n,
        r.1@.len() == slots@.len() - n,
        forall|s: int|
            0 <= s < slots@.len() ==> (#[trigger] slots@[s] matches Some(e) ==> 0 <= landing(r.1@, n as nat, s) < n
                && r.0@[landing(r.1@, n as nat, s)] == e.keys_idx),
        forall|i: int| 0 <= i < n ==> #[trigger] reached(slots@, r.1@, n as nat, i),
        n > 0 ==> forall|t: int| 0 <= t < r.1@.len() ==> #[trigger] r.1@[t] < n,
{
    let total = slots.len();
    let mut remap: Vec<u32> = Vec::new();
    let mut i: usize = 0;
    while i < total - n
        invariant
            n <= total,
            i <= total - n,
            remap@.len() == i,
            forall|t: int| 0 <= t < i ==> #[trigger] remap@[t] == 0,
        decreases total - n - i,
    {
        remap.push(0u32);
        i += 1;
    }
    assert(remap@ =~= Seq::new((slots@.len() - n) as nat, |i: int| 0u32));
    let (mut index, mut holes) = extract_dense(slots, n, Ghost(remap@));
    proof {
        lemma_occupied_count(slots@, n as nat);
        lemma_occupied_split(slots@, 0, n as int, total as int);
    }
    let mut s: usize = n;
    while s < total
        invariant
            n <= total,
            total == slots@.len(),
            total <= u32::MAX,
            n <= s <= total,
            occupied(slots@, 0, n as int) + occupied(slots@, n as int, total as int) == n,
            index@.len() == n,
            remap@.len() == total - n,
            (index@, remap@, holes@) == extracted(slots@, n as nat, s as int),
            n > 0 ==> forall|t: int| 0 <= t < remap@.len() ==> #[trigger] remap@[t] < n,
            holes@.no_duplicates(),
            forall|a: int| 0 <= a < holes@.len() ==> (#[trigger] holes@[a]) < n && slots@[holes@[a] as int] is None,
            forall|t: int| 0 <= t < n ==> (#[trigger] slots@[t] matches Some(e) ==> index@[t] == e.keys_idx),
            forall|t: int| n <= t < s ==> #[trigger] tail_done(slots@, n as nat, index@, remap@, holes@, t),
            forall|h: int|
                0 <= h < n && slots@[h] is None ==> #[trigger] hole_known(slots@, n as nat, remap@, holes@, s as int, h),
            holes@.len() + occupied(slots@, 0, n as int) + occupied(slots@, n as int, s as int) == n,
        decreases total - s,
    {
        let ghost holes0 = holes@;
        let ghost index0 = index@;
        let ghost remap0 = remap@;
        match slots[s] {
            Some(e) => {
                proof {
                    lemma_occupied_split(slots@, n as int, s as int + 1, total as int);
                }
                let h = holes.pop().unwrap();
                proof {
                    assert(h == holes0[holes0.len() - 1]);
                    assert(holes@ == holes0.drop_last());
                    assert(holes0.contains(h));
                    assert(!holes@.contains(h)) by {
                        if holes@.contains(h) {
                            let a = choose|a: int| 0 <= a < holes@.len() && holes@[a] == h;
                            assert(holes0[a] == h);
                        }
                    }
                }
                remap.set(s - n, h as u32);
                index.set(h, e.keys_idx);
                proof {
                    lemma_tail_step(slots@, n as nat, index0, remap0, holes0, s as int, h, e.keys_idx);
                }
            },
            None => {
                proof {
                    assert forall|t: int| n <= t < s + 1 implies #[trigger] tail_done(
                        slots@,
                        n as nat,
                        index@,
                        remap@,
                        holes@,
                        t,
                    ) by {
                        if t < s {
                            assert(tail_done(slots@, n as nat, index@, remap@, holes@, t));
                        }
                    }
                    assert forall|h: int| 0 <= h < n && slots@[h] is None implies #[trigger] hole_known(
                        slots@,
                        n as nat,
                        remap@,
                        holes@,
                        s + 1,
                        h,
                    ) by {
                        assert(hole_known(slots@, n as nat, remap@, holes@, s as int, h));
                        if !holes@.contains(h as usize) {
                            let t = choose|t: int| n <= t < s && (#[trigger] slots@[t]) is Some && remap@[t - n] == h;
                            assert(n <= t < s + 1);
                        }
                    }
                }
            },
        }
        s += 1;
    }
    proof {
        assert(holes@.len() == 0);
        assert forall|t: int| 0 <= t < slots@.len() implies (#[trigger] slots@[t] matches Some(e) ==> 0 <= landing(
            remap@,
            n as nat,
            t,
        ) < n && index@[landing(remap@, n as nat, t)] == e.keys_idx) by {
            if t >= n {
                assert(tail_done(slots@, n as nat, index@, remap@, holes@, t));
            }
        }
        assert forall|i: int| 0 <= i < n implies #[trigger] reached(slots@, remap@, n as nat, i) by {
            if slots@[i] is Some {
                assert(landing(remap@, n as nat, i) == i);
            } else {
                assert(hole_known(slots@, n as nat, remap@, holes@, total as int, i));
                assert(!holes@.contains(i as usize));
                let t = choose|t: int| n <= t < total && (#[trigger] slots@[t]) is Some && remap@[t - n] == i;
                assert(landing(remap@, n as nat, t) == i);
            }
        }
    }
    (index, remap)
}

/// One step of reading the tail: the key of tail slot `s` takes the free
/// slot `h`.
proof fn lemma_tail_step(
    slots: Seq<Option<Slot>>,
    n: nat,
    index0: Seq<usize>,
    remap0: Seq<u32>,
    holes0: Seq<usize>,
    s: int,
    h: usize,
    key: usize,
)
    requires
        n <= s < slots.len(),
        slots[s] is Some,
        slots[s]->0.keys_idx == key,
        index0.len() == n,
        remap0.len() == slots.len() - n,
        n <= u32::MAX,
        holes0.len() > 0,
        h == holes0.last(),
        holes0.no_duplicates(),
        forall|a: int| 0 <= a < holes0.len() ==> (#[trigger] holes0[a]) < n && slots[holes0[a] as int] is None,
        forall|t: int| 0 <= t < n ==> (#[trigger] slots[t] matches Some(e) ==> index0[t] == e.keys_idx),
        forall|t: int| n <= t < s ==> #[trigger] tail_done(slots, n, index0, remap0, holes0, t),
        forall|g: int| 0 <= g < n && slots[g] is None ==> #[trigger] hole_known(slots, n, remap0, holes0, s, g),
        n > 0 ==> forall|t: int| 0 <= t < remap0.len() ==> #[trigger] remap0[t] < n,
    ensures
        ({
            let index = index0.update(h as int, key);
            let remap = remap0.update(s - n, h as u32);
            let holes = holes0.drop_last();
            &&& holes.no_duplicates()
            &&& forall|a: int| 0 <= a < holes.len() ==> (#[trigger] holes[a]) < n && slots[holes[a] as int] is None
            &&& forall|t: int| 0 <= t < n ==> (#[trigger] slots[t] matches Some(e) ==> index[t] == e.keys_idx)
            &&& forall|t: int| n <= t < s + 1 ==> #[trigger] tail_done(slots, n, index, remap, holes, t)
            &&& forall|g: int| 0 <= g < n && slots[g] is None ==> #[trigger] hole_known(slots, n, remap, holes, s + 1, g)
            &&& n > 0 ==> forall|t: int| 0 <= t < remap.len() ==> #[trigger] remap[t] < n
        }),
{
    let index = index0.update(h as int, key);
    let remap = remap0.update(s - n, h as u32);
    let holes = holes0.drop_last();
    assert(holes0[holes0.len() - 1] == h);
    assert(holes0.contains(h));
    assert(!holes.contains(h)) by {
        if holes.contains(h) {
            let a = choose|a: int| 0 <= a < holes.len() && holes[a] == h;
            assert(holes0[a] == h);
        }
    }
    assert forall|t: int| 0 <= t < n implies (#[trigger] slots[t] matches Some(e) ==> index[t] == e.keys_idx) by {
        if slots[t] is Some {
            assert(t != h);
        }
    }
    assert forall|t: int| n <= t < s + 1 implies #[trigger] tail_done(slots, n, index, remap, holes, t) by {
        if t < s {
            assert(tail_done(slots, n, index0, remap0, holes0, t));
            if slots[t] is Some {
                let g = remap0[t - n];
                assert(g != h);
                if holes.contains(g as usize) {
                    let a = choose|a: int| 0 <= a < holes.len() && holes[a] == g as usize;
                    assert(holes0[a] == g as usize);
                }
            }
        }
    }
    assert forall|g: int| 0 <= g < n && slots[g] is None implies #[trigger] hole_known(
        slots,
        n,
        remap,
        holes,
        s + 1,
        g,
    ) by {
        assert(hole_known(slots, n, remap0, holes0, s, g));
        if g == h {
            assert(slots[s] is Some && remap[s - n] == g);
        } else if holes0.contains(g as usize) {
            let a = choose|a: int| 0 <= a < holes0.len() && holes0[a] == g as usize;
            assert(a < holes0.len() - 1);
            assert(holes[a] == g as usize);
        } else {
            let t = choose|t: int| n <= t < s && (#[trigger] slots[t]) is Some && remap0[t - n] == g;
            assert(remap[t - n] == g);
        }
    }
}

} // verus!
