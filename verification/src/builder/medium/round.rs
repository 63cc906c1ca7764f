//! Rounds: a bucket is placed, then every bucket that it evicted, until none
//! is left over.

use vstd::prelude::*;
use crate::builder::medium::Slot;
use crate::builder::medium::evict::{best_pilot, entries_in_range, evict_place, evicted, spec_best_pilot};
use crate::builder::medium::free::{fill_free, filled, find_free_pilot, first_free};
use crate::builder::medium::order::{bucket_order, listed, spec_order};
use crate::builder::medium::table::{bucket_ok, buckets_wf, lemma_distinct_bounded, lists_of, owns_none};
use crate::builder::medium::table::placement_inv;

verus! {

/// Place of the largest bucket among the first `upto` of `stack`; of several
/// largest ones, the first.
pub open spec fn largest_at(stack: Seq<u32>, lists: Seq<Seq<usize>>, upto: int) -> int
    decreases upto,
{
    if upto <= 1 {
        0
    } else {
        let before = largest_at(stack, lists, upto - 1);
        if lists[stack[upto - 1] as int].len() > lists[stack[before] as int].len() {
            upto - 1
        } else {
            before
        }
    }
}

/// The stack without the entry at `at`: the last entry takes its place.
pub open spec fn without(stack: Seq<u32>, at: int) -> Seq<u32> {
    stack.update(at, stack.last()).drop_last()
}

/// Takes the largest bucket off `stack`.
fn pop_largest(stack: &mut Vec<u32>, buckets: &Vec<Vec<usize>>) -> (r: (u32, Ghost<int>))
    requires
        old(stack)@.len() > 0,
        forall|i: int| 0 <= i < old(stack)@.len() ==> #[trigger] old(stack)@[i] < buckets@.len(),
    ensures
        r.1@ == largest_at(old(stack)@, lists_of(buckets@), old(stack)@.len() as int),
        0 <= r.1@ < old(stack)@.len(),
        r.0 == old(stack)@[r.1@],
        final(stack)@ == old(stack)@.update(r.1@, old(stack)@.last()).drop_last(),
        forall|i: int|
            0 <= i < old(stack)@.len() ==> buckets@[#[trigger] old(stack)@[i] as int]@.len()
                <= buckets@[r.0 as int]@.len(),
{
    let mut at: usize = 0;
    let mut i: usize = 1;
    while i < stack.len()
        invariant
            stack@ == old(stack)@,
            0 <= at < i <= stack@.len(),
            forall|k: int| 0 <= k < stack@.len() ==> #[trigger] stack@[k] < buckets@.len(),
            forall|k: int|
                0 <= k < i ==> buckets@[#[trigger] stack@[k] as int]@.len() <= buckets@[stack@[at as int] as int]@.len(),
            at == largest_at(stack@, lists_of(buckets@), i as int),
        decreases stack@.len() - i,
    {
        if buckets[stack[i] as usize].len() > buckets[stack[at] as usize].len() {
            at = i;
        }
        i += 1;
    }
    let b = stack.swap_remove(at);
    (b, Ghost(at as int))
}


/// The pilots, the table and the stack after bucket `b` was placed: under
/// the smallest pilot that takes only empty slots, else under the pilot that
/// evicts the least; `None` where the bucket finds no pilot. `rest` is the
/// stack without the bucket, and `seen` lists the buckets that were taken off
/// the stack so far, this one included.
#[verifier::opaque]
pub open spec fn spec_step(
    hs: Seq<u64>,
    seed: u64,
    sl: u32,
    lists: Seq<Seq<usize>>,
    pilots: Seq<u8>,
    slots: Seq<Option<Slot>>,
    rest: Seq<u32>,
    seen: Seq<u32>,
    b: u32,
) -> Option<(Seq<u8>, Seq<Option<Slot>>, Seq<u32>)> {
    let keys = lists[b as int];
    match first_free(hs, seed, sl, slots, keys) {
        Some(p) => Some((pilots.update(b as int, p), filled(hs, seed, sl, slots, keys, b, p, keys.len() as int), rest)),
        None => match spec_best_pilot(hs, seed, sl, lists, slots, seen, keys) {
            None => None,
            Some(p) => {
                let next = evicted(hs, seed, sl, lists, pilots.update(b as int, p), slots, rest, b, p, keys.len() as int);
                Some((pilots.update(b as int, p), next.0, next.1))
            },
        },
    }
}

/// The pilots and the table after the buckets of `stack` were placed, and
/// every bucket that got evicted on the way; `None` where some bucket finds
/// no pilot. `recent` lists the buckets that were taken off the stack so far,
/// and `fuel` bounds the number of buckets that may still be taken off.
///
/// The largest bucket of the stack is placed first.
#[verifier::opaque]
pub open spec fn round_from(
    hs: Seq<u64>,
    seed: u64,
    sl: u32,
    lists: Seq<Seq<usize>>,
    pilots: Seq<u8>,
    slots: Seq<Option<Slot>>,
    stack: Seq<u32>,
    recent: Seq<u32>,
    fuel: nat,
) -> Option<(Seq<u8>, Seq<Option<Slot>>)>
    decreases fuel,
{
    if stack.len() == 0 {
        Some((pilots, slots))
    } else if fuel == 0 {
        None
    } else {
        let at = largest_at(stack, lists, stack.len() as int);
        let b = stack[at];
        let seen = recent.push(b);
        match spec_step(hs, seed, sl, lists, pilots, slots, without(stack, at), seen, b) {
            None => None,
            Some(next) => round_from(hs, seed, sl, lists, next.0, next.1, next.2, seen, (fuel - 1) as nat),
        }
    }
}

/// The pilots and the table after bucket `root` was placed, and every bucket
/// that got evicted on the way; `None` where some bucket finds no pilot.
pub open spec fn spec_round(
    hs: Seq<u64>,
    seed: u64,
    bl: u32,
    sl: u32,
    lists: Seq<Seq<usize>>,
    pilots: Seq<u8>,
    slots: Seq<Option<Slot>>,
    root: u32,
) -> Option<(Seq<u8>, Seq<Option<Slot>>)> {
    round_from(hs, seed, sl, lists, pilots, slots, seq![root], Seq::<u32>::empty(), bl as nat)
}

/// Bucket `x` is on the stack from place `from` on.
pub open spec fn stacked(stack: Seq<u32>, from: int, x: int) -> bool {
    exists|i: int| from <= i < stack.len() && #[trigger] stack[i] == x
}

/// The unplaced buckets are those of `rest` and those on the stack from
/// place `from` on.
pub open spec fn unplaced_is(cur: Set<int>, rest: Set<int>, stack: Seq<u32>, from: int) -> bool {
    &&& forall|x: int| #[trigger] cur.contains(x) ==> rest.contains(x) || stacked(stack, from, x)
    &&& forall|x: int| #[trigger] rest.contains(x) ==> cur.contains(x)
    &&& forall|i: int| from <= i < stack.len() ==> cur.contains(#[trigger] stack[i] as int)
}

/// All is in order between the steps of a round: the unplaced buckets are
/// those of `rest` and those on the stack; the stack holds no bucket twice,
/// none of `rest` and none of `recent`; and `recent` holds no bucket twice.
#[verifier::opaque]
pub open spec fn round_inv(bl: u32, rest: Set<int>, cur: Set<int>, stack: Seq<u32>, recent: Seq<u32>) -> bool {
    &&& unplaced_is(cur, rest, stack, 0)
    &&& forall|i: int, k: int| 0 <= i < k < stack.len() ==> stack[i] != stack[k]
    &&& forall|i: int|
        0 <= i < stack.len() ==> {
            let x = #[trigger] stack[i];
            x < bl && !rest.contains(x as int) && !recent.contains(x)
        }
    &&& recent.no_duplicates()
    &&& forall|i: int| 0 <= i < recent.len() ==> #[trigger] recent[i] < bl
}

/// What a step leaves behind: the stack of before with the evicted buckets on
/// top, which are new to it, differ from each other and were not taken off
/// the stack in this round; unplaced are the buckets that were, but for `b`,
/// and the evicted ones.
#[verifier::opaque]
pub open spec fn step_done(
    bl: u32,
    before: Seq<u32>,
    after: Seq<u32>,
    unplaced: Set<int>,
    next: Set<int>,
    recent: Seq<u32>,
    b: u32,
) -> bool {
    &&& after.len() >= before.len()
    &&& after.subrange(0, before.len() as int) == before
    &&& unplaced_is(next, unplaced.remove(b as int), after, before.len() as int)
    &&& forall|i: int|
        before.len() <= i < after.len() ==> {
            let x = #[trigger] after[i];
            x < bl && !unplaced.contains(x as int) && !recent.contains(x)
        }
    &&& forall|i: int, j: int| before.len() <= i < j < after.len() ==> after[i] != after[j]
}

/// Places bucket `b`, which was taken off the stack. Returns `false` where
/// the bucket finds no pilot.
fn place_one(
    b: u32,
    hashes: &Vec<u64>,
    seed: u64,
    bl: u32,
    sl: u32,
    buckets: &Vec<Vec<usize>>,
    pilots: &mut Vec<u8>,
    slots: &mut Vec<Option<Slot>>,
    stack: &mut Vec<u32>,
    recent: &Vec<u32>,
    seen: &mut Vec<u32>,
    scored: &mut Vec<u32>,
    Ghost(unplaced): Ghost<Set<int>>,
) -> (r: (bool, Ghost<Set<int>>))
    requires
        sl > 0,
        b < bl,
        unplaced.contains(b as int),
        recent@.contains(b),
        placement_inv(hashes@, seed, bl, sl, buckets@, old(pilots)@, old(slots)@, unplaced),
    ensures
        spec_step(hashes@, seed, sl, lists_of(buckets@), old(pilots)@, old(slots)@, old(stack)@, recent@, b) == (if r.0 {
            Some((final(pilots)@, final(slots)@, final(stack)@))
        } else {
            None
        }),
        r.0 ==> placement_inv(hashes@, seed, bl, sl, buckets@, final(pilots)@, final(slots)@, r.1@),
        r.0 ==> step_done(bl, old(stack)@, final(stack)@, unplaced, r.1@, recent@, b),
{
    let ghost hs = hashes@;
    proof {
        reveal(step_done);
        reveal(spec_step);
        assert forall|s: int| 0 <= s < slots@.len() implies (#[trigger] slots@[s] matches Some(e) ==> e.bucket
            < buckets@.len()) by {
        }
        assert(entries_in_range(slots@, buckets@.len() as u32));
        assert forall|j: int| 0 <= j < buckets@[b as int]@.len() implies #[trigger] buckets@[b as int]@[j] < hs.len() by {
        }
        assert(lists_of(buckets@)[b as int] == buckets@[b as int]@);
    }
    match find_free_pilot(hashes, seed, sl, slots, &buckets[b as usize], seen) {
        Some(p) => {
            fill_free(b, p, hashes, seed, bl, sl, buckets, pilots, slots, Ghost(unplaced));
            proof {
                assert(stack@.subrange(0, stack@.len() as int) =~= stack@);
            }
            (true, Ghost(unplaced.remove(b as int)))
        },
        None => {
            match best_pilot(hashes, seed, sl, buckets, slots, recent, b, seen, scored) {
                None => (false, Ghost(unplaced)),
                Some(p) => {
                    let ghost before = stack@;
                    let next = evict_place(
                        b,
                        p,
                        hashes,
                        seed,
                        bl,
                        sl,
                        buckets,
                        pilots,
                        slots,
                        stack,
                        Ghost(unplaced),
                        Ghost(recent@),
                    );
                    proof {
                        let base = before.len() as int;
                        let left = unplaced.remove(b as int);
                        assert forall|x: int| #[trigger] next@.contains(x) implies left.contains(x) || stacked(
                            stack@,
                            base,
                            x,
                        ) by {
                            if !(unplaced.contains(x) && x != b) {
                                let i = choose|i: int| base <= i < stack@.len() && stack@[i] == x;
                                assert(stack@[i] == x);
                            }
                        }
                        assert forall|x: int| #[trigger] left.contains(x) implies next@.contains(x) by {
                        }
                        assert forall|i: int| base <= i < stack@.len() implies next@.contains(
                            #[trigger] stack@[i] as int,
                        ) by {
                            let x = stack@[i] as int;
                            assert(exists|k: int| base <= k < stack@.len() && stack@[k] == x);
                        }
                    }
                    (true, next)
                },
            }
        },
    }
}

/// A round with an empty stack is over.
proof fn lemma_round_over(
    hs: Seq<u64>,
    seed: u64,
    sl: u32,
    lists: Seq<Seq<usize>>,
    pilots: Seq<u8>,
    slots: Seq<Option<Slot>>,
    stack: Seq<u32>,
    recent: Seq<u32>,
    fuel: nat,
)
    requires
        stack.len() == 0,
    ensures
        round_from(hs, seed, sl, lists, pilots, slots, stack, recent, fuel) == Some((pilots, slots)),
{
    reveal(round_from);
}

/// A round goes on with the largest bucket of its stack.
proof fn lemma_round_goes_on(
    hs: Seq<u64>,
    seed: u64,
    sl: u32,
    lists: Seq<Seq<usize>>,
    pilots: Seq<u8>,
    slots: Seq<Option<Slot>>,
    stack: Seq<u32>,
    recent: Seq<u32>,
    fuel: nat,
)
    requires
        stack.len() > 0,
        fuel > 0,
    ensures
        ({
            let at = largest_at(stack, lists, stack.len() as int);
            let b = stack[at];
            let seen = recent.push(b);
            round_from(hs, seed, sl, lists, pilots, slots, stack, recent, fuel) == (match spec_step(
                hs,
                seed,
                sl,
                lists,
                pilots,
                slots,
                without(stack, at),
                seen,
                b,
            ) {
                None => None,
                Some(next) => round_from(hs, seed, sl, lists, next.0, next.1, next.2, seen, (fuel - 1) as nat),
            })
        }),
{
    reveal(round_from);
}

/// A round starts in order.
proof fn lemma_round_start(bl: u32, unplaced: Set<int>, root: u32)
    requires
        root < bl,
        unplaced.contains(root as int),
    ensures
        round_inv(bl, unplaced.remove(root as int), unplaced, seq![root], Seq::<u32>::empty()),
{
    reveal(round_inv);
    let rest = unplaced.remove(root as int);
    let stack = seq![root];
    assert forall|x: int| #[trigger] unplaced.contains(x) implies rest.contains(x) || stacked(stack, 0, x) by {
        if x == root {
            assert(stack[0] == x);
        }
    }
}

/// Taking a bucket off the stack: it is unplaced and new to `recent`, and
/// fewer buckets than there are were taken off before it.
proof fn lemma_round_pop(bl: u32, rest: Set<int>, cur: Set<int>, stack: Seq<u32>, recent: Seq<u32>, at: int)
    requires
        round_inv(bl, rest, cur, stack, recent),
        0 <= at < stack.len(),
    ensures
        stack[at] < bl,
        cur.contains(stack[at] as int),
        recent.push(stack[at]).contains(stack[at]),
        recent.len() < bl,
{
    reveal(round_inv);
    let b = stack[at];
    let seen = recent.push(b);
    assert(!recent.contains(b));
    assert(seen.no_duplicates()) by {
        assert forall|i: int, j: int| 0 <= i < seen.len() && 0 <= j < seen.len() && i != j implies seen[i]
            != seen[j] by {
            if i < recent.len() {
                assert(recent.contains(recent[i]));
            }
            if j < recent.len() {
                assert(recent.contains(recent[j]));
            }
        }
    }
    lemma_distinct_bounded(seen, bl);
    assert(seen[recent.len() as int] == b);
}

/// The buckets on the stack are buckets.
proof fn lemma_round_range(bl: u32, rest: Set<int>, cur: Set<int>, stack: Seq<u32>, recent: Seq<u32>)
    requires
        round_inv(bl, rest, cur, stack, recent),
    ensures
        forall|i: int| 0 <= i < stack.len() ==> #[trigger] stack[i] < bl,
{
    reveal(round_inv);
}

/// A round that has emptied its stack leaves unplaced what was unplaced
/// before it, but for its root.
proof fn lemma_round_end(bl: u32, rest: Set<int>, cur: Set<int>, stack: Seq<u32>, recent: Seq<u32>)
    requires
        round_inv(bl, rest, cur, stack, recent),
        stack.len() == 0,
    ensures
        cur == rest,
{
    reveal(round_inv);
    assert forall|x: int| cur.contains(x) <==> rest.contains(x) by {
        if cur.contains(x) && !rest.contains(x) {
            assert(stacked(stack, 0, x));
        }
    }
    assert(cur =~= rest);
}

/// All stays in order over one step of a round.
proof fn lemma_round_bookkeeping(
    bl: u32,
    rest: Set<int>,
    cur0: Set<int>,
    cur: Set<int>,
    stack0: Seq<u32>,
    at: int,
    stack2: Seq<u32>,
    recent0: Seq<u32>,
    b: u32,
)
    requires
        0 <= at < stack0.len(),
        b == stack0[at],
        round_inv(bl, rest, cur0, stack0, recent0),
        step_done(bl, without(stack0, at), stack2, cur0, cur, recent0.push(b), b),
    ensures
        round_inv(bl, rest, cur, stack2, recent0.push(b)),
{
    reveal(round_inv);
    reveal(step_done);
    let stack1 = without(stack0, at);
    let recent = recent0.push(b);
    let base = stack1.len() as int;
    let left = cur0.remove(b as int);
    assert forall|i: int| 0 <= i < base implies stack2[i] == stack1[i] by {
        assert(stack2.subrange(0, base)[i] == stack2[i]);
    }
    // where an entry of the shorter stack was before
    let origin = |i: int|
        if i == at {
            stack0.len() - 1
        } else {
            i
        };
    assert forall|i: int| 0 <= i < base implies #[trigger] stack1[i] == stack0[origin(i)] && origin(i) != at && 0
        <= origin(i) < stack0.len() by {
    }
    assert(!recent0.contains(b));
    assert(recent.no_duplicates()) by {
        assert forall|i: int, j: int| 0 <= i < recent.len() && 0 <= j < recent.len() && i != j implies recent[i]
            != recent[j] by {
            if i < recent0.len() {
                assert(recent0.contains(recent0[i]));
            }
            if j < recent0.len() {
                assert(recent0.contains(recent0[j]));
            }
        }
    }
    assert forall|i: int| 0 <= i < base implies #[trigger] stack1[i] != b && !recent.contains(stack1[i])
        && cur0.contains(stack1[i] as int) && !rest.contains(stack1[i] as int) && stack1[i] < bl by {
        let a = origin(i);
        assert(stack1[i] == stack0[a]);
        if a < at {
            assert(stack0[a] != stack0[at]);
        } else {
            assert(stack0[at] != stack0[a]);
        }
        assert(!recent0.contains(stack0[a]));
        if recent.contains(stack1[i]) {
            let w = choose|w: int| 0 <= w < recent.len() && recent[w] == stack1[i];
            if w < recent0.len() {
                assert(recent0[w] == stack1[i]);
            }
        }
    }
    assert forall|i: int, k: int| 0 <= i < k < base implies stack1[i] != stack1[k] by {
        let a = origin(i);
        let c = origin(k);
        assert(stack1[i] == stack0[a]);
        assert(stack1[k] == stack0[c]);
        if a < c {
            assert(stack0[a] != stack0[c]);
        } else {
            assert(stack0[c] != stack0[a]);
        }
    }
    assert forall|x: int| #[trigger] cur.contains(x) implies rest.contains(x) || stacked(stack2, 0, x) by {
        if left.contains(x) {
            assert(cur0.contains(x));
            if !rest.contains(x) {
                assert(stacked(stack0, 0, x));
                let a = choose|a: int| 0 <= a < stack0.len() && #[trigger] stack0[a] == x;
                let i = if a == stack0.len() - 1 {
                    at
                } else {
                    a
                };
                assert(a != at);
                assert(stack1[i] == stack0[origin(i)]);
                assert(stack2[i] == x);
            }
        } else {
            assert(stacked(stack2, base, x));
            let i = choose|i: int| base <= i < stack2.len() && #[trigger] stack2[i] == x;
            assert(stack2[i] == x);
        }
    }
    assert forall|x: int| #[trigger] rest.contains(x) implies cur.contains(x) by {
        assert(cur0.contains(x));
        assert(!rest.contains(stack0[at] as int));
        assert(left.contains(x));
    }
    assert forall|i: int| 0 <= i < stack2.len() implies cur.contains(#[trigger] stack2[i] as int) by {
        if i < base {
            assert(stack2[i] == stack1[i]);
            assert(stack1[i] != b && cur0.contains(stack1[i] as int));
            assert(left.contains(stack1[i] as int));
        }
    }
    assert forall|i: int, k: int| 0 <= i < k < stack2.len() implies stack2[i] != stack2[k] by {
        if k < base {
            assert(stack1[i] != stack1[k]);
        } else if i < base {
            assert(stack2[i] == stack1[i]);
            assert(cur0.contains(stack1[i] as int));
            let y = stack2[k];
            assert(!cur0.contains(y as int));
        }
    }
    assert forall|i: int| 0 <= i < stack2.len() implies {
        let x = #[trigger] stack2[i];
        x < bl && !rest.contains(x as int) && !recent.contains(x)
    } by {
        if i < base {
            assert(stack2[i] == stack1[i]);
            assert(stack1[i] != b && !recent.contains(stack1[i]));
        } else {
            let x = stack2[i];
            assert(!cur0.contains(x as int));
            if rest.contains(x as int) {
                assert(cur0.contains(x as int));
            }
        }
    }
    assert forall|i: int| 0 <= i < recent.len() implies #[trigger] recent[i] < bl by {
        if i < recent0.len() {
            assert(recent0[i] < bl);
        }
    }
}

/// Places bucket `root` and every bucket that gets evicted on the way.
/// Returns `false` where some bucket finds no pilot: the seed is given up.
///
/// A bucket that was taken off the stack once is never evicted again in the
/// same round, so no bucket is taken off twice and the round ends.
fn place_round(
    root: u32,
    hashes: &Vec<u64>,
    seed: u64,
    bl: u32,
    sl: u32,
    buckets: &Vec<Vec<usize>>,
    pilots: &mut Vec<u8>,
    slots: &mut Vec<Option<Slot>>,
    seen: &mut Vec<u32>,
    scored: &mut Vec<u32>,
    Ghost(unplaced): Ghost<Set<int>>,
) -> (ok: bool)
    requires
        sl > 0,
        root < bl,
        unplaced.contains(root as int),
        placement_inv(hashes@, seed, bl, sl, buckets@, old(pilots)@, old(slots)@, unplaced),
    ensures
        ok ==> placement_inv(
            hashes@,
            seed,
            bl,
            sl,
            buckets@,
            final(pilots)@,
            final(slots)@,
            unplaced.remove(root as int),
        ),
        spec_round(hashes@, seed, bl, sl, lists_of(buckets@), old(pilots)@, old(slots)@, root) == (if ok {
            Some((final(pilots)@, final(slots)@))
        } else {
            None
        }),
{
    let ghost hs = hashes@;
    let ghost lists = lists_of(buckets@);
    let ghost goal = spec_round(hs, seed, bl, sl, lists, pilots@, slots@, root);
    let ghost rest = unplaced.remove(root as int);
    let mut stack: Vec<u32> = Vec::new();
    let mut recent: Vec<u32> = Vec::new();
    stack.push(root);
    let ghost cur = unplaced;
    proof {
        lemma_round_start(bl, unplaced, root);
        assert(stack@ =~= seq![root]);
        assert(recent@ =~= Seq::<u32>::empty());
    }
    while stack.len() > 0
        invariant
            sl > 0,
            hs == hashes@,
            lists == lists_of(buckets@),
            buckets@.len() == bl,
            goal == spec_round(hs, seed, bl, sl, lists, old(pilots)@, old(slots)@, root),
            goal == round_from(hs, seed, sl, lists, pilots@, slots@, stack@, recent@, (bl - recent@.len()) as nat),
            placement_inv(hs, seed, bl, sl, buckets@, pilots@, slots@, cur),
            round_inv(bl, rest, cur, stack@, recent@),
            recent@.len() <= bl,
        decreases bl - recent@.len(),
    {
        let ghost stack0 = stack@;
        let ghost recent0 = recent@;
        let ghost cur0 = cur;
        let ghost pilots0 = pilots@;
        let ghost slots0 = slots@;
        proof {
            lemma_round_range(bl, rest, cur, stack@, recent@);
        }
        let (b, Ghost(at)) = pop_largest(&mut stack, buckets);
        recent.push(b);
        proof {
            lemma_round_pop(bl, rest, cur, stack0, recent0, at);
            assert(stack@ == without(stack0, at));
            lemma_round_goes_on(
                hs,
                seed,
                sl,
                lists,
                pilots0,
                slots0,
                stack0,
                recent0,
                (bl - recent0.len()) as nat,
            );
        }
        let (ok, Ghost(next)) = place_one(
            b,
            hashes,
            seed,
            bl,
            sl,
            buckets,
            pilots,
            slots,
            &mut stack,
            &recent,
            seen,
            scored,
            Ghost(cur),
        );
        if !ok {
            return false;
        }
        proof {
            cur = next;
            lemma_round_bookkeeping(bl, rest, cur0, cur, stack0, at, stack@, recent0, b);
        }
    }
    proof {
        lemma_round_end(bl, rest, cur, stack@, recent@);
        lemma_round_over(hs, seed, sl, lists, pilots@, slots@, stack@, recent@, (bl - recent@.len()) as nat);
    }
    true
}

/// The pilots and the table after the buckets from place `j` of `order` on
/// were placed, each in a round of its own; `None` where some bucket finds no
/// pilot. A bucket without keys needs no round.
#[verifier::opaque]
pub open spec fn placed_from(
    hs: Seq<u64>,
    seed: u64,
    bl: u32,
    sl: u32,
    lists: Seq<Seq<usize>>,
    order: Seq<(u32, u32)>,
    pilots: Seq<u8>,
    slots: Seq<Option<Slot>>,
    j: int,
) -> Option<(Seq<u8>, Seq<Option<Slot>>)>
    decreases order.len() - j,
{
    if j >= order.len() {
        Some((pilots, slots))
    } else if lists[order[j].1 as int].len() == 0 {
        placed_from(hs, seed, bl, sl, lists, order, pilots, slots, j + 1)
    } else {
        match spec_round(hs, seed, bl, sl, lists, pilots, slots, order[j].1) {
            None => None,
            Some(next) => placed_from(hs, seed, bl, sl, lists, order, next.0, next.1, j + 1),
        }
    }
}

/// The pilots and the table after all buckets were placed, largest first,
/// starting with pilots of zero and an empty table; `None` where some bucket
/// finds no pilot.
pub open spec fn spec_place_buckets(hs: Seq<u64>, seed: u64, bl: u32, sl: u32, lists: Seq<Seq<usize>>) -> Option<
    (Seq<u8>, Seq<Option<Slot>>),
> {
    placed_from(
        hs,
        seed,
        bl,
        sl,
        lists,
        spec_order(lists),
        Seq::new(bl as nat, |i: int| 0u8),
        Seq::new(sl as nat, |i: int| None::<Slot>),
        0,
    )
}

/// How the placing of the buckets goes on at place `j`.
proof fn lemma_placed_unfold(
    hs: Seq<u64>,
    seed: u64,
    bl: u32,
    sl: u32,
    lists: Seq<Seq<usize>>,
    order: Seq<(u32, u32)>,
    pilots: Seq<u8>,
    slots: Seq<Option<Slot>>,
    j: int,
)
    ensures
        placed_from(hs, seed, bl, sl, lists, order, pilots, slots, j) == (if j >= order.len() {
            Some((pilots, slots))
        } else if lists[order[j].1 as int].len() == 0 {
            placed_from(hs, seed, bl, sl, lists, order, pilots, slots, j + 1)
        } else {
            match spec_round(hs, seed, bl, sl, lists, pilots, slots, order[j].1) {
                None => None,
                Some(next) => placed_from(hs, seed, bl, sl, lists, order, next.0, next.1, j + 1),
            }
        }),
{
    reveal(placed_from);
}

/// Places all buckets, largest first. Returns the pilots and the slot table,
/// or `None` where some bucket finds no pilot under this seed.
pub(crate) fn place_buckets(hashes: &Vec<u64>, seed: u64, bl: u32, sl: u32, buckets: &Vec<Vec<usize>>) -> (r: Option<
    (Vec<u8>, Vec<Option<Slot>>),
>)
    requires
        bl > 0,
        hashes@.len() <= sl,
        buckets_wf(hashes@, bl, buckets@),
        forall|b: int| 0 <= b < bl ==> (#[trigger] buckets@[b])@.len() < u32::MAX,
    ensures
        r matches Some(t) ==> placement_inv(hashes@, seed, bl, sl, buckets@, t.0@, t.1@, Set::empty()),
        r matches Some(t) ==> spec_place_buckets(hashes@, seed, bl, sl, lists_of(buckets@)) == Some((t.0@, t.1@)),
        r is None ==> spec_place_buckets(hashes@, seed, bl, sl, lists_of(buckets@)) is None,
{
    let ghost hs = hashes@;
    let ghost lists = lists_of(buckets@);
    let ghost goal = spec_place_buckets(hs, seed, bl, sl, lists);
    let mut pilots: Vec<u8> = Vec::new();
    let mut b: u32 = 0;
    while b < bl
        invariant
            b <= bl,
            pilots@.len() == b,
            forall|i: int| 0 <= i < b ==> #[trigger] pilots@[i] == 0,
        decreases bl - b,
    {
        pilots.push(0u8);
        b += 1;
    }
    let mut slots: Vec<Option<Slot>> = Vec::new();
    let mut s: u32 = 0;
    while s < sl
        invariant
            s <= sl,
            slots@.len() == s,
            forall|t: int| 0 <= t < s ==> #[trigger] slots@[t] is None,
        decreases sl - s,
    {
        slots.push(None);
        s += 1;
    }
    let order = bucket_order(buckets, bl);
    let mut seen: Vec<u32> = Vec::new();
    let mut scored: Vec<u32> = Vec::new();
    let ghost unplaced: Set<int> = Set::new(|x: int| 0 <= x < bl);
    proof {
        assert(pilots@ =~= Seq::new(bl as nat, |i: int| 0u8));
        assert(slots@ =~= Seq::new(sl as nat, |i: int| None::<Slot>));
    }
    proof {
        assert forall|x: int| 0 <= x < bl implies #[trigger] bucket_ok(
            hs,
            seed,
            sl,
            buckets@,
            pilots@,
            slots@,
            unplaced,
            x,
        ) by {
            assert(owns_none(slots@, x));
        }
    }
    let mut j: usize = 0;
    while j < order.len()
        invariant
            bl > 0,
            hs == hashes@,
            hs.len() <= sl,
            j <= order@.len(),
            order@.len() == bl,
            forall|i: int| 0 <= i < bl ==> (#[trigger] order@[i]).1 < bl,
            forall|i: int, k: int| 0 <= i < k < bl ==> order@[i].1 != order@[k].1,
            placement_inv(hs, seed, bl, sl, buckets@, pilots@, slots@, unplaced),
            lists == lists_of(buckets@),
            goal == spec_place_buckets(hs, seed, bl, sl, lists),
            goal == placed_from(hs, seed, bl, sl, lists, order@, pilots@, slots@, j as int),
            forall|i: int| j <= i < bl ==> unplaced.contains((#[trigger] order@[i]).1 as int),
            forall|i: int|
                0 <= i < j ==> !unplaced.contains((#[trigger] order@[i]).1 as int) || buckets@[order@[i].1 as int]@.len()
                    == 0,
        decreases order@.len() - j,
    {
        let root = order[j].1;
        proof {
            lemma_placed_unfold(hs, seed, bl, sl, lists, order@, pilots@, slots@, j as int);
            assert(lists[root as int] == buckets@[root as int]@);
        }
        if buckets[root as usize].len() > 0 {
            proof {
                // a bucket with a key means that there are slots
                let k = buckets@[root as int]@[0];
                assert(k < hs.len());
            }
            let ok = place_round(
                root,
                hashes,
                seed,
                bl,
                sl,
                buckets,
                &mut pilots,
                &mut slots,
                &mut seen,
                &mut scored,
                Ghost(unplaced),
            );
            if !ok {
                return None;
            }
            proof {
                unplaced = unplaced.remove(root as int);
            }
        }
        j += 1;
    }
    proof {
        lemma_placed_unfold(hs, seed, bl, sl, lists, order@, pilots@, slots@, j as int);
        assert forall|x: int| 0 <= x < bl implies #[trigger] bucket_ok(
            hs,
            seed,
            sl,
            buckets@,
            pilots@,
            slots@,
            Set::<int>::empty(),
            x,
        ) by {
            assert(bucket_ok(hs, seed, sl, buckets@, pilots@, slots@, unplaced, x));
            assert(listed(order@, x));
            let i = choose|i: int| 0 <= i < order@.len() && (#[trigger] order@[i]).1 == x;
            if unplaced.contains(x) {
                assert(buckets@[x]@.len() == 0);
            }
        }
    }
    Some((pilots, slots))
}

} // verus!
