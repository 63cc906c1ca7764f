//! The order in which buckets are placed: largest first.

use vstd::prelude::*;
use crate::builder::medium::table::{lemma_distinct_bounded, lists_of};

verus! {

/// Lexicographic order on pairs.
pub open spec fn pair_le(a: (u32, u32), b: (u32, u32)) -> bool {
    a.0 < b.0 || (a.0 == b.0 && a.1 <= b.1)
}

/// Sort key of a bucket of `len` keys: the larger the bucket, the smaller the
/// key.
pub open spec fn size_key(len: nat) -> u32 {
    if len >= u32::MAX {
        0
    } else {
        (u32::MAX - len) as u32
    }
}

/// Bucket `x` is the second component of some entry of `order`.
pub open spec fn listed(order: Seq<(u32, u32)>, x: int) -> bool {
    exists|i: int| 0 <= i < order.len() && (#[trigger] order[i]).1 == x
}

/// `order` lists every bucket once, each with its sort key, in ascending
/// order of the pairs: largest bucket first, and among buckets of one size
/// the lower number first.
pub open spec fn is_order(order: Seq<(u32, u32)>, lists: Seq<Seq<usize>>) -> bool {
    &&& order.len() == lists.len()
    &&& forall|i: int|
        0 <= i < order.len() ==> (#[trigger] order[i]).1 < lists.len() && order[i].0 == size_key(
            lists[order[i].1 as int].len(),
        )
    &&& forall|i: int, j: int| 0 <= i < j < order.len() ==> order[i].1 != order[j].1
    &&& forall|x: int| 0 <= x < lists.len() ==> #[trigger] listed(order, x)
    &&& forall|i: int, j: int| 0 <= i < j < order.len() ==> pair_le(order[i], order[j])
}

/// The order in which the buckets are placed.
pub open spec fn spec_order(lists: Seq<Seq<usize>>) -> Seq<(u32, u32)> {
    choose|order: Seq<(u32, u32)>| is_order(order, lists)
}

/// Two orders of the same buckets agree up to position `upto`.
proof fn lemma_order_agree(a: Seq<(u32, u32)>, b: Seq<(u32, u32)>, lists: Seq<Seq<usize>>, upto: int)
    requires
        is_order(a, lists),
        is_order(b, lists),
        0 <= upto < a.len(),
    ensures
        forall|k: int| 0 <= k <= upto ==> a[k] == b[k],
    decreases upto,
{
    if upto > 0 {
        lemma_order_agree(a, b, lists, upto - 1);
    }
    let x = a[upto];
    let y = b[upto];
    if x != y {
        assert(listed(a, y.1 as int));
        let j = choose|j: int| 0 <= j < a.len() && (#[trigger] a[j]).1 == y.1 as int;
        assert(a[j] == y);
        if j < upto {
            assert(b[j] == a[j]);
            assert(b[j].1 != b[upto].1);
        }
        assert(pair_le(a[upto], a[j]));
        assert(listed(b, x.1 as int));
        let i = choose|i: int| 0 <= i < b.len() && (#[trigger] b[i]).1 == x.1 as int;
        assert(b[i] == x);
        if i < upto {
            assert(a[i] == b[i]);
            assert(a[i].1 != a[upto].1);
        }
        assert(pair_le(b[upto], b[i]));
    }
}

/// The buckets have one order.
pub proof fn lemma_order_unique(a: Seq<(u32, u32)>, b: Seq<(u32, u32)>, lists: Seq<Seq<usize>>)
    requires
        is_order(a, lists),
        is_order(b, lists),
    ensures
        a == b,
{
    if a.len() > 0 {
        lemma_order_agree(a, b, lists, a.len() - 1);
    }
    assert(a =~= b);
}

/// The buckets that hold as many keys as bucket `b`, as `by` lists them.
pub open spec fn class_of(by: Seq<Vec<u32>>, lists: Seq<Seq<usize>>, b: int) -> Seq<u32> {
    by[lists[b].len() as int]@
}

/// `by[s]` lists, in ascending order, the buckets below `upto` that hold `s`
/// keys.
pub open spec fn classes_wf(by: Seq<Vec<u32>>, lists: Seq<Seq<usize>>, upto: int) -> bool {
    &&& forall|s: int, t: int|
        0 <= s < by.len() && 0 <= t < by[s]@.len() ==> {
            let x = #[trigger] by[s]@[t];
            x < upto && lists[x as int].len() == s
        }
    &&& forall|s: int, t: int, u: int|
        0 <= s < by.len() && 0 <= t < u < by[s]@.len() ==> #[trigger] by[s]@[t] < #[trigger] by[s]@[u]
    &&& forall|b: int| 0 <= b < upto ==> lists[b].len() < by.len() && #[trigger] class_of(by, lists, b).contains(b as u32)
}

/// Sorts the buckets into classes by the number of their keys.
fn size_classes(buckets: &Vec<Vec<usize>>, bl: u32, most: usize) -> (by: Vec<Vec<u32>>)
    requires
        buckets.len() == bl,
        most < u32::MAX,
        forall|b: int| 0 <= b < bl ==> (#[trigger] buckets@[b])@.len() <= most,
    ensures
        by@.len() == most + 1,
        classes_wf(by@, lists_of(buckets@), bl as int),
{
    let ghost lists = lists_of(buckets@);
    let mut by: Vec<Vec<u32>> = Vec::new();
    let mut s: usize = 0;
    while s <= most
        invariant
            s <= most + 1,
            most < u32::MAX,
            by@.len() == s,
            forall|i: int| 0 <= i < s ==> (#[trigger] by@[i])@.len() == 0,
        decreases most + 1 - s,
    {
        by.push(Vec::new());
        s += 1;
    }
    let mut b: u32 = 0;
    while b < bl
        invariant
            b <= bl,
            buckets.len() == bl,
            lists == lists_of(buckets@),
            by@.len() == most + 1,
            forall|x: int| 0 <= x < bl ==> (#[trigger] buckets@[x])@.len() <= most,
            classes_wf(by@, lists, b as int),
        decreases bl - b,
    {
        let len = buckets[b as usize].len();
        let ghost before = by@;
        by[len].push(b);
        proof {
            assert(lists[b as int].len() == len);
            assert(by@[len as int]@ == before[len as int]@.push(b));
            assert forall|s: int, t: int| 0 <= s < by@.len() && 0 <= t < by@[s]@.len() implies {
                let x = #[trigger] by@[s]@[t];
                x < b + 1 && lists[x as int].len() == s
            } by {
                if s == len {
                    if t < before[s]@.len() {
                        assert(by@[s]@[t] == before[s]@[t]);
                    }
                } else {
                    assert(by@[s] == before[s]);
                }
            }
            assert forall|s: int, t: int, u: int| 0 <= s < by@.len() && 0 <= t < u < by@[s]@.len() implies #[trigger] by@[s]@[t]
                < #[trigger] by@[s]@[u] by {
                if s == len {
                    assert(by@[s]@[t] == before[s]@[t]);
                    if u < before[s]@.len() {
                        assert(by@[s]@[u] == before[s]@[u]);
                    } else {
                        assert(before[s]@[t] < b);
                    }
                } else {
                    assert(by@[s] == before[s]);
                }
            }
            assert forall|x: int| 0 <= x < b + 1 implies lists[x].len() < by@.len() && #[trigger] class_of(
                by@,
                lists,
                x,
            ).contains(x as u32) by {
                assert(buckets@[x]@.len() <= most);
                let s = lists[x].len() as int;
                if x == b {
                    assert(by@[s]@[before[s]@.len() as int] == b);
                } else {
                    assert(class_of(before, lists, x).contains(x as u32));
                    let t = choose|t: int| 0 <= t < before[s]@.len() && before[s]@[t] == x as u32;
                    if s == len {
                        assert(by@[s]@[t] == x as u32);
                    } else {
                        assert(by@[s] == before[s]);
                    }
                }
            }
        }
        b += 1;
    }
    by
}

/// The entries of `order` are the buckets with more than `s` keys and the
/// first `t` buckets with `s` keys, each once, with their sort keys, in
/// ascending order of the pairs.
pub open spec fn ordered_down_to(
    order: Seq<(u32, u32)>,
    by: Seq<Vec<u32>>,
    lists: Seq<Seq<usize>>,
    s: int,
    t: int,
) -> bool {
    &&& forall|i: int|
        0 <= i < order.len() ==> {
            let e = #[trigger] order[i];
            &&& e.1 < lists.len()
            &&& e.0 == size_key(lists[e.1 as int].len())
            &&& lists[e.1 as int].len() >= s
            &&& lists[e.1 as int].len() == s ==> (exists|u: int| 0 <= u < t && by[s]@[u] == e.1)
        }
    &&& forall|i: int, j: int|
        0 <= i < j < order.len() ==> (#[trigger] order[i]).1 != (#[trigger] order[j]).1 && pair_le(order[i], order[j])
    &&& forall|x: int| 0 <= x < lists.len() && lists[x].len() > s ==> #[trigger] listed(order, x)
    &&& forall|u: int| 0 <= u < t ==> listed(order, #[trigger] by[s]@[u] as int)
}

/// Entries that name each bucket at most once are at most as many as the
/// buckets; entries that name every bucket are at least as many.
proof fn lemma_order_len(order: Seq<(u32, u32)>, bl: u32)
    requires
        forall|i: int| 0 <= i < order.len() ==> (#[trigger] order[i]).1 < bl,
        forall|i: int, j: int| 0 <= i < j < order.len() ==> order[i].1 != order[j].1,
        forall|x: int| 0 <= x < bl ==> #[trigger] listed(order, x),
    ensures
        order.len() == bl,
{
    let named = order.map_values(|e: (u32, u32)| e.1);
    assert(named.no_duplicates()) by {
        assert forall|i: int, j: int| 0 <= i < named.len() && 0 <= j < named.len() && i != j implies named[i]
            != named[j] by {
            if i < j {
                assert(order[i].1 != order[j].1);
            } else {
                assert(order[j].1 != order[i].1);
            }
        }
    }
    assert forall|i: int| 0 <= i < named.len() implies #[trigger] named[i] < bl by {
        assert(order[i].1 < bl);
    }
    lemma_distinct_bounded(named, bl);
    let ints = named.map_values(|x: u32| x as int);
    let all = vstd::set_lib::set_int_range(0, bl as int);
    vstd::set_lib::lemma_int_range(0, bl as int);
    assert(all.subset_of(ints.to_set())) by {
        assert forall|x: int| all.contains(x) implies ints.to_set().contains(x) by {
            assert(listed(order, x));
            let i = choose|i: int| 0 <= i < order.len() && (#[trigger] order[i]).1 == x;
            assert(ints[i] == x);
        }
    }
    ints.lemma_cardinality_of_set();
    vstd::set_lib::lemma_len_subset(all, ints.to_set());
}

/// The buckets in the order in which they are placed: largest first, and among
/// buckets of one size the lower number first. Each entry is a bucket's sort
/// key with its number.
pub(crate) fn bucket_order(buckets: &Vec<Vec<usize>>, bl: u32) -> (order: Vec<(u32, u32)>)
    requires
        buckets.len() == bl,
        forall|b: int| 0 <= b < bl ==> (#[trigger] buckets@[b])@.len() < u32::MAX,
    ensures
        order@ == spec_order(lists_of(buckets@)),
        order@.len() == bl,
        forall|i: int| 0 <= i < bl ==> (#[trigger] order@[i]).1 < bl,
        forall|i: int| 0 <= i < bl ==> (#[trigger] order@[i]).0 == size_key(buckets@[order@[i].1 as int]@.len()),
        forall|i: int, j: int| 0 <= i < j < bl ==> order@[i].1 != order@[j].1,
        forall|x: int| 0 <= x < bl ==> #[trigger] listed(order@, x),
        forall|i: int, j: int| 0 <= i < j < bl ==> pair_le(order@[i], order@[j]),
{
    let ghost lists = lists_of(buckets@);
    let mut most: usize = 0;
    let mut b: u32 = 0;
    while b < bl
        invariant
            b <= bl,
            buckets.len() == bl,
            most < u32::MAX,
            forall|x: int| 0 <= x < bl ==> (#[trigger] buckets@[x])@.len() < u32::MAX,
            forall|x: int| 0 <= x < b ==> (#[trigger] buckets@[x])@.len() <= most,
        decreases bl - b,
    {
        if buckets[b as usize].len() > most {
            most = buckets[b as usize].len();
        }
        b += 1;
    }
    let by = size_classes(buckets, bl, most);
    let mut order: Vec<(u32, u32)> = Vec::new();
    let mut s: usize = most + 1;
    while s > 0
        invariant
            s <= most + 1,
            most < u32::MAX,
            buckets.len() == bl,
            lists == lists_of(buckets@),
            by@.len() == most + 1,
            classes_wf(by@, lists, bl as int),
            ordered_down_to(order@, by@, lists, s as int - 1, 0),
        decreases s,
    {
        s -= 1;
        let key: u32 = u32::MAX - (s as u32);
        let class = &by[s];
        let mut t: usize = 0;
        while t < class.len()
            invariant
                s <= most,
                most < u32::MAX,
                key == size_key(s as nat),
                buckets.len() == bl,
                lists == lists_of(buckets@),
                by@.len() == most + 1,
                class@ == by@[s as int]@,
                t <= class@.len(),
                classes_wf(by@, lists, bl as int),
                ordered_down_to(order@, by@, lists, s as int, t as int),
            decreases class@.len() - t,
        {
            let ghost before = order@;
            order.push((key, class[t]));
            proof {
                lemma_class_grows(before, by@, lists, bl, s as int, t as int);
            }
            t += 1;
        }
        proof {
            lemma_class_closes(order@, by@, lists, bl, s as int);
        }
    }
    proof {
        assert forall|x: int| 0 <= x < bl implies #[trigger] listed(order@, x) by {
            assert(lists[x].len() > -1);
        }
        assert forall|i: int| 0 <= i < order@.len() implies (#[trigger] order@[i]).1 < bl by {
        }
        lemma_order_len(order@, bl);
        assert(is_order(order@, lists));
        lemma_order_unique(order@, spec_order(lists), lists);
    }
    order
}

/// The class of buckets with `s` keys is listed in full: every bucket with
/// `s` keys is in it.
proof fn lemma_class_closes(order: Seq<(u32, u32)>, by: Seq<Vec<u32>>, lists: Seq<Seq<usize>>, bl: u32, s: int)
    requires
        0 <= s < by.len(),
        lists.len() == bl,
        classes_wf(by, lists, bl as int),
        ordered_down_to(order, by, lists, s, by[s]@.len() as int),
    ensures
        ordered_down_to(order, by, lists, s - 1, 0),
{
    assert forall|x: int| 0 <= x < lists.len() && lists[x].len() > s - 1 implies #[trigger] listed(order, x) by {
        if lists[x].len() == s {
            assert(class_of(by, lists, x).contains(x as u32));
            let u = choose|u: int| 0 <= u < by[s]@.len() && by[s]@[u] == x as u32;
            assert(listed(order, by[s]@[u] as int));
        }
    }
}

/// Listing the next bucket of the class with `s` keys.
proof fn lemma_class_grows(
    before: Seq<(u32, u32)>,
    by: Seq<Vec<u32>>,
    lists: Seq<Seq<usize>>,
    bl: u32,
    s: int,
    t: int,
)
    requires
        0 <= s < by.len(),
        s < u32::MAX,
        0 <= t < by[s]@.len(),
        lists.len() == bl,
        classes_wf(by, lists, bl as int),
        ordered_down_to(before, by, lists, s, t),
    ensures
        ordered_down_to(before.push((size_key(s as nat), by[s]@[t])), by, lists, s, t + 1),
{
    let x = by[s]@[t];
    let entry = (size_key(s as nat), x);
    let after = before.push(entry);
    assert(x < bl && lists[x as int].len() == s);
    assert forall|i: int| 0 <= i < after.len() implies {
        let e = #[trigger] after[i];
        &&& e.1 < lists.len()
        &&& e.0 == size_key(lists[e.1 as int].len())
        &&& lists[e.1 as int].len() >= s
        &&& lists[e.1 as int].len() == s ==> (exists|u: int| 0 <= u < t + 1 && by[s]@[u] == e.1)
    } by {
        if i < before.len() {
            let e = before[i];
            assert(after[i] == e);
            if lists[e.1 as int].len() == s {
                let u = choose|u: int| 0 <= u < t && by[s]@[u] == e.1;
                assert(0 <= u < t + 1 && by[s]@[u] == e.1);
            }
        } else {
            assert(by[s]@[t] == entry.1);
        }
    }
    assert forall|i: int, j: int| 0 <= i < j < after.len() implies (#[trigger] after[i]).1 != (#[trigger] after[j]).1
        && pair_le(after[i], after[j]) by {
        if j < before.len() {
            assert(after[i] == before[i]);
            assert(after[j] == before[j]);
        } else {
            let e = before[i];
            assert(after[i] == e);
            assert(after[j] == entry);
            let size = lists[e.1 as int].len();
            assert(e.0 == size_key(size));
            if size == s {
                let u = choose|u: int| 0 <= u < t && by[s]@[u] == e.1;
                assert(by[s]@[u] < by[s]@[t]);
            } else {
                assert(size > s);
            }
        }
    }
    assert forall|y: int| 0 <= y < lists.len() && lists[y].len() > s implies #[trigger] listed(after, y) by {
        assert(listed(before, y));
        let i = choose|i: int| 0 <= i < before.len() && (#[trigger] before[i]).1 == y;
        assert(after[i].1 == y);
    }
    assert forall|u: int| 0 <= u < t + 1 implies listed(after, #[trigger] by[s]@[u] as int) by {
        if u < t {
            assert(listed(before, by[s]@[u] as int));
            let i = choose|i: int| 0 <= i < before.len() && (#[trigger] before[i]).1 == by[s]@[u] as int;
            assert(after[i].1 == by[s]@[u] as int);
        } else {
            assert(after[before.len() as int].1 == x);
        }
    }
}

} // verus!
