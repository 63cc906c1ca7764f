//! Ordered construction: the keys are sorted and found by binary search.

use std::cmp::Ordering;
use vstd::prelude::*;

verus! {

/// Every entry of `index` is a position of its own below the length.
pub open spec fn is_permutation(index: Seq<usize>) -> bool {
    &&& forall|i: int| 0 <= i < index.len() ==> (#[trigger] index[i]) < index.len()
    &&& forall|i: int, j: int| 0 <= i < j < index.len() ==> index[i] != index[j]
}

/// The entry at position `i`.
pub open spec fn at<T>(s: Seq<T>, i: usize) -> T {
    s[i as int]
}

/// The number `j` as an integer.
pub open spec fn below(j: usize) -> int {
    j as int
}

/// The key that `index` puts at position `i`.
pub open spec fn key_at<K>(keys: Seq<K>, index: Seq<usize>, i: int) -> K {
    keys[index[i] as int]
}

/// The predicate may answer that `a` comes before `b`.
pub open spec fn precedes<K, O>(ord: O, a: K, b: K) -> bool where O: Fn(&K, &K) -> Ordering {
    call_ensures(ord, (&a, &b), Ordering::Less)
}

/// On `keys` the predicate answers every question, always the same way, and
/// the answers form an order: one of two keys does not come before the other,
/// and "does not come after" carries over from pair to pair.
pub open spec fn orders<K, O>(ord: O, keys: Seq<K>) -> bool where O: Fn(&K, &K) -> Ordering {
    &&& forall|i: int, j: int|
        0 <= i < keys.len() && 0 <= j < keys.len() ==> call_requires(ord, (&#[trigger] keys[i], &#[trigger] keys[j]))
    &&& forall|i: int, j: int, r: Ordering|
        0 <= i < keys.len() && 0 <= j < keys.len() && r != Ordering::Less && precedes(ord, keys[i], keys[j])
            ==> !#[trigger] call_ensures(ord, (&keys[i], &keys[j]), r)
    &&& forall|i: int, j: int|
        0 <= i < keys.len() && 0 <= j < keys.len() && #[trigger] precedes(ord, keys[i], keys[j]) ==> !precedes(
            ord,
            keys[j],
            keys[i],
        )
    &&& forall|i: int, j: int, k: int|
        0 <= i < keys.len() && 0 <= j < keys.len() && 0 <= k < keys.len() && !(#[trigger] precedes(
            ord,
            keys[j],
            keys[i],
        )) && !(#[trigger] precedes(ord, keys[k], keys[j])) ==> !precedes(ord, keys[k], keys[i])
}

/// No key comes before a key that `index` puts earlier.
pub open spec fn sorted_by<K, O>(ord: O, keys: Seq<K>, index: Seq<usize>) -> bool where
    O: Fn(&K, &K) -> Ordering,
 {
    forall|i: int, j: int|
        0 <= i < j < index.len() ==> !precedes(ord, #[trigger] key_at(keys, index, j), #[trigger] key_at(keys, index, i))
}

/// The positions `0..n` in order.
fn identity(n: usize) -> (index: Vec<usize>)
    ensures
        index@.len() == n,
        forall|i: int| 0 <= i < n ==> #[trigger] index@[i] == i,
{
    let mut index: Vec<usize> = Vec::new();
    let mut i: usize = 0;
    while i < n
        invariant
            i <= n,
            index@.len() == i,
            forall|k: int| 0 <= k < i ==> #[trigger] index@[k] == k,
        decreases n - i,
    {
        index.push(i);
        i += 1;
    }
    index
}

/// The sequence with the entries at `j - 1` and `j` exchanged.
pub open spec fn swapped(index: Seq<usize>, j: int) -> Seq<usize> {
    index.update(j - 1, index[j]).update(j, index[j - 1])
}

/// Exchanges the entries at `j - 1` and `j`.
fn swap_down(index: &mut Vec<usize>, j: usize)
    requires
        0 < j < old(index)@.len(),
    ensures
        final(index)@ == swapped(old(index)@, j as int),
{
    let a = index[j - 1];
    let b = index[j];
    index.set(j - 1, b);
    index.set(j, a);
}

/// Tells whether the predicate puts `keys[a]` before `keys[b]`.
fn is_less<K, O>(ord: &O, keys: &[K], a: usize, b: usize) -> (r: bool) where O: Fn(&K, &K) -> Ordering
    requires
        a < keys@.len(),
        b < keys@.len(),
        orders(*ord, keys@),
    ensures
        r == precedes(*ord, at(keys@, a), at(keys@, b)),
{
    match ord(&keys[a], &keys[b]) {
        Ordering::Less => true,
        Ordering::Equal => false,
        Ordering::Greater => false,
    }
}

/// Exchanging two neighbours keeps a permutation.
proof fn lemma_swapped_permutation(index: Seq<usize>, j: int)
    requires
        is_permutation(index),
        0 < j < index.len(),
    ensures
        is_permutation(swapped(index, j)),
{
    let next = swapped(index, j);
    assert forall|a: int, b: int| 0 <= a < b < next.len() implies next[a] != next[b] by {
        let pa = if a == j {
            j - 1
        } else if a == j - 1 {
            j
        } else {
            a
        };
        let pb = if b == j {
            j - 1
        } else if b == j - 1 {
            j
        } else {
            b
        };
        assert(next[a] == index[pa]);
        assert(next[b] == index[pb]);
        if pa < pb {
            assert(index[pa] != index[pb]);
        } else {
            assert(index[pb] != index[pa]);
        }
    }
}

/// Keys that the predicate does not put in order keep the order in which
/// they were given: where the earlier of two entries does not come before the
/// later one, it was given first.
pub open spec fn stable_by<K, O>(ord: O, keys: Seq<K>, index: Seq<usize>) -> bool where O: Fn(&K, &K) -> Ordering {
    forall|i: int, j: int|
        0 <= i < j < index.len() && !precedes(ord, #[trigger] key_at(keys, index, i), #[trigger] key_at(keys, index, j))
            ==> index[i] < index[j]
}

/// The positions of `keys` in the order of the predicate. Keys that the
/// predicate does not tell apart keep the order in which they were given.
pub fn sort_positions<K, O>(ord: &O, keys: &[K]) -> (index: Vec<usize>) where O: Fn(&K, &K) -> Ordering
    requires
        orders(*ord, keys@),
    ensures
        index@.len() == keys@.len(),
        is_permutation(index@),
        sorted_by(*ord, keys@, index@),
        stable_by(*ord, keys@, index@),
{
    let n = keys.len();
    let mut index = identity(n);
    let mut i: usize = 1;
    while i < n
        invariant
            n == keys@.len(),
            index@.len() == n,
            1 <= i,
            orders(*ord, keys@),
            is_permutation(index@),
            forall|a: int| 0 <= a < i && a < n ==> #[trigger] index@[a] < i,
            forall|k: int| i <= k < n ==> #[trigger] index@[k] == k,
            forall|a: int, b: int|
                0 <= a < b < i && b < n ==> !precedes(
                    *ord,
                    #[trigger] key_at(keys@, index@, b),
                    #[trigger] key_at(keys@, index@, a),
                ),
            forall|a: int, b: int|
                0 <= a < b < i && b < n && !precedes(
                    *ord,
                    #[trigger] key_at(keys@, index@, a),
                    #[trigger] key_at(keys@, index@, b),
                ) ==> index@[a] < index@[b],
        decreases n - i,
    {
        let mut j: usize = i;
        let mut moving = true;
        while j > 0 && moving
            invariant
                n == keys@.len(),
                index@.len() == n,
                0 <= j <= i < n,
                orders(*ord, keys@),
                is_permutation(index@),
                index@[below(j)] == i,
                forall|a: int| 0 <= a <= i && a != j ==> #[trigger] index@[a] < i,
                forall|k: int| i < k < n ==> #[trigger] index@[k] == k,
                forall|a: int, b: int|
                    0 <= a < b <= i && a != j && b != j ==> !precedes(
                        *ord,
                        #[trigger] key_at(keys@, index@, b),
                        #[trigger] key_at(keys@, index@, a),
                    ),
                forall|a: int, b: int|
                    0 <= a < b <= i && a != j && b != j && !precedes(
                        *ord,
                        #[trigger] key_at(keys@, index@, a),
                        #[trigger] key_at(keys@, index@, b),
                    ) ==> index@[a] < index@[b],
                forall|b: int|
                    j < b <= i ==> precedes(*ord, key_at(keys@, index@, below(j)), #[trigger] key_at(keys@, index@, b)),
                !moving ==> forall|a: int|
                    0 <= a < j ==> !precedes(*ord, key_at(keys@, index@, below(j)), #[trigger] key_at(keys@, index@, a)),
            decreases
                    (if moving {
                        j + 1
                    } else {
                        0
                    }),
        {
            if is_less(ord, keys, index[j], index[j - 1]) {
                let ghost before = index@;
                swap_down(&mut index, j);
                proof {
                    lemma_swapped_permutation(before, below(j));
                    let jj = below(j);
                    assert(key_at(keys@, index@, jj) == key_at(keys@, before, jj - 1));
                    assert(key_at(keys@, index@, jj - 1) == key_at(keys@, before, jj));
                    assert forall|a: int| 0 <= a <= i && a != jj && a != jj - 1 implies #[trigger] key_at(
                        keys@,
                        index@,
                        a,
                    ) == key_at(keys@, before, a) && index@[a] == before[a] by {
                    }
                    assert forall|a: int, b: int| 0 <= a < b <= i && a != jj - 1 && b != jj - 1 implies !precedes(
                        *ord,
                        #[trigger] key_at(keys@, index@, b),
                        #[trigger] key_at(keys@, index@, a),
                    ) by {
                        let pa = if a == jj {
                            jj - 1
                        } else {
                            a
                        };
                        let pb = if b == jj {
                            jj - 1
                        } else {
                            b
                        };
                        assert(key_at(keys@, index@, a) == key_at(keys@, before, pa));
                        assert(key_at(keys@, index@, b) == key_at(keys@, before, pb));
                        assert(pa < pb);
                    }
                    assert forall|a: int, b: int|
                        0 <= a < b <= i && a != jj - 1 && b != jj - 1 && !precedes(
                            *ord,
                            #[trigger] key_at(keys@, index@, a),
                            #[trigger] key_at(keys@, index@, b),
                        ) implies index@[a] < index@[b] by {
                        let pa = if a == jj {
                            jj - 1
                        } else {
                            a
                        };
                        let pb = if b == jj {
                            jj - 1
                        } else {
                            b
                        };
                        assert(key_at(keys@, index@, a) == key_at(keys@, before, pa));
                        assert(key_at(keys@, index@, b) == key_at(keys@, before, pb));
                        assert(index@[a] == before[pa]);
                        assert(index@[b] == before[pb]);
                        assert(pa < pb);
                    }
                    assert forall|b: int| jj - 1 < b <= i implies precedes(
                        *ord,
                        key_at(keys@, index@, jj - 1),
                        #[trigger] key_at(keys@, index@, b),
                    ) by {
                        if b == jj {
                            // the key that moved down comes before its old neighbour
                            assert(precedes(*ord, key_at(keys@, before, jj), key_at(keys@, before, jj - 1)));
                        } else {
                            assert(key_at(keys@, index@, b) == key_at(keys@, before, b));
                        }
                    }
                    assert forall|a: int| 0 <= a <= i && a != jj - 1 implies #[trigger] index@[a] < i by {
                        if a == jj {
                            assert(index@[a] == before[jj - 1]);
                        } else {
                            assert(index@[a] == before[a]);
                        }
                    }
                }
                j -= 1;
            } else {
                proof {
                    let jj = below(j);
                    assert forall|a: int| 0 <= a < jj implies !precedes(
                        *ord,
                        key_at(keys@, index@, jj),
                        #[trigger] key_at(keys@, index@, a),
                    ) by {
                        if a < jj - 1 {
                            assert(!precedes(*ord, key_at(keys@, index@, jj - 1), key_at(keys@, index@, a)));
                        }
                    }
                }
                moving = false;
            }
        }
        proof {
            let jj = below(j);
            assert forall|a: int, b: int| 0 <= a < b < i + 1 && b < n implies !precedes(
                *ord,
                #[trigger] key_at(keys@, index@, b),
                #[trigger] key_at(keys@, index@, a),
            ) by {
                if a == jj {
                    assert(precedes(*ord, key_at(keys@, index@, jj), key_at(keys@, index@, b)));
                }
            }
            assert forall|a: int, b: int|
                0 <= a < b < i + 1 && b < n && !precedes(
                    *ord,
                    #[trigger] key_at(keys@, index@, a),
                    #[trigger] key_at(keys@, index@, b),
                ) implies index@[a] < index@[b] by {
                if a == jj {
                    assert(precedes(*ord, key_at(keys@, index@, jj), key_at(keys@, index@, b)));
                } else if b == jj {
                    assert(index@[a] < i);
                }
            }
            assert forall|a: int| 0 <= a < i + 1 && a < n implies #[trigger] index@[a] < i + 1 by {
                if a != jj {
                    assert(index@[a] < i);
                }
            }
        }
        i += 1;
    }
    index
}

/// Position `k` is an entry of `index`.
pub open spec fn occurs(index: Seq<usize>, k: int) -> bool {
    exists|i: int| 0 <= i < index.len() && #[trigger] index[i] == k
}

/// A permutation has every position among its entries.
pub proof fn lemma_permutation_onto(index: Seq<usize>)
    requires
        is_permutation(index),
    ensures
        forall|k: int| 0 <= k < index.len() ==> #[trigger] occurs(index, k),
{
    let n = index.len() as int;
    let entries = index.map_values(|x: usize| x as int);
    assert(entries.no_duplicates()) by {
        assert forall|i: int, j: int| 0 <= i < entries.len() && 0 <= j < entries.len() && i != j implies entries[i]
            != entries[j] by {
            if i < j {
                assert(index[i] != index[j]);
            } else {
                assert(index[j] != index[i]);
            }
        }
    }
    entries.unique_seq_to_set();
    vstd::set_lib::lemma_int_range(0, n);
    let all = vstd::set_lib::set_int_range(0, n);
    assert(entries.to_set().subset_of(all)) by {
        assert forall|x: int| entries.to_set().contains(x) implies all.contains(x) by {
            let i = choose|i: int| 0 <= i < entries.len() && entries[i] == x;
            assert(index[i] < index.len());
        }
    }
    vstd::set_lib::lemma_len_subset(entries.to_set(), all);
    vstd::set_lib::lemma_subset_equality(entries.to_set(), all);
    assert forall|k: int| 0 <= k < index.len() implies #[trigger] occurs(index, k) by {
        assert(all.contains(k));
        assert(entries.to_set().contains(k));
        let i = choose|i: int| 0 <= i < entries.len() && entries[i] == k;
        assert(index[i] == k);
    }
}

/// Two sorted and stable orders of the same keys agree up to position
/// `upto`.
proof fn lemma_sorted_agree<K, O>(ord: O, keys: Seq<K>, a: Seq<usize>, b: Seq<usize>, upto: int) where
    O: Fn(&K, &K) -> Ordering,

    requires
        a.len() == keys.len(),
        b.len() == keys.len(),
        is_permutation(a),
        is_permutation(b),
        sorted_by(ord, keys, a),
        sorted_by(ord, keys, b),
        stable_by(ord, keys, a),
        stable_by(ord, keys, b),
        0 <= upto < keys.len(),
    ensures
        forall|k: int| 0 <= k <= upto ==> a[k] == b[k],
    decreases upto,
{
    if upto > 0 {
        lemma_sorted_agree(ord, keys, a, b, upto - 1);
    }
    let x = a[upto];
    let y = b[upto];
    if x != y {
        lemma_permutation_onto(a);
        lemma_permutation_onto(b);
        assert(occurs(a, below(y)));
        let j = choose|j: int| 0 <= j < a.len() && #[trigger] a[j] == below(y);
        if j < upto {
            assert(b[j] == a[j]);
            assert(b[j] != b[upto]);
        }
        assert(occurs(b, below(x)));
        let i = choose|i: int| 0 <= i < b.len() && #[trigger] b[i] == below(x);
        if i < upto {
            assert(a[i] == b[i]);
            assert(a[i] != a[upto]);
        }
        // neither key comes before the other
        assert(!precedes(ord, key_at(keys, a, j), key_at(keys, a, upto)));
        assert(!precedes(ord, key_at(keys, b, i), key_at(keys, b, upto)));
        assert(key_at(keys, a, j) == key_at(keys, b, upto));
        assert(key_at(keys, b, i) == key_at(keys, a, upto));
        // so each was given before the other
        assert(a[upto] < a[j]);
        assert(b[upto] < b[i]);
    }
}

/// The keys have one sorted and stable order.
pub proof fn lemma_sorted_unique<K, O>(ord: O, keys: Seq<K>, a: Seq<usize>, b: Seq<usize>) where
    O: Fn(&K, &K) -> Ordering,

    requires
        a.len() == keys.len(),
        b.len() == keys.len(),
        is_permutation(a),
        is_permutation(b),
        sorted_by(ord, keys, a),
        sorted_by(ord, keys, b),
        stable_by(ord, keys, a),
        stable_by(ord, keys, b),
    ensures
        a == b,
{
    if keys.len() > 0 {
        lemma_sorted_agree(ord, keys, a, b, keys.len() - 1);
    }
    assert(a =~= b);
}

} // verus!
