//! Single-level construction: the table has one slot per key, and a seed is
//! searched under which no two keys share a slot.

use vstd::prelude::*;
use crate::phf::{fast_reduct32, high, low};
use crate::phf::{small_slot, spec_high, spec_low};
use crate::phf::lemma_fast_reduct32_bound;
use crate::builder::tiny::{is_permutation, lemma_permutation_onto, occurs};

verus! {

/// Number of seeds that the single-level construction tries.
pub const SMALL_TRIALS: u64 = 131072;

/// Slot of key number `k`.
pub open spec fn key_slot(hashes: Seq<u64>, k: int) -> int {
    small_slot(hashes[k], hashes.len() as u32) as int
}

/// Some key takes slot `s`.
pub open spec fn taken(hashes: Seq<u64>, s: int) -> bool {
    exists|k: int| 0 <= k < hashes.len() && #[trigger] key_slot(hashes, k) == s
}

/// No two keys share a slot.
pub open spec fn collision_free(hashes: Seq<u64>) -> bool {
    forall|i: int, j: int| 0 <= i < j < hashes.len() ==> #[trigger] key_slot(hashes, i) != #[trigger] key_slot(hashes, j)
}

/// The key stored at each position hashes to that position.
pub open spec fn small_placed(hashes: Seq<u64>, index: Seq<usize>) -> bool {
    &&& index.len() == hashes.len()
    &&& forall|i: int| 0 <= i < index.len() ==> (#[trigger] index[i]) < hashes.len() && key_slot(hashes, index[i] as int) == i
}

/// Keys that take slots of their own, as many as there are slots, take every
/// slot.
proof fn lemma_every_slot_taken(hashes: Seq<u64>)
    requires
        0 < hashes.len() <= u32::MAX,
        collision_free(hashes),
    ensures
        forall|s: int| 0 <= s < hashes.len() ==> #[trigger] taken(hashes, s),
{
    let n = hashes.len() as int;
    let slots = Seq::new(hashes.len(), |k: int| key_slot(hashes, k));
    assert(slots.no_duplicates()) by {
        assert forall|i: int, j: int| 0 <= i < slots.len() && 0 <= j < slots.len() && i != j implies slots[i]
            != slots[j] by {
            if i < j {
                assert(key_slot(hashes, i) != key_slot(hashes, j));
            } else {
                assert(key_slot(hashes, j) != key_slot(hashes, i));
            }
        }
    }
    slots.unique_seq_to_set();
    vstd::set_lib::lemma_int_range(0, n);
    let all = vstd::set_lib::set_int_range(0, n);
    assert(slots.to_set().subset_of(all)) by {
        assert forall|x: int| slots.to_set().contains(x) implies all.contains(x) by {
            let k = choose|k: int| 0 <= k < slots.len() && slots[k] == x;
            lemma_fast_reduct32_bound(spec_high(hashes[k]) ^ spec_low(hashes[k]), hashes.len() as u32);
        }
    }
    vstd::set_lib::lemma_len_subset(slots.to_set(), all);
    vstd::set_lib::lemma_subset_equality(slots.to_set(), all);
    assert forall|s: int| 0 <= s < hashes.len() implies #[trigger] taken(hashes, s) by {
        assert(all.contains(s));
        assert(slots.to_set().contains(s));
        let k = choose|k: int| 0 <= k < slots.len() && slots[k] == s;
        assert(key_slot(hashes, k) == s);
    }
}

/// Puts every key into its slot. Returns the key of each slot, or `None`
/// where two keys share a slot.
pub fn place_small(hashes: &Vec<u64>) -> (r: Option<Vec<usize>>)
    requires
        hashes@.len() <= u32::MAX,
    ensures
        r is Some <==> collision_free(hashes@),
        r matches Some(index) ==> small_placed(hashes@, index@),
{
    let ghost hs = hashes@;
    let n = hashes.len();
    let mut table: Vec<Option<usize>> = Vec::new();
    let mut i: usize = 0;
    while i < n
        invariant
            i <= n,
            table@.len() == i,
            forall|s: int| 0 <= s < i ==> #[trigger] table@[s] is None,
        decreases n - i,
    {
        table.push(None);
        i += 1;
    }
    let mut k: usize = 0;
    while k < n
        invariant
            hs == hashes@,
            n == hs.len(),
            n <= u32::MAX,
            k <= n,
            table@.len() == n,
            forall|s: int|
                0 <= s < n ==> (#[trigger] table@[s] matches Some(held) ==> held < k && key_slot(hs, held as int) == s),
            forall|a: int| 0 <= a < k ==> table@[#[trigger] key_slot(hs, a)] == Some(a as usize),
            forall|a: int, b: int| 0 <= a < b < k ==> #[trigger] key_slot(hs, a) != #[trigger] key_slot(hs, b),
        decreases n - k,
    {
        let v = hashes[k];
        let slot = fast_reduct32(high(v) ^ low(v), n as u32) as usize;
        assert(slot == key_slot(hs, k as int));
        match table[slot] {
            Some(held) => {
                assert(key_slot(hs, held as int) == key_slot(hs, k as int));
                return None;
            },
            None => {},
        }
        proof {
            assert forall|a: int| 0 <= a < k implies #[trigger] key_slot(hs, a) != slot by {
                assert(table@[key_slot(hs, a)] == Some(a as usize));
            }
        }
        table.set(slot, Some(k));
        proof {
            assert forall|a: int| 0 <= a < k + 1 implies table@[#[trigger] key_slot(hs, a)] == Some(a as usize) by {
                lemma_fast_reduct32_bound(spec_high(hs[a]) ^ spec_low(hs[a]), n as u32);
            }
        }
        k += 1;
    }
    assert(collision_free(hs));
    let mut index: Vec<usize> = Vec::new();
    let mut s: usize = 0;
    while s < n
        invariant
            hs == hashes@,
            n == hs.len(),
            n <= u32::MAX,
            s <= n,
            collision_free(hs),
            table@.len() == n,
            index@.len() == s,
            forall|t: int|
                0 <= t < n ==> (#[trigger] table@[t] matches Some(held) ==> held < n && key_slot(hs, held as int) == t),
            forall|a: int| 0 <= a < n ==> table@[#[trigger] key_slot(hs, a)] == Some(a as usize),
            forall|t: int| 0 <= t < s ==> (#[trigger] index@[t]) < n && key_slot(hs, index@[t] as int) == t,
        decreases n - s,
    {
        proof {
            lemma_every_slot_taken(hs);
            assert(taken(hs, s as int));
            let a = choose|a: int| 0 <= a < hs.len() && #[trigger] key_slot(hs, a) == s;
            assert(table@[key_slot(hs, a)] == Some(a as usize));
        }
        let held = table[s].unwrap();
        index.push(held);
        s += 1;
    }
    Some(index)
}

/// Where the key stored at each position hashes to that position, the
/// positions hold each key once.
pub proof fn lemma_small_placed_permutation(hashes: Seq<u64>, index: Seq<usize>)
    requires
        small_placed(hashes, index),
    ensures
        is_permutation(index),
{
    assert forall|i: int, j: int| 0 <= i < j < index.len() implies index[i] != index[j] by {
        assert(key_slot(hashes, index[i] as int) == i);
        assert(key_slot(hashes, index[j] as int) == j);
    }
}

/// Where the key stored at each position hashes to that position, no two
/// keys share a slot.
pub proof fn lemma_small_placed_collision_free(hashes: Seq<u64>, index: Seq<usize>)
    requires
        small_placed(hashes, index),
    ensures
        collision_free(hashes),
{
    lemma_small_placed_permutation(hashes, index);
    lemma_permutation_onto(index);
    assert forall|a: int, b: int| 0 <= a < b < hashes.len() implies #[trigger] key_slot(hashes, a)
        != #[trigger] key_slot(hashes, b) by {
        assert(occurs(index, a));
        assert(occurs(index, b));
        let i = choose|i: int| 0 <= i < index.len() && #[trigger] index[i] == a;
        let j = choose|j: int| 0 <= j < index.len() && #[trigger] index[j] == b;
        assert(key_slot(hashes, index[i] as int) == i);
        assert(key_slot(hashes, index[j] as int) == j);
    }
}

/// The hashes settle the order: two orders in which every key is stored at
/// the position it hashes to are the same.
pub proof fn lemma_small_placed_unique(hashes: Seq<u64>, first: Seq<usize>, second: Seq<usize>)
    requires
        small_placed(hashes, first),
        small_placed(hashes, second),
    ensures
        first == second,
{
    lemma_small_placed_collision_free(hashes, first);
    assert forall|i: int| 0 <= i < first.len() implies first[i] == second[i] by {
        let a = first[i] as int;
        let b = second[i] as int;
        assert(key_slot(hashes, a) == i);
        assert(key_slot(hashes, b) == i);
        if a < b {
            assert(key_slot(hashes, a) != key_slot(hashes, b));
        } else if b < a {
            assert(key_slot(hashes, b) != key_slot(hashes, a));
        }
    }
    assert(first =~= second);
}

} // verus!
