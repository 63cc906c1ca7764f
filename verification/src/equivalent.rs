//! How a query relates to a stored key: equality, order and hash.
//!
//! A query need not have the type of the stored key. What counts is that it
//! compares and hashes as the key does.

use std::cmp::Ordering;
use vstd::prelude::*;
use crate::aligned::le_bytes_u32;
use crate::phf::HashOne;

verus! {

/// Equality between a query and a stored key.
pub trait Equivalent<K: View + ?Sized> {
    /// The query equals a key with this view.
    spec fn equiv(&self, key: K::V) -> bool;

    /// Tells whether the query equals `key`.
    fn equivalent(&self, key: &K) -> (r: bool)
        ensures
            r == self.equiv(key@),
    ;
}

/// Order between a query and a stored key.
pub trait Comparable<K: View + ?Sized>: Equivalent<K> {
    /// Where the query stands relative to a key with this view.
    spec fn compare_to(&self, key: K::V) -> Ordering;

    /// Tells where the query stands relative to `key`.
    fn compare(&self, key: &K) -> (r: Ordering)
        ensures
            r == self.compare_to(key@),
    ;
}

/// Seeded hash of a query under the hash function `H`.
pub trait Hashable<H: HashOne> {
    /// The hash of the query under `seed`.
    spec fn hash_of(&self, seed: u64) -> u64;

    /// Hashes the query under `seed`.
    fn hash(&self, seed: u64) -> (r: u64)
        ensures
            r == self.hash_of(seed),
    ;
}

/// Lexicographic order of two byte strings.
pub open spec fn lex_order(a: Seq<u8>, b: Seq<u8>) -> Ordering
    decreases a.len(),
{
    if a.len() == 0 {
        if b.len() == 0 {
            Ordering::Equal
        } else {
            Ordering::Less
        }
    } else if b.len() == 0 {
        Ordering::Greater
    } else if a[0] < b[0] {
        Ordering::Less
    } else if a[0] > b[0] {
        Ordering::Greater
    } else {
        lex_order(a.skip(1), b.skip(1))
    }
}

/// Byte strings that agree on their first `n` bytes compare as what follows
/// these bytes.
proof fn lemma_lex_skip(a: Seq<u8>, b: Seq<u8>, n: int)
    requires
        0 <= n <= a.len(),
        n <= b.len(),
        forall|i: int| 0 <= i < n ==> a[i] == b[i],
    ensures
        lex_order(a, b) == lex_order(a.skip(n), b.skip(n)),
    decreases n,
{
    if n > 0 {
        lemma_lex_skip(a.skip(1), b.skip(1), n - 1);
        assert(a.skip(1).skip(n - 1) =~= a.skip(n));
        assert(b.skip(1).skip(n - 1) =~= b.skip(n));
        assert(a[0] == b[0]);
    } else {
        assert(a.skip(0) =~= a);
        assert(b.skip(0) =~= b);
    }
}

/// Tells whether two byte strings hold the same bytes.
pub fn bytes_eq(a: &[u8], b: &[u8]) -> (r: bool)
    ensures
        r == (a@ == b@),
{
    if a.len() != b.len() {
        return false;
    }
    let mut i: usize = 0;
    while i < a.len()
        invariant
            a@.len() == b@.len(),
            i <= a@.len(),
            forall|k: int| 0 <= k < i ==> a@[k] == b@[k],
        decreases a@.len() - i,
    {
        if a[i] != b[i] {
            return false;
        }
        i += 1;
    }
    assert(a@ =~= b@);
    true
}

/// Compares two byte strings lexicographically.
pub fn bytes_order(a: &[u8], b: &[u8]) -> (r: Ordering)
    ensures
        r == lex_order(a@, b@),
{
    let mut i: usize = 0;
    while i < a.len() && i < b.len()
        invariant
            i <= a@.len(),
            i <= b@.len(),
            forall|k: int| 0 <= k < i ==> a@[k] == b@[k],
        decreases a@.len() - i,
    {
        if a[i] < b[i] {
            proof {
                lemma_lex_skip(a@, b@, ahead(i));
            }
            return Ordering::Less;
        }
        if a[i] > b[i] {
            proof {
                lemma_lex_skip(a@, b@, ahead(i));
            }
            return Ordering::Greater;
        }
        i += 1;
    }
    proof {
        lemma_lex_skip(a@, b@, ahead(i));
    }
    if i < b.len() {
        Ordering::Less
    } else if i < a.len() {
        Ordering::Greater
    } else {
        Ordering::Equal
    }
}

/// The number `i` as an integer.
pub open spec fn ahead(i: usize) -> int {
    i as int
}

impl<'a> Equivalent<&'a [u8]> for [u8] {
    open spec fn equiv(&self, key: Seq<u8>) -> bool {
        self@ == key
    }

    fn equivalent(&self, key: &&'a [u8]) -> (r: bool) {
        bytes_eq(self, *key)
    }
}

impl<'a> Comparable<&'a [u8]> for [u8] {
    open spec fn compare_to(&self, key: Seq<u8>) -> Ordering {
        lex_order(self@, key)
    }

    fn compare(&self, key: &&'a [u8]) -> (r: Ordering) {
        bytes_order(self, *key)
    }
}

impl<H: HashOne> Hashable<H> for [u8] {
    open spec fn hash_of(&self, seed: u64) -> u64 {
        H::spec_hash_one(seed, self@)
    }

    fn hash(&self, seed: u64) -> (r: u64) {
        H::hash_one(seed, self)
    }
}

impl<H: HashOne> Hashable<H> for u32 {
    /// The hash of the four bytes that spell the number, lowest byte first.
    open spec fn hash_of(&self, seed: u64) -> u64 {
        H::spec_hash_one(seed, le_bytes_u32(*self))
    }

    fn hash(&self, seed: u64) -> (r: u64) {
        let x = *self;
        let bytes: [u8; 4] = [
            (x % 0x100) as u8,
            (x / 0x100 % 0x100) as u8,
            (x / 0x1_0000 % 0x100) as u8,
            (x / 0x100_0000) as u8,
        ];
        assert(bytes@ =~= le_bytes_u32(x));
        H::hash_one(seed, bytes.as_slice())
    }
}

impl Equivalent<u32> for u32 {
    open spec fn equiv(&self, key: u32) -> bool {
        *self == key
    }

    fn equivalent(&self, key: &u32) -> (r: bool) {
        *self == *key
    }
}

impl Comparable<u32> for u32 {
    open spec fn compare_to(&self, key: u32) -> Ordering {
        if *self < key {
            Ordering::Less
        } else if *self > key {
            Ordering::Greater
        } else {
            Ordering::Equal
        }
    }

    fn compare(&self, key: &u32) -> (r: Ordering) {
        if *self < *key {
            Ordering::Less
        } else if *self > *key {
            Ordering::Greater
        } else {
            Ordering::Equal
        }
    }
}

} // verus!
