//! The three lookup machines. Each evaluates the equation of its strategy
//! and then compares the query with the key stored at the position it found.

use std::marker::PhantomData;
use vstd::prelude::*;
use crate::builder::medium::medium_placed;
use crate::builder::small::{key_slot, small_placed};
use crate::equivalent::{Comparable, Equivalent, Hashable};
use crate::phf::{fast_reduct32, hash_pilot, high, low};
use crate::phf::{medium_bucket, medium_index, medium_slot, small_slot, HashOne};
use crate::store::{equal_to, sorted_for, AccessSeq, MapIter, MapStore, Searchable};

verus! {

/// A map of few keys, kept in ascending order and found by binary search.
pub struct TinyMap<M> {
    pub store: M,
}

/// A map with one slot per key: the hash of a key gives its position.
pub struct SmallMap<D, H> {
    pub seed: u64,
    pub store: D,
    pub hasher: PhantomData<H>,
}

/// A map with a pilot byte per bucket and a remap entry per tail slot.
pub struct MediumMap<P, R, D, H> {
    pub seed: u64,
    pub slots: u32,
    pub pilots: P,
    pub remap: R,
    pub store: D,
    pub hasher: PhantomData<H>,
}

impl<'data, M: Searchable<'data>> TinyMap<M> {
    /// The map over `store`, whose keys are in ascending order.
    pub fn new(store: M) -> (r: Self)
        ensures
            r.store == store,
    {
        TinyMap { store }
    }

    /// Number of entries.
    pub fn len(&self) -> (n: usize)
        requires
            self.store.valid_store(),
        ensures
            n == self.store.keys().len(),
    {
        self.store.len()
    }

    /// Tells whether the map has no entry.
    pub fn is_empty(&self) -> (r: bool)
        requires
            self.store.valid_store(),
        ensures
            r == (self.store.keys().len() == 0),
    {
        self.len() == 0
    }

    /// The value of a key that equals the query, or `None` where no key
    /// does.
    pub fn get<Q>(&self, key: &Q) -> (r: Option<M::Value>) where Q: Comparable<M::Key> + ?Sized
        requires
            self.store.valid_store(),
            sorted_for::<M::Key, Q>(key, self.store.keys()),
        ensures
            r matches Some(v) ==> exists|i: int|
                0 <= i < self.store.keys().len() && #[trigger] equal_to::<M::Key, Q>(key, self.store.keys()[i])
                    && v@ == self.store.values()[i],
            r is None ==> forall|i: int|
                0 <= i < self.store.keys().len() ==> !#[trigger] equal_to::<M::Key, Q>(key, self.store.keys()[i]),
    {
        match self.store.search(key) {
            None => None,
            Some(at) => {
                let v = self.store.get_value(at);
                assert(equal_to::<M::Key, Q>(key, self.store.keys()[at as int]));
                v
            },
        }
    }

    /// A walk over the entries in the order of their keys.
    pub fn iter(&self) -> (r: MapIter<'_, M>)
        ensures
            r.store == &self.store,
            r.next == 0,
    {
        MapIter::new(&self.store)
    }
}

/// What a lookup gives that ends at position `at`: the value there if the
/// query equals the key there, else nothing.
pub open spec fn checked_value<KV, VV>(keys: Seq<KV>, values: Seq<VV>, at: int, equal: spec_fn(KV) -> bool) -> Option<
    VV,
> {
    if 0 <= at < keys.len() && equal(keys[at]) {
        Some(values[at])
    } else {
        None
    }
}

/// `r`, by its view, is `expected`.
pub open spec fn views_as<V: View>(r: Option<V>, expected: Option<V::V>) -> bool {
    match expected {
        Some(v) => r is Some && r->0@ == v,
        None => r is None,
    }
}

impl<'data, D: MapStore<'data>, H: HashOne> SmallMap<D, H> {
    /// The map over `store`, which was built with `seed`.
    pub fn new(seed: u64, store: D) -> (r: Self)
        ensures
            r.seed == seed,
            r.store == store,
    {
        SmallMap { seed, store, hasher: PhantomData }
    }

    /// The map is usable: its store is, and the number of entries fits in 32
    /// bits.
    pub open spec fn valid(&self) -> bool {
        self.store.valid_store() && self.store.keys().len() <= u32::MAX
    }

    /// Number of entries.
    pub fn len(&self) -> (n: usize)
        requires
            self.store.valid_store(),
        ensures
            n == self.store.keys().len(),
    {
        self.store.len()
    }

    /// Tells whether the map has no entry.
    pub fn is_empty(&self) -> (r: bool)
        requires
            self.store.valid_store(),
        ensures
            r == (self.store.keys().len() == 0),
    {
        self.len() == 0
    }

    /// What [`SmallMap::get`] returns for `key`, by its view.
    pub open spec fn spec_get<Q>(&self, key: &Q) -> Option<<D::Value as View>::V> where
        Q: Equivalent<D::Key> + Hashable<H> + ?Sized,
     {
        let at = small_slot(key.hash_of(self.seed), self.store.keys().len() as u32) as int;
        checked_value(self.store.keys(), self.store.values(), at, |k: <D::Key as View>::V| key.equiv(k))
    }

    /// The position at which the key is stored, if it is stored.
    pub fn inner_get<Q>(&self, key: &Q) -> (at: usize) where Q: Hashable<H> + ?Sized
        requires
            self.valid(),
        ensures
            at == small_slot(key.hash_of(self.seed), self.store.keys().len() as u32),
            self.store.keys().len() > 0 ==> at < self.store.keys().len(),
    {
        let size = self.store.len() as u32;
        let hash = key.hash(self.seed);
        fast_reduct32(high(hash) ^ low(hash), size) as usize
    }

    /// The value of the key that equals the query, or `None` where no key
    /// does.
    pub fn get<Q>(&self, key: &Q) -> (r: Option<D::Value>) where Q: Equivalent<D::Key> + Hashable<H> + ?Sized
        requires
            self.valid(),
        ensures
            views_as(r, self.spec_get(key)),
    {
        if self.is_empty() {
            return None;
        }
        let at = self.inner_get(key);
        let stored = self.store.get_key(at).unwrap();
        if key.equivalent(&stored) {
            self.store.get_value(at)
        } else {
            None
        }
    }

    /// A walk over the entries in the order of their positions.
    pub fn iter(&self) -> (r: MapIter<'_, D>)
        ensures
            r.store == &self.store,
            r.next == 0,
    {
        MapIter::new(&self.store)
    }
}

impl<
    'data,
    P: AccessSeq<'data, Item = u8>,
    R: AccessSeq<'data, Item = u32>,
    D: MapStore<'data>,
    H: HashOne,
> MediumMap<P, R, D, H> {
    /// The map over `store`, which was built with `seed` for a table of
    /// `slots` slots, with its pilots and its remap table.
    pub fn new(seed: u64, slots: u32, pilots: P, remap: R, store: D) -> (r: Self)
        ensures
            r.seed == seed,
            r.slots == slots,
            r.pilots == pilots,
            r.remap == remap,
            r.store == store,
    {
        MediumMap { seed, slots, pilots, remap, store, hasher: PhantomData }
    }

    /// The map is usable: its parts are, there is a pilot, and the table has
    /// one slot per entry and one per remap entry.
    pub open spec fn valid(&self) -> bool {
        &&& self.store.valid_store()
        &&& self.pilots.valid_seq()
        &&& self.remap.valid_seq()
        &&& 0 < self.pilots.items().len() <= u32::MAX
        &&& self.slots == self.store.keys().len() + self.remap.items().len()
    }

    /// Number of entries.
    pub fn len(&self) -> (n: usize)
        requires
            self.store.valid_store(),
        ensures
            n == self.store.keys().len(),
    {
        self.store.len()
    }

    /// Tells whether the map has no entry.
    pub fn is_empty(&self) -> (r: bool)
        requires
            self.store.valid_store(),
        ensures
            r == (self.store.keys().len() == 0),
    {
        self.len() == 0
    }

    /// The position that the lookup equation gives for a key with this hash.
    pub open spec fn position(&self, hash: u64) -> int {
        medium_index(
            hash,
            self.seed,
            self.slots,
            self.pilots.items(),
            self.remap.items(),
            self.store.keys().len(),
        )
    }

    /// What [`MediumMap::get`] returns for `key`, by its view.
    pub open spec fn spec_get<Q>(&self, key: &Q) -> Option<<D::Value as View>::V> where
        Q: Equivalent<D::Key> + Hashable<H> + ?Sized,
     {
        checked_value(
            self.store.keys(),
            self.store.values(),
            self.position(key.hash_of(self.seed)),
            |k: <D::Key as View>::V| key.equiv(k),
        )
    }

    /// The slot of the key in the table, before the remap.
    pub fn inner_get<Q>(&self, key: &Q) -> (slot: usize) where Q: Hashable<H> + ?Sized
        requires
            self.valid(),
        ensures
            slot == medium_slot(
                key.hash_of(self.seed),
                self.seed,
                self.pilots.items()[medium_bucket(key.hash_of(self.seed), self.pilots.items().len() as u32) as int],
                self.slots,
            ),
            self.slots > 0 ==> slot < self.slots,
    {
        let pilots_len = self.pilots.len() as u32;
        let hash = key.hash(self.seed);
        let bucket = fast_reduct32(low(hash), pilots_len) as usize;
        let pilot = self.pilots.index(bucket).unwrap();
        let pilot_hash = hash_pilot(self.seed, pilot);
        fast_reduct32(high(hash) ^ high(pilot_hash) ^ low(pilot_hash), self.slots) as usize
    }

    /// The value of the key that equals the query, or `None` where no key
    /// does.
    pub fn get<Q>(&self, key: &Q) -> (r: Option<D::Value>) where Q: Equivalent<D::Key> + Hashable<H> + ?Sized
        requires
            self.valid(),
        ensures
            views_as(r, self.spec_get(key)),
    {
        let len = self.store.len();
        if len == 0 {
            return None;
        }
        let slot = self.inner_get(key);
        let at = if slot < len {
            slot
        } else {
            self.remap.index(slot - len).unwrap() as usize
        };
        match self.store.get_key(at) {
            None => None,
            Some(stored) => {
                if key.equivalent(&stored) {
                    self.store.get_value(at)
                } else {
                    None
                }
            },
        }
    }

    /// A walk over the entries in the order of their positions.
    pub fn iter(&self) -> (r: MapIter<'_, D>)
        ensures
            r.store == &self.store,
            r.next == 0,
    {
        MapIter::new(&self.store)
    }
}

impl<'data, D: MapStore<'data>, H: HashOne> SmallMap<D, H> {
    /// Every key of the map is found: where the map stores at each position
    /// the key that hashes there, a query that equals the key at `at` and
    /// hashes as that key did gets the value at `at`.
    pub proof fn lemma_finds<Q>(&self, key: &Q, hashes: Seq<u64>, index: Seq<usize>, at: int) where
        Q: Equivalent<D::Key> + Hashable<H> + ?Sized,

        requires
            self.valid(),
            small_placed(hashes, index),
            hashes.len() == self.store.keys().len(),
            0 <= at < hashes.len(),
            key.hash_of(self.seed) == hashes[index[at] as int],
            key.equiv(self.store.keys()[at]),
        ensures
            self.spec_get(key) == Some(self.store.values()[at]),
    {
        assert(key_slot(hashes, index[at] as int) == at);
    }

    /// A query that equals no key of the map gets nothing, wherever its hash
    /// leads.
    pub proof fn lemma_misses<Q>(&self, key: &Q) where Q: Equivalent<D::Key> + Hashable<H> + ?Sized
        requires
            forall|i: int| 0 <= i < self.store.keys().len() ==> !key.equiv(#[trigger] self.store.keys()[i]),
        ensures
            self.spec_get(key) is None,
    {
    }
}

impl<
    'data,
    P: AccessSeq<'data, Item = u8>,
    R: AccessSeq<'data, Item = u32>,
    D: MapStore<'data>,
    H: HashOne,
> MediumMap<P, R, D, H> {
    /// Every key of the map is found: where the map has the seed, the slot
    /// count, the pilots and the remap table of a construction, and stores
    /// the keys in its order, a query that equals the key at `at` and hashes
    /// as that key did gets the value at `at`.
    pub proof fn lemma_finds<Q>(&self, key: &Q, hashes: Seq<u64>, index: Seq<usize>, at: int) where
        Q: Equivalent<D::Key> + Hashable<H> + ?Sized,

        requires
            self.valid(),
            medium_placed(hashes, self.seed, self.slots, self.pilots.items(), self.remap.items(), index),
            hashes.len() == self.store.keys().len(),
            0 <= at < hashes.len(),
            key.hash_of(self.seed) == hashes[index[at] as int],
            key.equiv(self.store.keys()[at]),
        ensures
            self.spec_get(key) == Some(self.store.values()[at]),
    {
        assert(index[at] < hashes.len() && self.position(hashes[index[at] as int]) == at);
    }

    /// A query that equals no key of the map gets nothing, wherever its hash
    /// leads.
    pub proof fn lemma_misses<Q>(&self, key: &Q) where Q: Equivalent<D::Key> + Hashable<H> + ?Sized
        requires
            forall|i: int| 0 <= i < self.store.keys().len() ==> !key.equiv(#[trigger] self.store.keys()[i]),
        ensures
            self.spec_get(key) is None,
    {
    }
}

} // verus!
