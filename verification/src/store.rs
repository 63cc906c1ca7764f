//! Storage behind a map: byte blobs, sequences of items, and key/value
//! stores.
//!
//! A map never owns its contents. It reads them through three roles: a blob
//! hands out its bytes, a sequence hands out its items by position, and a
//! store hands out keys and values by position.

use std::cmp::Ordering;
use vstd::prelude::*;
use vstd::slice::slice_subrange;
use crate::equivalent::Comparable;

verus! {

/// A blob of bytes.
pub trait AsData<'data> {
    /// The blob is usable: what it refers to lies inside what backs it.
    spec fn valid_data(&self) -> bool;

    /// The bytes of the blob.
    spec fn data(&self) -> Seq<u8>;

    /// Hands out the bytes.
    fn as_data(&self) -> (r: &'data [u8])
        requires
            self.valid_data(),
        ensures
            r@ == self.data(),
    ;
}

/// A sequence of items that are read by position.
pub trait AccessSeq<'data> {
    type Item: View;

    /// The sequence is usable.
    spec fn valid_seq(&self) -> bool;

    /// The items, each by its view.
    spec fn items(&self) -> Seq<<Self::Item as View>::V>;

    /// Number of items.
    fn len(&self) -> (n: usize)
        requires
            self.valid_seq(),
        ensures
            n == self.items().len(),
    ;

    /// The item at `index`, or `None` past the end.
    fn index(&self, index: usize) -> (r: Option<Self::Item>)
        requires
            self.valid_seq(),
        ensures
            index < self.items().len() ==> r is Some && r->0@ == self.items()[index as int],
            index >= self.items().len() ==> r is None,
    ;
}

/// Keys and values that are read by position.
pub trait MapStore<'data> {
    type Key: View;

    type Value: View;

    /// The store is usable: it has as many values as keys.
    spec fn valid_store(&self) -> bool;

    /// The keys, each by its view.
    spec fn keys(&self) -> Seq<<Self::Key as View>::V>;

    /// The values, each by its view.
    spec fn values(&self) -> Seq<<Self::Value as View>::V>;

    /// A usable store has as many values as keys.
    proof fn lemma_store_lens(&self)
        requires
            self.valid_store(),
        ensures
            self.keys().len() == self.values().len(),
    ;

    /// Number of entries.
    fn len(&self) -> (n: usize)
        requires
            self.valid_store(),
        ensures
            n == self.keys().len(),
    ;

    /// The key at `index`, or `None` past the end.
    fn get_key(&self, index: usize) -> (r: Option<Self::Key>)
        requires
            self.valid_store(),
        ensures
            index < self.keys().len() ==> r is Some && r->0@ == self.keys()[index as int],
            index >= self.keys().len() ==> r is None,
    ;

    /// The value at `index`, or `None` past the end.
    fn get_value(&self, index: usize) -> (r: Option<Self::Value>)
        requires
            self.valid_store(),
        ensures
            index < self.keys().len() ==> r is Some && r->0@ == self.values()[index as int],
            index >= self.keys().len() ==> r is None,
    ;
}

/// A part of a byte slice: `L` bytes from offset `O`.
pub struct ConstSlice<'data, const O: usize, const L: usize> {
    pub data: &'data [u8],
}

/// A part of a blob: `L` bytes from offset `O`.
pub struct SliceData<const O: usize, const L: usize, D> {
    pub base: D,
}

/// A list of items that is written out in full.
pub struct List<'data, T> {
    pub items: &'data [T],
}

/// A store whose keys are in ascending order.
pub struct Ordered<D>(pub D);

impl<'data, const O: usize, const L: usize> ConstSlice<'data, O, L> {
    /// The part of `data` from offset `O` to `O + L`.
    pub fn new(data: &'data [u8]) -> (r: Self)
        ensures
            r.data == data,
    {
        ConstSlice { data }
    }
}

impl<'data, const O: usize, const L: usize> AsData<'data> for ConstSlice<'data, O, L> {
    open spec fn valid_data(&self) -> bool {
        O + L <= self.data@.len()
    }

    open spec fn data(&self) -> Seq<u8> {
        self.data@.subrange(O as int, O + L)
    }

    fn as_data(&self) -> (r: &'data [u8]) {
        let total = self.data.len();
        assert(O + L <= total);
        slice_subrange(self.data, O, O + L)
    }
}

impl<'data> AsData<'data> for &'data [u8] {
    open spec fn valid_data(&self) -> bool {
        true
    }

    open spec fn data(&self) -> Seq<u8> {
        self@
    }

    fn as_data(&self) -> (r: &'data [u8]) {
        *self
    }
}

impl<'data, const O: usize, const L: usize, D: AsData<'data>> AsData<'data> for SliceData<O, L, D> {
    open spec fn valid_data(&self) -> bool {
        self.base.valid_data() && O + L <= self.base.data().len()
    }

    open spec fn data(&self) -> Seq<u8> {
        self.base.data().subrange(O as int, O + L)
    }

    fn as_data(&self) -> (r: &'data [u8]) {
        let bytes = self.base.as_data();
        let total = bytes.len();
        assert(O + L <= total);
        slice_subrange(bytes, O, O + L)
    }
}

impl<'data, const O: usize, const L: usize, D: AsData<'data>> SliceData<O, L, D> {
    /// The part of `base` from offset `O` to `O + L`.
    pub fn new(base: D) -> (r: Self)
        ensures
            r.base == base,
    {
        SliceData { base }
    }
}

impl<'data, D: AsData<'data>> AccessSeq<'data> for D {
    type Item = u8;

    open spec fn valid_seq(&self) -> bool {
        self.valid_data()
    }

    open spec fn items(&self) -> Seq<u8> {
        self.data()
    }

    fn len(&self) -> (n: usize) {
        self.as_data().len()
    }

    fn index(&self, index: usize) -> (r: Option<u8>) {
        let bytes = self.as_data();
        if index < bytes.len() {
            Some(bytes[index])
        } else {
            None
        }
    }
}

impl<'data, T: Copy + View> List<'data, T> {
    /// The list of `items`.
    pub fn new(items: &'data [T]) -> (r: Self)
        ensures
            r.items == items,
    {
        List { items }
    }
}

impl<'data, T: Copy + View> AccessSeq<'data> for List<'data, T> {
    type Item = T;

    open spec fn valid_seq(&self) -> bool {
        true
    }

    open spec fn items(&self) -> Seq<T::V> {
        Seq::new(self.items@.len(), |i: int| self.items@[i]@)
    }

    fn len(&self) -> (n: usize) {
        self.items.len()
    }

    fn index(&self, index: usize) -> (r: Option<T>) {
        if index < self.items.len() {
            Some(self.items[index])
        } else {
            None
        }
    }
}

/// The positions `0..len`, which a store without values of its own gives
/// out as values.
pub open spec fn positions(len: nat) -> Seq<usize> {
    Seq::new(len, |i: int| i as usize)
}

impl<'data, K: AccessSeq<'data>> MapStore<'data> for K {
    type Key = K::Item;

    type Value = usize;

    open spec fn valid_store(&self) -> bool {
        self.valid_seq()
    }

    open spec fn keys(&self) -> Seq<<K::Item as View>::V> {
        self.items()
    }

    open spec fn values(&self) -> Seq<usize> {
        positions(self.items().len())
    }

    proof fn lemma_store_lens(&self) {
    }

    fn len(&self) -> (n: usize) {
        AccessSeq::len(self)
    }

    fn get_key(&self, index: usize) -> (r: Option<K::Item>) {
        self.index(index)
    }

    fn get_value(&self, index: usize) -> (r: Option<usize>) {
        if index < AccessSeq::len(self) {
            Some(index)
        } else {
            None
        }
    }
}

impl<'data, K: AccessSeq<'data>, V: AccessSeq<'data>> MapStore<'data> for (K, V) {
    type Key = K::Item;

    type Value = V::Item;

    open spec fn valid_store(&self) -> bool {
        self.0.valid_seq() && self.1.valid_seq() && self.0.items().len() == self.1.items().len()
    }

    open spec fn keys(&self) -> Seq<<K::Item as View>::V> {
        self.0.items()
    }

    open spec fn values(&self) -> Seq<<V::Item as View>::V> {
        self.1.items()
    }

    proof fn lemma_store_lens(&self) {
    }

    fn len(&self) -> (n: usize) {
        self.0.len()
    }

    fn get_key(&self, index: usize) -> (r: Option<K::Item>) {
        self.0.index(index)
    }

    fn get_value(&self, index: usize) -> (r: Option<V::Item>) {
        self.1.index(index)
    }
}

impl<'data, M: MapStore<'data>> MapStore<'data> for Ordered<M> {
    type Key = M::Key;

    type Value = M::Value;

    open spec fn valid_store(&self) -> bool {
        self.0.valid_store()
    }

    open spec fn keys(&self) -> Seq<<M::Key as View>::V> {
        self.0.keys()
    }

    open spec fn values(&self) -> Seq<<M::Value as View>::V> {
        self.0.values()
    }

    proof fn lemma_store_lens(&self) {
        self.0.lemma_store_lens();
    }

    fn len(&self) -> (n: usize) {
        self.0.len()
    }

    fn get_key(&self, index: usize) -> (r: Option<M::Key>) {
        self.0.get_key(index)
    }

    fn get_value(&self, index: usize) -> (r: Option<M::Value>) {
        self.0.get_value(index)
    }
}

/// The entry at position `i`.
pub open spec fn entry<T>(s: Seq<T>, i: usize) -> T {
    s[i as int]
}

/// The keys are in ascending order as far as the query can tell: a key after
/// one that is larger than the query is larger too, and a key before one that
/// is smaller than the query is smaller too.
pub open spec fn sorted_for<K: View, Q: Comparable<K> + ?Sized>(query: &Q, keys: Seq<K::V>) -> bool {
    &&& forall|i: int, j: int|
        0 <= i < j < keys.len() && #[trigger] query.compare_to(keys[i]) == Ordering::Less
            ==> #[trigger] query.compare_to(keys[j]) == Ordering::Less
    &&& forall|i: int, j: int|
        0 <= i < j < keys.len() && #[trigger] query.compare_to(keys[j]) == Ordering::Greater
            ==> #[trigger] query.compare_to(keys[i]) == Ordering::Greater
}

/// The query is neither smaller nor larger than a key with this view.
pub open spec fn equal_to<K: View, Q: Comparable<K> + ?Sized>(query: &Q, key: K::V) -> bool {
    query.compare_to(key) == Ordering::Equal
}

/// A store in which a key is found by its order.
pub trait Searchable<'data>: MapStore<'data> {
    /// The position of a key that equals the query, or `None` where there
    /// is none.
    fn search<Q>(&self, query: &Q) -> (r: Option<usize>) where Q: Comparable<Self::Key> + ?Sized
        requires
            self.valid_store(),
            sorted_for::<Self::Key, Q>(query, self.keys()),
        ensures
            r matches Some(at) ==> at < self.keys().len() && equal_to::<Self::Key, Q>(query, entry(self.keys(), at)),
            r is None ==> forall|i: int|
                0 <= i < self.keys().len() ==> !#[trigger] equal_to::<Self::Key, Q>(query, self.keys()[i]),
    ;
}

impl<'data, M: MapStore<'data>> Searchable<'data> for Ordered<M> {
    fn search<Q>(&self, query: &Q) -> (r: Option<usize>) where Q: Comparable<M::Key> + ?Sized {
        let mut lo: usize = 0;
        let mut hi: usize = self.0.len();
        while lo < hi
            invariant
                self.0.valid_store(),
                sorted_for::<M::Key, Q>(query, self.0.keys()),
                lo <= hi <= self.0.keys().len(),
                forall|i: int| 0 <= i < lo ==> #[trigger] query.compare_to(self.0.keys()[i]) == Ordering::Greater,
                forall|i: int|
                    hi <= i < self.0.keys().len() ==> #[trigger] query.compare_to(self.0.keys()[i])
                        == Ordering::Less,
            decreases hi - lo,
        {
            let mid = lo + (hi - lo) / 2;
            let key = self.0.get_key(mid).unwrap();
            match query.compare(&key) {
                Ordering::Equal => {
                    return Some(mid);
                },
                Ordering::Less => {
                    assert(query.compare_to(entry(self.0.keys(), mid)) == Ordering::Less);
                    hi = mid;
                },
                Ordering::Greater => {
                    assert(query.compare_to(entry(self.0.keys(), mid)) == Ordering::Greater);
                    lo = mid + 1;
                },
            }
        }
        None
    }
}

/// A walk over the entries of a store, in the order of their positions.
#[derive(Clone)]
pub struct MapIter<'iter, D> {
    pub store: &'iter D,
    pub next: usize,
}

impl<'iter, 'data, D: MapStore<'data>> MapIter<'iter, D> {
    /// A walk that starts at the first entry.
    pub fn new(store: &'iter D) -> (r: Self)
        ensures
            r.store == store,
            r.next == 0,
    {
        MapIter { store, next: 0 }
    }

    /// The entry at the current position, after which the walk moves on;
    /// `None` past the last entry.
    pub fn next(&mut self) -> (r: Option<(D::Key, D::Value)>)
        requires
            old(self).store.valid_store(),
        ensures
            final(self).store == old(self).store,
            old(self).next < old(self).store.keys().len() ==> (r matches Some(pair) && {
                &&& pair.0@ == old(self).store.keys()[old(self).next as int]
                &&& pair.1@ == old(self).store.values()[old(self).next as int]
                &&& final(self).next == old(self).next + 1
            }),
            old(self).next >= old(self).store.keys().len() ==> r is None && final(self).next == old(self).next,
    {
        if self.next < self.store.len() {
            let k = self.store.get_key(self.next).unwrap();
            let v = self.store.get_value(self.next).unwrap();
            self.next += 1;
            Some((k, v))
        } else {
            None
        }
    }

    /// Number of entries of the store that is walked.
    pub fn len(&self) -> (n: usize)
        requires
            self.store.valid_store(),
        ensures
            n == self.store.keys().len(),
    {
        self.store.len()
    }
}

} // verus!
