//! Construction of perfect hash maps from a list of keys.
//!
//! A [`MapBuilder`] picks one of three strategies by the number of keys:
//! sorted keys with binary search, a single-level table with one slot per
//! key, or a bucketed table with pilot bytes and a remap tail.

use std::cmp::Ordering;
use std::marker::PhantomData;
use vstd::prelude::*;
use crate::builder::medium::{lemma_medium_placed_permutation, medium_placed, place_medium};
use crate::builder::medium::{FORCED_MAX_KEYS, MEDIUM_MAX_KEYS};
use crate::builder::medium::{medium_is, spec_place_medium};
use crate::builder::seed::{advance, next_defined, random_seed, seed_trail};
use crate::builder::small::{collision_free, place_small, small_placed, SMALL_TRIALS};
use crate::builder::small::{lemma_small_placed_permutation, lemma_small_placed_unique};
use crate::builder::tiny::{is_permutation, lemma_sorted_unique, orders, sort_positions, sorted_by, stable_by};

pub mod codegen;
pub mod medium;
pub mod seed;
pub mod small;
pub mod text;
pub mod tiny;

verus! {

/// Largest key count for which the sorted strategy is used.
pub const TINY_MAX_KEYS: usize = 16;

/// Largest key count for which the single-level strategy is tried.
pub const SMALL_MAX_KEYS: usize = 128;

/// Why no map could be built.
#[derive(Debug)]
pub struct BuildFailed(pub &'static str);

/// The strategy that a map was built with, and what the lookup needs besides
/// the reordered keys.
#[derive(Debug)]
pub enum MapKind {
    /// Keys in sorted order, found by binary search.
    Tiny,
    /// One hash per lookup; the slot is the position.
    Small(u64),
    /// One pilot byte per bucket, and a remap entry per tail slot.
    Medium { seed: u64, slots: u32, pilots: Vec<u8>, remap: Vec<u32> },
}

/// A finished construction: position `s` of the map stores the key that the
/// caller passed at `index[s]`.
#[derive(Debug)]
pub struct MapOutput {
    pub kind: MapKind,
    pub index: Vec<usize>,
}

/// Computes a map for a list of keys.
///
/// `O` orders two keys, `H` hashes a key under a seed, `N` gives the seed
/// that follows the first one after a failed trial.
pub struct MapBuilder<K, O, H, N> {
    pub seed: Option<u64>,
    pub limit: Option<u64>,
    pub force: bool,
    pub ord: Option<O>,
    pub hash: Option<H>,
    pub next_seed: Option<N>,
    pub keys: PhantomData<K>,
}

/// The hash function answers for every seed and every key of `keys`.
pub open spec fn hash_defined<K, H>(hash: H, keys: Seq<K>) -> bool where H: Fn(u64, &K) -> u64 {
    forall|seed: u64, i: int| 0 <= i < keys.len() ==> #[trigger] call_requires(hash, (seed, &keys[i]))
}

/// `hashes` is what the hash function gave for the keys under `seed`.
pub open spec fn hashes_at<K, H>(hash: H, seed: u64, keys: Seq<K>, hashes: Seq<u64>) -> bool where
    H: Fn(u64, &K) -> u64,
 {
    &&& hashes.len() == keys.len()
    &&& forall|i: int| 0 <= i < keys.len() ==> call_ensures(hash, (seed, &keys[i]), #[trigger] hashes[i])
}

/// Under `seed` the hash function may send two keys to one slot.
pub open spec fn collides<K, H>(hash: H, keys: Seq<K>, seed: u64) -> bool where H: Fn(u64, &K) -> u64 {
    exists|hashes: Seq<u64>| #[trigger] hashes_at(hash, seed, keys, hashes) && !collision_free(hashes)
}

/// `trail` starts at the configured seed, where one was configured.
pub open spec fn starts_at(seed: Option<u64>, trail: Seq<u64>) -> bool {
    seed matches Some(first) ==> trail[0] == first
}

/// `out` is a single-level map for `keys`: the seed is the first of the
/// progression under which no two keys share a slot, and each position stores
/// the key that hashes there.
pub open spec fn small_found<K, H, N>(
    hash: H,
    next_seed: Option<N>,
    first: Option<u64>,
    keys: Seq<K>,
    out: MapOutput,
) -> bool where H: Fn(u64, &K) -> u64, N: Fn(u64, u64) -> u64 {
    &&& out.kind is Small
    &&& exists|trail: Seq<u64>, hashes: Seq<u64>|
        {
            &&& #[trigger] seed_trail(next_seed, trail)
            &&& starts_at(first, trail)
            &&& trail.len() <= SMALL_TRIALS
            &&& trail.last() == out.kind->Small_0
            &&& forall|c: int| 0 <= c < trail.len() - 1 ==> collides(hash, keys, #[trigger] trail[c])
            &&& #[trigger] hashes_at(hash, out.kind->Small_0, keys, hashes)
            &&& small_placed(hashes, out.index@)
        }
}

/// The single-level search ran out: every seed it tried sent two keys to one
/// slot.
pub open spec fn small_exhausted<K, H, N>(hash: H, next_seed: Option<N>, first: Option<u64>, keys: Seq<K>) -> bool where
    H: Fn(u64, &K) -> u64,
    N: Fn(u64, u64) -> u64,
 {
    exists|trail: Seq<u64>|
        {
            &&& #[trigger] seed_trail(next_seed, trail)
            &&& starts_at(first, trail)
            &&& trail.len() == SMALL_TRIALS + 1
            &&& forall|c: int| 0 <= c < trail.len() - 1 ==> collides(hash, keys, #[trigger] trail[c])
        }
}

/// Under `seed` the hash function may give hashes with which the bucketed
/// construction finds no pilot for some bucket.
pub open spec fn gives_up<K, H>(hash: H, keys: Seq<K>, seed: u64) -> bool where H: Fn(u64, &K) -> u64 {
    exists|hashes: Seq<u64>| #[trigger] hashes_at(hash, seed, keys, hashes) && spec_place_medium(hashes, seed) is None
}

/// Number of trials that the bucketed search makes before it gives up.
pub open spec fn medium_trials(limit: Option<u64>) -> int {
    match limit {
        Some(most) => most + 1,
        None => u64::MAX + 1,
    }
}

/// `out` is a bucketed map for `keys`: the seed is the first of the
/// progression under which the construction places every bucket, within the
/// limit on trials; the map is what the construction gives for the hashes of
/// the keys under that seed; and the lookup equation sends the key stored at
/// each position back to that position.
pub open spec fn medium_found<K, H, N>(
    hash: H,
    next_seed: Option<N>,
    first: Option<u64>,
    limit: Option<u64>,
    keys: Seq<K>,
    out: MapOutput,
) -> bool where H: Fn(u64, &K) -> u64, N: Fn(u64, u64) -> u64 {
    &&& out.kind is Medium
    &&& exists|trail: Seq<u64>, hashes: Seq<u64>|
        {
            &&& #[trigger] seed_trail(next_seed, trail)
            &&& starts_at(first, trail)
            &&& trail.len() <= medium_trials(limit)
            &&& trail.last() == out.kind->seed
            &&& forall|c: int| 0 <= c < trail.len() - 1 ==> gives_up(hash, keys, #[trigger] trail[c])
            &&& #[trigger] hashes_at(hash, out.kind->seed, keys, hashes)
            &&& spec_place_medium(hashes, out.kind->seed) is Some
            &&& medium_is(out, out.kind->seed, spec_place_medium(hashes, out.kind->seed)->0)
            &&& medium_placed(
                hashes,
                out.kind->seed,
                out.kind->slots,
                out.kind->pilots@,
                out.kind->remap@,
                out.index@,
            )
        }
}

/// The bucketed search ran out: under every seed that it was allowed to try,
/// the construction found no pilot for some bucket.
pub open spec fn medium_exhausted<K, H, N>(
    hash: H,
    next_seed: Option<N>,
    first: Option<u64>,
    limit: Option<u64>,
    keys: Seq<K>,
) -> bool where H: Fn(u64, &K) -> u64, N: Fn(u64, u64) -> u64 {
    exists|trail: Seq<u64>|
        {
            &&& #[trigger] seed_trail(next_seed, trail)
            &&& starts_at(first, trail)
            &&& trail.len() >= medium_trials(limit)
            &&& forall|c: int| 0 <= c < medium_trials(limit) ==> gives_up(hash, keys, #[trigger] trail[c])
        }
}

/// Hashes every key under `seed`.
fn hash_keys<K, H>(hash: &H, seed: u64, keys: &[K]) -> (hashes: Vec<u64>) where H: Fn(u64, &K) -> u64
    requires
        hash_defined(*hash, keys@),
    ensures
        hashes_at(*hash, seed, keys@, hashes@),
{
    let mut hashes: Vec<u64> = Vec::new();
    let mut i: usize = 0;
    while i < keys.len()
        invariant
            i <= keys@.len(),
            hash_defined(*hash, keys@),
            hashes@.len() == i,
            forall|k: int| 0 <= k < i ==> call_ensures(*hash, (seed, &keys@[k]), #[trigger] hashes@[k]),
        decreases keys@.len() - i,
    {
        assert(call_requires(*hash, (seed, &keys@[i as int])));
        let h = hash(seed, &keys[i]);
        hashes.push(h);
        i += 1;
    }
    hashes
}

/// Searches a seed under which no two keys share a slot of a table with one
/// slot per key. Gives up after [`SMALL_TRIALS`] seeds.
pub fn build_small<K, H, N>(hash: &H, next_seed: &Option<N>, first: Option<u64>, keys: &[K]) -> (r: Option<
    MapOutput,
>) where H: Fn(u64, &K) -> u64, N: Fn(u64, u64) -> u64
    requires
        keys@.len() <= u32::MAX,
        hash_defined(*hash, keys@),
        next_defined(*next_seed),
    ensures
        r matches Some(out) ==> small_found(*hash, *next_seed, first, keys@, out),
        r matches Some(out) ==> out.index@.len() == keys@.len() && is_permutation(out.index@),
        r is None ==> small_exhausted(*hash, *next_seed, first, keys@),
{
    let init = match first {
        Some(seed) => seed,
        None => random_seed(),
    };
    let mut seed = init;
    let mut c: u64 = 0;
    let ghost trail: Seq<u64> = seq![init];
    while c < SMALL_TRIALS
        invariant
            keys@.len() <= u32::MAX,
            hash_defined(*hash, keys@),
            next_defined(*next_seed),
            c <= SMALL_TRIALS,
            trail.len() == c + 1,
            trail[0] == init,
            starts_at(first, trail),
            seed_trail(*next_seed, trail),
            seed == trail.last(),
            forall|t: int| 0 <= t < c ==> collides(*hash, keys@, #[trigger] trail[t]),
        decreases SMALL_TRIALS - c,
    {
        let hashes = hash_keys(hash, seed, keys);
        match place_small(&hashes) {
            Some(index) => {
                let out = MapOutput { kind: MapKind::Small(seed), index };
                assert(small_found(*hash, *next_seed, first, keys@, out)) by {
                    assert(seed_trail(*next_seed, trail));
                    assert(starts_at(first, trail));
                    assert(trail.len() <= SMALL_TRIALS);
                    assert(trail.last() == out.kind->Small_0);
                    assert(forall|c: int| 0 <= c < trail.len() - 1 ==> collides(*hash, keys@, #[trigger] trail[c]));
                    assert(hashes_at(*hash, out.kind->Small_0, keys@, hashes@));
                    assert(small_placed(hashes@, out.index@));
                }
                proof {
                    lemma_small_placed_permutation(hashes@, out.index@);
                }
                return Some(out);
            },
            None => {},
        }
        assert(collides(*hash, keys@, seed)) by {
            assert(hashes_at(*hash, seed, keys@, hashes@));
        }
        seed = advance(next_seed, init, c);
        proof {
            let longer = trail.push(seed);
            assert forall|t: int| 0 <= t < longer.len() - 1 implies crate::builder::seed::seed_step(
                *next_seed,
                longer[0],
                t as u64,
                #[trigger] longer[t + 1],
            ) by {
                if t + 1 < trail.len() {
                    assert(longer[t + 1] == trail[t + 1]);
                }
            }
            assert forall|t: int| 0 <= t < c + 1 implies collides(*hash, keys@, #[trigger] longer[t]) by {
                if t < c {
                    assert(longer[t] == trail[t]);
                }
            }
            trail = longer;
        }
        c += 1;
    }
    assert(small_exhausted(*hash, *next_seed, first, keys@)) by {
        assert(seed_trail(*next_seed, trail));
    }
    None
}

/// Searches a seed under which the bucketed construction places every
/// bucket. With a limit `l` it gives up after trial number `l`.
pub fn build_medium<K, H, N>(
    hash: &H,
    next_seed: &Option<N>,
    first: Option<u64>,
    limit: Option<u64>,
    keys: &[K],
) -> (r: Result<MapOutput, BuildFailed>) where H: Fn(u64, &K) -> u64, N: Fn(u64, u64) -> u64
    requires
        keys@.len() <= FORCED_MAX_KEYS,
        hash_defined(*hash, keys@),
        next_defined(*next_seed),
    ensures
        r matches Ok(out) ==> medium_found(*hash, *next_seed, first, limit, keys@, out),
        r matches Ok(out) ==> out.index@.len() == keys@.len() && is_permutation(out.index@),
        r matches Err(e) ==> e.0@ == "build failed"@ && medium_exhausted(*hash, *next_seed, first, limit, keys@),
{
    let init = match first {
        Some(seed) => seed,
        None => random_seed(),
    };
    let mut seed = init;
    let mut c: u64 = 0;
    let mut open = true;
    let ghost trail: Seq<u64> = seq![init];
    while open
        invariant
            keys@.len() <= FORCED_MAX_KEYS,
            hash_defined(*hash, keys@),
            next_defined(*next_seed),
            trail[0] == init,
            starts_at(first, trail),
            seed_trail(*next_seed, trail),
            open ==> trail.len() == c + 1 && seed == trail.last() && c < medium_trials(limit),
            open ==> forall|t: int| 0 <= t < c ==> gives_up(*hash, keys@, #[trigger] trail[t]),
            !open ==> trail.len() >= medium_trials(limit),
            !open ==> forall|t: int| 0 <= t < medium_trials(limit) ==> gives_up(*hash, keys@, #[trigger] trail[t]),
        decreases
                (if open {
                    u64::MAX - c + 1
                } else {
                    0
                }),
    {
        let hashes = hash_keys(hash, seed, keys);
        match place_medium(&hashes, seed) {
            Some(out) => {
                assert(medium_found(*hash, *next_seed, first, limit, keys@, out)) by {
                    assert(seed_trail(*next_seed, trail));
                    assert(starts_at(first, trail));
                    assert(trail.len() <= medium_trials(limit));
                    assert(trail.last() == out.kind->seed);
                    assert(forall|c: int| 0 <= c < trail.len() - 1 ==> gives_up(*hash, keys@, #[trigger] trail[c]));
                    assert(hashes_at(*hash, out.kind->seed, keys@, hashes@));
                }
                proof {
                    lemma_medium_placed_permutation(
                        hashes@,
                        seed,
                        out.kind->slots,
                        out.kind->pilots@,
                        out.kind->remap@,
                        out.index@,
                    );
                }
                return Ok(out);
            },
            None => {},
        }
        assert(gives_up(*hash, keys@, seed)) by {
            assert(hashes_at(*hash, seed, keys@, hashes@));
        }
        if c == u64::MAX {
            open = false;
        } else {
            seed = advance(next_seed, init, c);
            proof {
                let longer = trail.push(seed);
                assert forall|t: int| 0 <= t < longer.len() - 1 implies crate::builder::seed::seed_step(
                    *next_seed,
                    longer[0],
                    t as u64,
                    #[trigger] longer[t + 1],
                ) by {
                    if t + 1 < trail.len() {
                        assert(longer[t + 1] == trail[t + 1]);
                    }
                }
                assert forall|t: int| 0 <= t < c + 1 implies gives_up(*hash, keys@, #[trigger] longer[t]) by {
                    if t < c {
                        assert(longer[t] == trail[t]);
                    }
                }
                trail = longer;
            }
            c += 1;
            open = match limit {
                Some(most) => c <= most,
                None => true,
            };
        }
    }
    assert(medium_exhausted(*hash, *next_seed, first, limit, keys@)) by {
        assert(seed_trail(*next_seed, trail));
    }
    Err(BuildFailed("build failed"))
}

/// `out` lists the positions of `keys` in the order of the predicate.
pub open spec fn tiny_fits<K, O>(ord: O, keys: Seq<K>, out: MapOutput) -> bool where O: Fn(&K, &K) -> Ordering {
    &&& out.kind is Tiny
    &&& out.index@.len() == keys.len()
    &&& is_permutation(out.index@)
    &&& sorted_by(ord, keys, out.index@)
    &&& stable_by(ord, keys, out.index@)
}

/// Sorts the keys by the predicate.
pub fn build_tiny<K, O>(ord: &O, keys: &[K]) -> (out: MapOutput) where O: Fn(&K, &K) -> Ordering
    requires
        orders(*ord, keys@),
    ensures
        tiny_fits(*ord, keys@, out),
{
    let index = sort_positions(ord, keys);
    MapOutput { kind: MapKind::Tiny, index }
}

impl<K, O, H, N> MapBuilder<K, O, H, N> {
    /// A builder with nothing configured: no ordering, no hash function, a
    /// random first seed, the default seed progression and no limit on
    /// trials.
    pub fn new() -> (r: Self)
        ensures
            r.seed is None,
            r.limit is None,
            !r.force,
            r.ord is None,
            r.hash is None,
            r.next_seed is None,
    {
        MapBuilder { seed: None, limit: None, force: false, ord: None, hash: None, next_seed: None, keys: PhantomData }
    }

    /// Sets the number of the last trial that the bucketed search may make,
    /// or lifts the limit.
    pub fn set_limit(&mut self, limit: Option<u64>) -> (r: &mut Self)
        ensures
            *final(self) == *final(r),
            r.force == old(self).force,
            r.limit == limit,
            r.seed == old(self).seed,
            r.ord == old(self).ord,
            r.hash == old(self).hash,
            r.next_seed == old(self).next_seed,
    {
        self.limit = limit;
        self
    }

    /// Sets the first seed.
    pub fn set_seed(&mut self, seed: u64) -> (r: &mut Self)
        ensures
            *final(self) == *final(r),
            r.force == old(self).force,
            r.seed == Some(seed),
            r.limit == old(self).limit,
            r.ord == old(self).ord,
            r.hash == old(self).hash,
            r.next_seed == old(self).next_seed,
    {
        self.seed = Some(seed);
        self
    }

    /// Tells the builder to go on with more than [`MEDIUM_MAX_KEYS`] keys,
    /// or to refuse them.
    pub fn set_force(&mut self, force: bool) -> (r: &mut Self)
        ensures
            *final(self) == *final(r),
            r.force == force,
            r.seed == old(self).seed,
            r.limit == old(self).limit,
            r.ord == old(self).ord,
            r.hash == old(self).hash,
            r.next_seed == old(self).next_seed,
    {
        self.force = force;
        self
    }

    /// Sets the ordering predicate, which makes the sorted strategy
    /// available.
    pub fn set_ord(&mut self, f: O) -> (r: &mut Self)
        ensures
            *final(self) == *final(r),
            r.force == old(self).force,
            r.ord == Some(f),
            r.seed == old(self).seed,
            r.limit == old(self).limit,
            r.hash == old(self).hash,
            r.next_seed == old(self).next_seed,
    {
        self.ord = Some(f);
        self
    }

    /// Sets the hash function, which the two hashed strategies need.
    pub fn set_hash(&mut self, f: H) -> (r: &mut Self)
        ensures
            *final(self) == *final(r),
            r.force == old(self).force,
            r.hash == Some(f),
            r.seed == old(self).seed,
            r.limit == old(self).limit,
            r.ord == old(self).ord,
            r.next_seed == old(self).next_seed,
    {
        self.hash = Some(f);
        self
    }

    /// Sets the seed progression: from the first seed and the number of the
    /// failed trial to the next seed.
    pub fn set_next_seed(&mut self, f: N) -> (r: &mut Self)
        ensures
            *final(self) == *final(r),
            r.force == old(self).force,
            r.next_seed == Some(f),
            r.seed == old(self).seed,
            r.limit == old(self).limit,
            r.ord == old(self).ord,
            r.hash == old(self).hash,
    {
        self.next_seed = Some(f);
        self
    }

    /// The sorted strategy applies: there is a predicate and at most
    /// [`TINY_MAX_KEYS`] keys.
    pub open spec fn sorts(&self, len: nat) -> bool {
        self.ord is Some && len <= TINY_MAX_KEYS
    }

    /// The keys are too many: more than [`MEDIUM_MAX_KEYS`], and the builder
    /// is not forced to go on.
    pub open spec fn refuses(&self, len: nat) -> bool {
        len > MEDIUM_MAX_KEYS && !self.force
    }

    /// Builds a map for `keys`. The keys must differ from each other: for a
    /// key that occurs twice, no hashed strategy ever finds a place.
    ///
    /// Up to [`TINY_MAX_KEYS`] keys are sorted where there is a predicate. Else
    /// up to [`SMALL_MAX_KEYS`] keys get a single-level table where a seed
    /// for it is found. Else up to [`MEDIUM_MAX_KEYS`] keys get a bucketed
    /// table. More keys are refused, unless the builder is forced to go on;
    /// then it can go on up to [`FORCED_MAX_KEYS`] keys.
    pub fn build(&self, keys: &[K]) -> (r: Result<MapOutput, BuildFailed>) where
        O: Fn(&K, &K) -> Ordering,
        H: Fn(u64, &K) -> u64,
        N: Fn(u64, u64) -> u64,

        requires
            self.sorts(keys@.len()) ==> orders(self.ord->0, keys@),
            self.hash is Some ==> hash_defined(self.hash->0, keys@),
            next_defined(self.next_seed),
            self.force ==> keys@.len() <= FORCED_MAX_KEYS,
        ensures
            self.sorts(keys@.len()) ==> r is Ok,
            r matches Ok(out) ==> out.index@.len() == keys@.len() && is_permutation(out.index@),
            r matches Ok(out) ==> match out.kind {
                MapKind::Tiny => self.sorts(keys@.len()) && tiny_fits(self.ord->0, keys@, out),
                MapKind::Small(_) => {
                    &&& !self.sorts(keys@.len())
                    &&& self.hash is Some
                    &&& keys@.len() <= SMALL_MAX_KEYS
                    &&& small_found(self.hash->0, self.next_seed, self.seed, keys@, out)
                },
                MapKind::Medium { .. } => {
                    &&& !self.sorts(keys@.len())
                    &&& self.hash is Some
                    &&& !self.refuses(keys@.len())
                    &&& keys@.len() <= SMALL_MAX_KEYS ==> small_exhausted(
                        self.hash->0,
                        self.next_seed,
                        self.seed,
                        keys@,
                    )
                    &&& medium_found(self.hash->0, self.next_seed, self.seed, self.limit, keys@, out)
                },
            },
            r matches Err(e) ==> {
                &&& !self.sorts(keys@.len())
                &&& e.0@ == (if self.refuses(keys@.len()) {
                    "too large"@
                } else if self.hash is None {
                    "need hash method"@
                } else {
                    "build failed"@
                })
                &&& self.hash is Some && keys@.len() <= SMALL_MAX_KEYS ==> small_exhausted(
                    self.hash->0,
                    self.next_seed,
                    self.seed,
                    keys@,
                )
                &&& self.hash is Some && !self.refuses(keys@.len()) ==> medium_exhausted(
                    self.hash->0,
                    self.next_seed,
                    self.seed,
                    self.limit,
                    keys@,
                )
            },
    {
        let n = keys.len();
        if n <= TINY_MAX_KEYS {
            match &self.ord {
                Some(ord) => {
                    return Ok(build_tiny(ord, keys));
                },
                None => {},
            }
        }
        if n <= SMALL_MAX_KEYS {
            match &self.hash {
                Some(hash) => {
                    match build_small(hash, &self.next_seed, self.seed, keys) {
                        Some(out) => {
                            return Ok(out);
                        },
                        None => {},
                    }
                },
                None => {},
            }
        }
        if n > MEDIUM_MAX_KEYS && !self.force {
            return Err(BuildFailed("too large"));
        }
        match &self.hash {
            Some(hash) => build_medium(hash, &self.next_seed, self.seed, self.limit, keys),
            None => Err(BuildFailed("need hash method")),
        }
    }
}

impl<K, O, H, N> Default for MapBuilder<K, O, H, N> {
    fn default() -> (r: Self)
        ensures
            r.seed is None,
            r.limit is None,
            !r.force,
            r.ord is None,
            r.hash is None,
            r.next_seed is None,
    {
        MapBuilder::new()
    }
}

impl MapOutput {
    /// The seed of a hashed map. Building again with this seed as the first
    /// one gives the same map.
    pub fn seed(&self) -> (r: Option<u64>)
        ensures
            r == match self.kind {
                MapKind::Tiny => None,
                MapKind::Small(seed) => Some(seed),
                MapKind::Medium { seed, .. } => Some(seed),
            },
    {
        match &self.kind {
            MapKind::Tiny => None,
            MapKind::Small(seed) => Some(*seed),
            MapKind::Medium { seed, .. } => Some(*seed),
        }
    }

    /// The items of `list` in the order in which the map stores them:
    /// position `s` gets the item that was given at `index[s]`.
    pub fn reorder<'a, T>(&self, list: &'a [T]) -> (r: Vec<&'a T>)
        requires
            self.index@.len() == list@.len(),
            forall|i: int| 0 <= i < self.index@.len() ==> #[trigger] self.index@[i] < list@.len(),
        ensures
            r@.len() == self.index@.len(),
            forall|i: int| 0 <= i < r@.len() ==> *(#[trigger] r@[i]) == list@[self.index@[i] as int],
    {
        let mut out: Vec<&'a T> = Vec::new();
        let mut i: usize = 0;
        while i < self.index.len()
            invariant
                i <= self.index@.len(),
                forall|k: int| 0 <= k < self.index@.len() ==> #[trigger] self.index@[k] < list@.len(),
                out@.len() == i,
                forall|k: int| 0 <= k < i ==> *(#[trigger] out@[k]) == list@[self.index@[k] as int],
            decreases self.index@.len() - i,
        {
            out.push(&list[self.index[i]]);
            i += 1;
        }
        out
    }
}

/// The hash function gives one answer for each seed and each key of `keys`.
pub open spec fn hash_settled<K, H>(hash: H, keys: Seq<K>) -> bool where H: Fn(u64, &K) -> u64 {
    forall|seed: u64, i: int, a: u64, b: u64|
        0 <= i < keys.len() && #[trigger] call_ensures(hash, (seed, &keys[i]), a) && #[trigger] call_ensures(
            hash,
            (seed, &keys[i]),
            b,
        ) ==> a == b
}

/// The seed progression gives one answer for each pair of numbers.
pub open spec fn next_settled<N>(next_seed: Option<N>) -> bool where N: Fn(u64, u64) -> u64 {
    next_seed matches Some(f) ==> forall|init: u64, trial: u64, a: u64, b: u64|
        #[trigger] call_ensures(f, (init, trial), a) && #[trigger] call_ensures(f, (init, trial), b) ==> a == b
}

/// Two runs of seeds that start at the same seed agree as far as both go.
proof fn lemma_trails_agree<N>(next_seed: Option<N>, a: Seq<u64>, b: Seq<u64>, upto: int) where
    N: Fn(u64, u64) -> u64,

    requires
        next_settled(next_seed),
        seed_trail(next_seed, a),
        seed_trail(next_seed, b),
        a[0] == b[0],
        0 <= upto < a.len(),
        upto < b.len(),
    ensures
        a[upto] == b[upto],
    decreases upto,
{
    if upto > 0 {
        lemma_trails_agree(next_seed, a, b, upto - 1);
        let c = upto - 1;
        assert(crate::builder::seed::seed_step(next_seed, a[0], c as u64, a[c + 1]));
        assert(crate::builder::seed::seed_step(next_seed, b[0], c as u64, b[c + 1]));
    }
}

/// What the hash function gives for the keys under one seed is settled.
proof fn lemma_hashes_agree<K, H>(hash: H, seed: u64, keys: Seq<K>, a: Seq<u64>, b: Seq<u64>) where
    H: Fn(u64, &K) -> u64,

    requires
        hash_settled(hash, keys),
        hashes_at(hash, seed, keys, a),
        hashes_at(hash, seed, keys, b),
    ensures
        a == b,
{
    assert forall|i: int| 0 <= i < a.len() implies a[i] == b[i] by {
        assert(call_ensures(hash, (seed, &keys[i]), a[i]));
        assert(call_ensures(hash, (seed, &keys[i]), b[i]));
    }
    assert(a =~= b);
}

/// The single-level construction is settled by what goes into it: with a
/// hash function and a seed progression that give one answer each, two
/// single-level maps for the same keys and the same first seed have the same
/// seed and the same order of keys.
pub proof fn lemma_small_deterministic<K, H, N>(
    hash: H,
    next_seed: Option<N>,
    first: u64,
    keys: Seq<K>,
    a: MapOutput,
    b: MapOutput,
) where H: Fn(u64, &K) -> u64, N: Fn(u64, u64) -> u64
    requires
        hash_settled(hash, keys),
        next_settled(next_seed),
        small_found(hash, next_seed, Some(first), keys, a),
        small_found(hash, next_seed, Some(first), keys, b),
    ensures
        a.kind->Small_0 == b.kind->Small_0,
        a.index@ == b.index@,
{
    let seed_a = a.kind->Small_0;
    let seed_b = b.kind->Small_0;
    let (ta, ha) = choose|trail: Seq<u64>, hashes: Seq<u64>|
        {
            &&& #[trigger] seed_trail(next_seed, trail)
            &&& starts_at(Some(first), trail)
            &&& trail.len() <= SMALL_TRIALS
            &&& trail.last() == seed_a
            &&& forall|c: int| 0 <= c < trail.len() - 1 ==> collides(hash, keys, #[trigger] trail[c])
            &&& #[trigger] hashes_at(hash, seed_a, keys, hashes)
            &&& small_placed(hashes, a.index@)
        };
    let (tb, hb) = choose|trail: Seq<u64>, hashes: Seq<u64>|
        {
            &&& #[trigger] seed_trail(next_seed, trail)
            &&& starts_at(Some(first), trail)
            &&& trail.len() <= SMALL_TRIALS
            &&& trail.last() == seed_b
            &&& forall|c: int| 0 <= c < trail.len() - 1 ==> collides(hash, keys, #[trigger] trail[c])
            &&& #[trigger] hashes_at(hash, seed_b, keys, hashes)
            &&& small_placed(hashes, b.index@)
        };
    crate::builder::small::lemma_small_placed_collision_free(ha, a.index@);
    crate::builder::small::lemma_small_placed_collision_free(hb, b.index@);
    if ta.len() < tb.len() {
        let c = ta.len() - 1;
        lemma_trails_agree(next_seed, ta, tb, c);
        assert(collides(hash, keys, tb[c]));
        let other = choose|hashes: Seq<u64>| #[trigger] hashes_at(hash, tb[c], keys, hashes) && !collision_free(hashes);
        lemma_hashes_agree(hash, seed_a, keys, ha, other);
        assert(false);
    }
    if tb.len() < ta.len() {
        let c = tb.len() - 1;
        lemma_trails_agree(next_seed, ta, tb, c);
        assert(collides(hash, keys, ta[c]));
        let other = choose|hashes: Seq<u64>| #[trigger] hashes_at(hash, ta[c], keys, hashes) && !collision_free(hashes);
        lemma_hashes_agree(hash, seed_b, keys, hb, other);
        assert(false);
    }
    lemma_trails_agree(next_seed, ta, tb, ta.len() - 1);
    lemma_hashes_agree(hash, seed_a, keys, ha, hb);
    lemma_small_placed_unique(ha, a.index@, b.index@);
}

/// The bucketed construction is settled by what goes into it: with a hash
/// function and a seed progression that give one answer each, two bucketed
/// maps for the same keys, the same first seed and the same limit have the
/// same seed, the same slot count, the same pilots, the same remap table and
/// the same order of keys.
pub proof fn lemma_medium_deterministic<K, H, N>(
    hash: H,
    next_seed: Option<N>,
    first: u64,
    limit: Option<u64>,
    keys: Seq<K>,
    a: MapOutput,
    b: MapOutput,
) where H: Fn(u64, &K) -> u64, N: Fn(u64, u64) -> u64
    requires
        hash_settled(hash, keys),
        next_settled(next_seed),
        medium_found(hash, next_seed, Some(first), limit, keys, a),
        medium_found(hash, next_seed, Some(first), limit, keys, b),
    ensures
        a.kind->seed == b.kind->seed,
        a.kind->slots == b.kind->slots,
        a.kind->pilots@ == b.kind->pilots@,
        a.kind->remap@ == b.kind->remap@,
        a.index@ == b.index@,
{
    let seed_a = a.kind->seed;
    let seed_b = b.kind->seed;
    let (ta, ha) = choose|trail: Seq<u64>, hashes: Seq<u64>|
        {
            &&& #[trigger] seed_trail(next_seed, trail)
            &&& starts_at(Some(first), trail)
            &&& trail.len() <= medium_trials(limit)
            &&& trail.last() == seed_a
            &&& forall|c: int| 0 <= c < trail.len() - 1 ==> gives_up(hash, keys, #[trigger] trail[c])
            &&& #[trigger] hashes_at(hash, seed_a, keys, hashes)
            &&& spec_place_medium(hashes, seed_a) is Some
            &&& medium_is(a, seed_a, spec_place_medium(hashes, seed_a)->0)
            &&& medium_placed(hashes, seed_a, a.kind->slots, a.kind->pilots@, a.kind->remap@, a.index@)
        };
    let (tb, hb) = choose|trail: Seq<u64>, hashes: Seq<u64>|
        {
            &&& #[trigger] seed_trail(next_seed, trail)
            &&& starts_at(Some(first), trail)
            &&& trail.len() <= medium_trials(limit)
            &&& trail.last() == seed_b
            &&& forall|c: int| 0 <= c < trail.len() - 1 ==> gives_up(hash, keys, #[trigger] trail[c])
            &&& #[trigger] hashes_at(hash, seed_b, keys, hashes)
            &&& spec_place_medium(hashes, seed_b) is Some
            &&& medium_is(b, seed_b, spec_place_medium(hashes, seed_b)->0)
            &&& medium_placed(hashes, seed_b, b.kind->slots, b.kind->pilots@, b.kind->remap@, b.index@)
        };
    if ta.len() < tb.len() {
        let c = ta.len() - 1;
        lemma_trails_agree(next_seed, ta, tb, c);
        assert(gives_up(hash, keys, tb[c]));
        let other = choose|hashes: Seq<u64>|
            #[trigger] hashes_at(hash, tb[c], keys, hashes) && spec_place_medium(hashes, tb[c]) is None;
        lemma_hashes_agree(hash, seed_a, keys, ha, other);
        assert(false);
    }
    if tb.len() < ta.len() {
        let c = tb.len() - 1;
        lemma_trails_agree(next_seed, ta, tb, c);
        assert(gives_up(hash, keys, ta[c]));
        let other = choose|hashes: Seq<u64>|
            #[trigger] hashes_at(hash, ta[c], keys, hashes) && spec_place_medium(hashes, ta[c]) is None;
        lemma_hashes_agree(hash, seed_b, keys, hb, other);
        assert(false);
    }
    lemma_trails_agree(next_seed, ta, tb, ta.len() - 1);
    lemma_hashes_agree(hash, seed_a, keys, ha, hb);
}

/// The two hashed strategies never disagree: with a hash function and a seed
/// progression that give one answer each, where one build for the keys and
/// the first seed ends in a single-level map, none ends in a bucketed map
/// after the single-level search ran out.
pub proof fn lemma_small_or_exhausted<K, H, N>(hash: H, next_seed: Option<N>, first: u64, keys: Seq<K>, a: MapOutput) where
    H: Fn(u64, &K) -> u64,
    N: Fn(u64, u64) -> u64,

    requires
        hash_settled(hash, keys),
        next_settled(next_seed),
        small_found(hash, next_seed, Some(first), keys, a),
    ensures
        !small_exhausted(hash, next_seed, Some(first), keys),
{
    if small_exhausted(hash, next_seed, Some(first), keys) {
        let seed_a = a.kind->Small_0;
        let (ta, ha) = choose|trail: Seq<u64>, hashes: Seq<u64>|
            {
                &&& #[trigger] seed_trail(next_seed, trail)
                &&& starts_at(Some(first), trail)
                &&& trail.len() <= SMALL_TRIALS
                &&& trail.last() == seed_a
                &&& forall|c: int| 0 <= c < trail.len() - 1 ==> collides(hash, keys, #[trigger] trail[c])
                &&& #[trigger] hashes_at(hash, seed_a, keys, hashes)
                &&& small_placed(hashes, a.index@)
            };
        let tb = choose|trail: Seq<u64>|
            {
                &&& #[trigger] seed_trail(next_seed, trail)
                &&& starts_at(Some(first), trail)
                &&& trail.len() == SMALL_TRIALS + 1
                &&& forall|c: int| 0 <= c < trail.len() - 1 ==> collides(hash, keys, #[trigger] trail[c])
            };
        let c = ta.len() - 1;
        lemma_trails_agree(next_seed, ta, tb, c);
        assert(collides(hash, keys, tb[c]));
        let other = choose|hashes: Seq<u64>| #[trigger] hashes_at(hash, tb[c], keys, hashes) && !collision_free(hashes);
        lemma_hashes_agree(hash, seed_a, keys, ha, other);
        crate::builder::small::lemma_small_placed_collision_free(ha, a.index@);
        assert(false);
    }
}

/// The sorted construction is settled by what goes into it: two sorted maps
/// for the same keys and the same predicate have the same order of keys.
pub proof fn lemma_tiny_deterministic<K, O>(ord: O, keys: Seq<K>, a: MapOutput, b: MapOutput) where
    O: Fn(&K, &K) -> Ordering,

    requires
        tiny_fits(ord, keys, a),
        tiny_fits(ord, keys, b),
    ensures
        a.index@ == b.index@,
{
    lemma_sorted_unique(ord, keys, a.index@, b.index@);
}

} // verus!
