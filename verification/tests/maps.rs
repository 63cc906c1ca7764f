use std::cmp::Ordering;
use std::cell::Cell;
use std::collections::hash_map::DefaultHasher;
use std::hash::Hasher;

use precomputed_map::builder::{BuildFailed, MapBuilder, MapKind, MapOutput};
use precomputed_map::hash::{Sip, U64Hasher, Xx3};
use precomputed_map::phf::HashOne;
use precomputed_map::store::{List, Ordered};
use precomputed_map::{MediumMap, SmallMap, TinyMap};

type Std = U64Hasher<DefaultHasher>;

type BytesOrd = fn(&Vec<u8>, &Vec<u8>) -> Ordering;

type BytesHash = fn(u64, &Vec<u8>) -> u64;

type NextSeed = fn(u64, u64) -> u64;

const FIXED_SEED: u64 = 0xEE3D52DC32357FA9;

fn std_hash(seed: u64, key: &Vec<u8>) -> u64 {
    Std::hash_one(seed, key)
}

fn lexicographic(a: &Vec<u8>, b: &Vec<u8>) -> Ordering {
    a.cmp(b)
}

fn numbered(n: usize) -> Vec<Vec<u8>> {
    (0..n).map(|i| format!("k{}", i).into_bytes()).collect()
}

fn is_permutation(index: &[usize]) -> bool {
    let mut seen = vec![false; index.len()];
    for &i in index {
        if i >= seen.len() || seen[i] {
            return false;
        }
        seen[i] = true;
    }
    true
}

fn build_hashed(keys: &[Vec<u8>], seed: u64) -> Result<MapOutput, BuildFailed> {
    MapBuilder::<Vec<u8>, BytesOrd, BytesHash, NextSeed>::new()
        .set_seed(seed)
        .set_hash(std_hash)
        .build(keys)
}

/// Looks every key up in the map that `out` describes, and every key with one
/// more byte.
fn sweep(keys: &[Vec<u8>], out: &MapOutput) {
    let values: Vec<u32> = (0..keys.len()).map(|i| u32::try_from(i).unwrap() ^ 0x5a5a).collect();
    let stored_keys: Vec<&[u8]> = out.reorder(keys).into_iter().map(|k| k.as_slice()).collect();
    let stored_values: Vec<u32> = out.reorder(&values).into_iter().copied().collect();
    let store = (List::new(&stored_keys), List::new(&stored_values));
    match &out.kind {
        MapKind::Tiny => {
            let map = TinyMap::new(Ordered(store));
            assert_eq!(map.len(), keys.len());
            for (i, key) in keys.iter().enumerate() {
                assert_eq!(map.get(key.as_slice()), Some(values[i]));
                let mut other = key.clone();
                other.push(b'!');
                assert_eq!(map.get(other.as_slice()), None);
            }
        }
        MapKind::Small(seed) => {
            let map = SmallMap::<_, Std>::new(*seed, store);
            assert_eq!(map.len(), keys.len());
            for (i, key) in keys.iter().enumerate() {
                assert_eq!(map.get(key.as_slice()), Some(values[i]));
                let mut other = key.clone();
                other.push(b'!');
                assert_eq!(map.get(other.as_slice()), None);
            }
        }
        MapKind::Medium { seed, slots, pilots, remap } => {
            let map = MediumMap::<_, _, _, Std>::new(
                *seed,
                *slots,
                List::new(pilots.as_slice()),
                List::new(remap.as_slice()),
                store,
            );
            assert_eq!(map.len(), keys.len());
            for (i, key) in keys.iter().enumerate() {
                assert_eq!(map.get(key.as_slice()), Some(values[i]));
                let mut other = key.clone();
                other.push(b'!');
                assert_eq!(map.get(other.as_slice()), None);
            }
        }
    }
}

#[test]
fn tiny_sort_orders_three_keys() {
    let keys: Vec<Vec<u8>> = vec![b"b".to_vec(), b"a".to_vec(), b"c".to_vec()];
    let values: Vec<u32> = vec![2, 1, 3];
    let out = MapBuilder::<Vec<u8>, BytesOrd, BytesHash, NextSeed>::new()
        .set_ord(lexicographic)
        .build(&keys)
        .unwrap();
    assert!(matches!(out.kind, MapKind::Tiny));
    assert_eq!(out.index, vec![1, 0, 2]);
    assert_eq!(out.seed(), None);

    let stored_keys: Vec<&[u8]> = out.reorder(&keys).into_iter().map(|k| k.as_slice()).collect();
    let stored_values: Vec<u32> = out.reorder(&values).into_iter().copied().collect();
    assert_eq!(stored_keys, vec![b"a".as_slice(), b"b".as_slice(), b"c".as_slice()]);
    let map = TinyMap::new(Ordered((List::new(&stored_keys), List::new(&stored_values))));
    assert_eq!(map.get(b"a".as_slice()), Some(1));
    assert_eq!(map.get(b"b".as_slice()), Some(2));
    assert_eq!(map.get(b"c".as_slice()), Some(3));
    assert_eq!(map.get(b"z".as_slice()), None);
    assert!(!map.is_empty());
}

/// A predicate that looks at the first byte only.
fn first_byte(a: &Vec<u8>, b: &Vec<u8>) -> Ordering {
    a[0].cmp(&b[0])
}

#[test]
fn tiny_sort_is_stable() {
    let keys: Vec<Vec<u8>> = vec![b"b1".to_vec(), b"a1".to_vec(), b"b2".to_vec(), b"a2".to_vec()];
    let out = MapBuilder::<Vec<u8>, BytesOrd, BytesHash, NextSeed>::new()
        .set_ord(first_byte)
        .build(&keys)
        .unwrap();
    assert_eq!(out.index, vec![1, 3, 0, 2]);
}

#[test]
fn small_places_eight_keys() {
    let keys = numbered(8);
    let out = build_hashed(&keys, FIXED_SEED).unwrap();
    assert!(matches!(out.kind, MapKind::Small(_)));
    assert_eq!(out.index.len(), 8);
    assert!(is_permutation(&out.index));
    assert!(out.seed().is_some());
    // each position holds the key that hashes there
    if let MapKind::Small(seed) = out.kind {
        for (at, &k) in out.index.iter().enumerate() {
            let h = Std::hash_one(seed, &keys[k]);
            let folded = u64::from((h >> 32) as u32 ^ h as u32);
            assert_eq!((folded * 8) >> 32, u64::try_from(at).unwrap());
        }
    }
    sweep(&keys, &out);
}

#[test]
fn thirty_two_keys_are_found() {
    // a table with one slot per key is out of reach for 32 keys: the search
    // for its seed gives up and the bucketed strategy takes over
    let keys = numbered(32);
    let out = build_hashed(&keys, FIXED_SEED).unwrap();
    assert!(matches!(out.kind, MapKind::Small(_) | MapKind::Medium { .. }));
    assert_eq!(out.index.len(), 32);
    assert!(is_permutation(&out.index));
    assert!(out.seed().is_some());
    sweep(&keys, &out);
}

#[test]
fn medium_places_ten_thousand_keys() {
    let keys: Vec<Vec<u8>> = (0u32..10_000)
        .map(|id| {
            let hash = Std::hash_one(0, &id.to_le_bytes());
            format!("{:x}{}", hash, id).into_bytes()
        })
        .collect();
    let out = build_hashed(&keys, 17162376839062016489).unwrap();
    let again = build_hashed(&keys, 17162376839062016489).unwrap();
    match (&out.kind, &again.kind) {
        (
            MapKind::Medium { seed, slots, pilots, remap },
            MapKind::Medium { seed: seed2, slots: slots2, pilots: pilots2, remap: remap2 },
        ) => {
            assert_eq!(seed, seed2);
            assert_eq!(slots, slots2);
            assert_eq!(pilots, pilots2);
            assert_eq!(remap, remap2);
            // ceil(10000 / 0.99) slots, ceil(10000 / 3) + 3 buckets
            assert_eq!(*slots, 10_102);
            assert_eq!(pilots.len(), 3337);
            assert_eq!(remap.len(), 102);
            assert!(remap.iter().all(|&t| t < 10_000));
        }
        _ => panic!("expected the bucketed strategy"),
    }
    assert_eq!(out.index, again.index);
    assert!(is_permutation(&out.index));
    sweep(&keys, &out);
}

#[test]
fn boundary_key_counts() {
    for n in [0usize, 1, 16, 17, 128, 129, 1024] {
        let keys = numbered(n);
        let out = build_hashed(&keys, FIXED_SEED).unwrap();
        assert_eq!(out.index.len(), n);
        assert!(is_permutation(&out.index));
        if n > 128 {
            assert!(matches!(out.kind, MapKind::Medium { .. }));
        } else {
            assert!(!matches!(out.kind, MapKind::Tiny));
        }
        sweep(&keys, &out);
    }
}

#[test]
fn boundary_hundred_thousand_keys() {
    let keys = numbered(100_000);
    let out = build_hashed(&keys, FIXED_SEED).unwrap();
    assert!(matches!(out.kind, MapKind::Medium { .. }));
    assert!(is_permutation(&out.index));
    sweep(&keys, &out);
}

#[test]
fn tiny_takes_sixteen_keys_and_not_seventeen() {
    for (n, tiny) in [(0usize, true), (1, true), (16, true), (17, false)] {
        let keys = numbered(n);
        let out = MapBuilder::<Vec<u8>, BytesOrd, BytesHash, NextSeed>::new()
            .set_seed(FIXED_SEED)
            .set_ord(lexicographic)
            .set_hash(std_hash)
            .build(&keys)
            .unwrap();
        assert_eq!(matches!(out.kind, MapKind::Tiny), tiny);
        assert!(is_permutation(&out.index));
        sweep(&keys, &out);
    }
}

#[test]
fn slot_count_skips_powers_of_two() {
    // ceil(1014 / 0.99) = 1025, ceil(1013 / 0.99) = 1024 = 2^10
    let out = build_hashed(&numbered(1014), FIXED_SEED).unwrap();
    match out.kind {
        MapKind::Medium { slots, .. } => assert_eq!(slots, 1025),
        _ => panic!("expected the bucketed strategy"),
    }
    let keys = numbered(1013);
    let out = build_hashed(&keys, FIXED_SEED).unwrap();
    match &out.kind {
        MapKind::Medium { slots, remap, .. } => {
            assert_eq!(*slots, 1025);
            assert_eq!(remap.len(), 12);
        }
        _ => panic!("expected the bucketed strategy"),
    }
    sweep(&keys, &out);
}

#[test]
fn missing_hash_is_reported() {
    let keys = numbered(20);
    let err = MapBuilder::<Vec<u8>, BytesOrd, BytesHash, NextSeed>::new()
        .set_ord(lexicographic)
        .build(&keys)
        .unwrap_err();
    assert_eq!(err.0, "need hash method");
}

/// A hash function that sends every key to the same place.
fn constant_hash(_seed: u64, _key: &Vec<u8>) -> u64 {
    7
}

#[test]
fn limit_ends_the_search() {
    let keys = numbered(200);
    let err = MapBuilder::<Vec<u8>, BytesOrd, BytesHash, NextSeed>::new()
        .set_seed(FIXED_SEED)
        .set_limit(Some(1))
        .set_hash(constant_hash)
        .build(&keys)
        .unwrap_err();
    assert_eq!(err.0, "build failed");
}

/// A hash function whose upper half is constant: every key of a bucket of
/// two or more moves to the same slot, whatever the pilot.
fn low_half_only(seed: u64, key: &Vec<u8>) -> u64 {
    Std::hash_one(seed, key) & 0xffff_ffff
}

#[test]
fn crowded_buckets_end_the_search() {
    // 400 keys in 137 buckets: some bucket holds two keys, and no pilot
    // separates them
    let keys = numbered(400);
    let tried = Cell::new(0u64);
    let next = |init: u64, c: u64| {
        tried.set(tried.get() + 1);
        init.wrapping_add(c).wrapping_add(1)
    };
    let err = MapBuilder::<Vec<u8>, BytesOrd, BytesHash, _>::new()
        .set_seed(FIXED_SEED)
        .set_limit(Some(3))
        .set_hash(low_half_only)
        .set_next_seed(&next)
        .build(&keys)
        .unwrap_err();
    assert_eq!(err.0, "build failed");
    // trials 0, 1, 2 and 3 were made, and each asked for the next seed
    assert_eq!(tried.get(), 4);
}

/// Sends the two keys `k0` and `k1` to one slot under the seed 1, and to
/// slots of their own under every other seed.
fn picky(seed: u64, key: &Vec<u8>) -> u64 {
    if seed == 1 {
        0
    } else {
        (u64::from(key[1]) - u64::from(b'0')) << 63
    }
}

fn step(init: u64, c: u64) -> u64 {
    init + 10 + c
}

#[test]
fn seed_progression_is_followed() {
    let keys = numbered(2);
    let out = MapBuilder::<Vec<u8>, BytesOrd, BytesHash, NextSeed>::new()
        .set_seed(1)
        .set_hash(picky)
        .set_next_seed(step)
        .build(&keys)
        .unwrap();
    // trial 0 uses the seed 1 and fails, trial 1 uses step(1, 0)
    assert!(matches!(out.kind, MapKind::Small(11)));
    assert_eq!(out.index, vec![0, 1]);
}

#[test]
fn other_hash_functions_build_and_find() {
    let keys = numbered(3000);
    let values: Vec<u32> = (0..3000).collect();

    let out = MapBuilder::<Vec<u8>, BytesOrd, BytesHash, NextSeed>::new()
        .set_seed(FIXED_SEED)
        .set_hash(|seed, key: &Vec<u8>| Sip::hash_one(seed, key))
        .build(&keys)
        .unwrap();
    let stored_keys: Vec<&[u8]> = out.reorder(&keys).into_iter().map(|k| k.as_slice()).collect();
    let stored_values: Vec<u32> = out.reorder(&values).into_iter().copied().collect();
    match &out.kind {
        MapKind::Medium { seed, slots, pilots, remap } => {
            let map = MediumMap::<_, _, _, Sip>::new(
                *seed,
                *slots,
                List::new(pilots.as_slice()),
                List::new(remap.as_slice()),
                (List::new(&stored_keys), List::new(&stored_values)),
            );
            for (i, key) in keys.iter().enumerate() {
                assert_eq!(map.get(key.as_slice()), Some(values[i]));
            }
            assert_eq!(map.get(b"none".as_slice()), None);
        }
        _ => panic!("expected the bucketed strategy"),
    }

    let out = MapBuilder::<Vec<u8>, BytesOrd, BytesHash, NextSeed>::new()
        .set_seed(FIXED_SEED)
        .set_hash(|seed, key: &Vec<u8>| Xx3::hash_one(seed, key))
        .build(&keys)
        .unwrap();
    let stored_keys: Vec<&[u8]> = out.reorder(&keys).into_iter().map(|k| k.as_slice()).collect();
    let stored_values: Vec<u32> = out.reorder(&values).into_iter().copied().collect();
    match &out.kind {
        MapKind::Medium { seed, slots, pilots, remap } => {
            let map = MediumMap::<_, _, _, Xx3>::new(
                *seed,
                *slots,
                List::new(pilots.as_slice()),
                List::new(remap.as_slice()),
                (List::new(&stored_keys), List::new(&stored_values)),
            );
            for (i, key) in keys.iter().enumerate() {
                assert_eq!(map.get(key.as_slice()), Some(values[i]));
            }
            assert_eq!(map.get(b"none".as_slice()), None);
        }
        _ => panic!("expected the bucketed strategy"),
    }
}

#[test]
fn hash_adapters_match_their_crates() {
    let mut sip = siphasher::sip::SipHasher13::new_with_keys(5, 0);
    sip.write(b"hello");
    assert_eq!(Sip::hash_one(5, b"hello"), sip.finish());
    assert_ne!(Sip::hash_one(5, b"hello"), Sip::hash_one(6, b"hello"));
    assert_eq!(Xx3::hash_one(5, b"hello"), xxhash_rust::xxh3::xxh3_64_with_seed(b"hello", 5));
    assert_ne!(Xx3::hash_one(5, b"hello"), 5);
    let mut std_hasher = DefaultHasher::new();
    std_hasher.write_u64(5);
    std_hasher.write(b"hello");
    assert_eq!(Std::hash_one(5, b"hello"), std_hasher.finish());
}
