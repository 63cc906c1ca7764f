use std::cmp::Ordering;
use std::collections::hash_map::DefaultHasher;
use std::hash::{Hash, Hasher};
use std::ops::Range;
use std::time::Instant;

use precomputed_map::builder::medium::{buckets_len, is_power_of_two, place_medium, slots_len};
use precomputed_map::builder::seed::default_next_seed;
use precomputed_map::builder::small::place_small;
use precomputed_map::builder::{MapBuilder, MapKind};

type RangeOrd = fn(&Range<usize>, &Range<usize>) -> Ordering;

#[test]
fn test_build_ptrhash() {
    let start = Instant::now();

    let n = 1024 * 1024;
    let (s, keys) = {
        let mut s = String::new();
        let mut keys = Vec::with_capacity(n);

        for i in 0..n {
            let start = s.len();
            s.push_str(&format!("{}", i));
            keys.push(start..s.len());
        }

        (s, keys)
    };

    println!("start: {:?}", start.elapsed());

    let output = MapBuilder::<Range<usize>, RangeOrd, _, _>::new()
        .set_seed(3559301822128966697)
        .set_hash(&|key, v: &Range<usize>| {
            let mut hasher = DefaultHasher::new();
            hasher.write_u64(key);
            s[v.clone()].hash(&mut hasher);
            hasher.finish()
        })
        .set_next_seed(|key, c| {
            let mut hasher = DefaultHasher::new();
            hasher.write_u64(key);
            hasher.write_u64(c);
            hasher.finish()
        })
        .build(&keys)
        .unwrap();

    println!("build done: {:?}", start.elapsed());

    if let MapKind::Medium { seed, .. } = &output.kind {
        assert_eq!(3559301822128966697, *seed);
    }
}

#[test]
fn larger_bucket_is_placed_first() {
    // three keys, four buckets, five slots, seed 0: key 0 is alone in bucket 1,
    // keys 1 and 2 share bucket 3; under pilot 0 the keys 0 and 1 both take
    // slot 0. The bucket of two goes first and gets pilot 0; the bucket of
    // one has to move on to pilot 1, which sends its key to slot 2.
    let hashes: Vec<u64> = vec![0x0000_0000_4000_0000, 0x0000_0000_c000_0000, 0x4000_0000_c000_0000];
    let out = place_medium(&hashes, 0).unwrap();
    match out.kind {
        MapKind::Medium { seed, slots, pilots, remap } => {
            assert_eq!(seed, 0);
            assert_eq!(slots, 5);
            assert_eq!(pilots, vec![0, 1, 0, 0]);
            assert_eq!(remap, vec![0, 0]);
        }
        _ => panic!("expected the bucketed strategy"),
    }
    assert_eq!(out.index, vec![1, 2, 0]);
}

#[test]
fn tail_keys_take_the_empty_dense_slots() {
    // two keys, four buckets, three slots, seed 0: under pilot 0 key 0 takes
    // slot 1 and key 1 takes slot 2, which lies in the tail; the remap entry
    // of slot 2 names the empty slot 0
    let hashes: Vec<u64> = vec![0x6000_0000_0000_0000, 0xc000_0000_4000_0000];
    let out = place_medium(&hashes, 0).unwrap();
    match out.kind {
        MapKind::Medium { slots, pilots, remap, .. } => {
            assert_eq!(slots, 3);
            assert_eq!(pilots, vec![0, 0, 0, 0]);
            assert_eq!(remap, vec![0]);
        }
        _ => panic!("expected the bucketed strategy"),
    }
    assert_eq!(out.index, vec![1, 0]);
}

#[test]
fn single_level_placement_by_hand() {
    // four keys: the slot is the top two bits of the xor of the two halves
    let hashes: Vec<u64> = vec![0xc000_0000_0000_0000, 0x0000_0000_4000_0000, 0x8000_0000_8000_0000, 0x4000_0000_c000_0000];
    // slots 3, 1, 0, 2
    assert_eq!(place_small(&hashes), Some(vec![2, 1, 3, 0]));
    let clash: Vec<u64> = vec![0xc000_0000_0000_0000, 0x0000_0000_c000_0000];
    assert_eq!(place_small(&clash), None);
    assert_eq!(place_small(&Vec::new()), Some(Vec::new()));
}

#[test]
fn geometry_of_the_bucketed_table() {
    assert_eq!(slots_len(0), 0);
    assert_eq!(slots_len(1), 3);
    assert_eq!(slots_len(99), 100);
    assert_eq!(slots_len(100), 102);
    assert_eq!(slots_len(1013), 1025);
    assert_eq!(slots_len(10_485_760), 10_591_677);
    assert_eq!(buckets_len(0), 3);
    assert_eq!(buckets_len(1), 4);
    assert_eq!(buckets_len(3), 4);
    assert_eq!(buckets_len(4), 5);
    assert_eq!(buckets_len(10_485_760), 3_495_257);
    assert!(is_power_of_two(1));
    assert!(is_power_of_two(1 << 31));
    assert!(!is_power_of_two(0));
    assert!(!is_power_of_two(12));
}

#[test]
fn too_many_keys_are_refused() {
    let keys = vec![0u8; 10 * 1024 * 1024 + 1];
    let err = MapBuilder::<u8, fn(&u8, &u8) -> Ordering, fn(u64, &u8) -> u64, fn(u64, u64) -> u64>::new()
        .set_hash(|seed, key| seed ^ u64::from(*key))
        .build(&keys)
        .unwrap_err();
    assert_eq!(err.0, "too large");
    // the size counts before the missing hash function does
    let err = MapBuilder::<u8, fn(&u8, &u8) -> Ordering, fn(u64, &u8) -> u64, fn(u64, u64) -> u64>::default()
        .build(&keys)
        .unwrap_err();
    assert_eq!(err.0, "too large");
}

#[test]
fn default_progression_is_the_standard_digest() {
    let mut hasher = DefaultHasher::new();
    hasher.write_u64(7);
    hasher.write_u64(3);
    assert_eq!(default_next_seed(7, 3), hasher.finish());
    assert_ne!(default_next_seed(7, 3), default_next_seed(7, 4));
    assert_ne!(default_next_seed(7, 3), 7);
}

#[test]
fn without_a_seed_the_builder_draws_one() {
    let keys: Vec<Vec<u8>> = (0..300).map(|i| format!("item-{}", i).into_bytes()).collect();
    let build = || {
        MapBuilder::<Vec<u8>, fn(&Vec<u8>, &Vec<u8>) -> Ordering, _, fn(u64, u64) -> u64>::new()
            .set_hash(|seed, key: &Vec<u8>| {
                let mut hasher = DefaultHasher::new();
                hasher.write_u64(seed);
                hasher.write(key);
                hasher.finish()
            })
            .build(&keys)
            .unwrap()
    };
    // two searches start at seeds of their own
    assert_ne!(build().seed(), build().seed());
}

#[test]
fn two_builds_give_one_map() {
    let keys: Vec<Vec<u8>> = (0..5000).map(|i| format!("item-{}", i).into_bytes()).collect();
    let build = || {
        MapBuilder::<Vec<u8>, fn(&Vec<u8>, &Vec<u8>) -> Ordering, _, fn(u64, u64) -> u64>::new()
            .set_seed(99)
            .set_hash(|seed, key: &Vec<u8>| {
                let mut hasher = DefaultHasher::new();
                hasher.write_u64(seed);
                hasher.write(key);
                hasher.finish()
            })
            .build(&keys)
            .unwrap()
    };
    let first = build();
    let second = build();
    assert_eq!(first.seed(), second.seed());
    assert_eq!(first.index, second.index);
    match (first.kind, second.kind) {
        (
            MapKind::Medium { slots, pilots, remap, .. },
            MapKind::Medium { slots: slots2, pilots: pilots2, remap: remap2, .. },
        ) => {
            assert_eq!(slots, slots2);
            assert_eq!(pilots, pilots2);
            assert_eq!(remap, remap2);
            // the table is nearly full: some bucket had to move off pilot 0
            assert!(pilots.iter().any(|&p| p >= 1));
        }
        _ => panic!("expected the bucketed strategy"),
    }
}

#[test]
fn setters_keep_what_was_set() {
    let mut builder = MapBuilder::<u8, fn(&u8, &u8) -> Ordering, fn(u64, &u8) -> u64, fn(u64, u64) -> u64>::new();
    assert_eq!(builder.seed, None);
    assert_eq!(builder.limit, None);
    assert!(!builder.force);
    assert!(builder.ord.is_none() && builder.hash.is_none() && builder.next_seed.is_none());
    builder.set_seed(5).set_limit(Some(9)).set_force(true);
    assert_eq!(builder.seed, Some(5));
    assert_eq!(builder.limit, Some(9));
    assert!(builder.force);
    builder.set_limit(None).set_force(false);
    assert_eq!(builder.seed, Some(5));
    assert_eq!(builder.limit, None);
    assert!(!builder.force);
}
