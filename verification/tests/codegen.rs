use std::cmp::Ordering;
use std::collections::hash_map::DefaultHasher;

use precomputed_map::aligned::AlignedArray;
use precomputed_map::builder::codegen::{CodeBuilder, OutputKind, ReferenceId, U32SeqWriter, U8SeqWriter};
use precomputed_map::builder::{MapBuilder, MapKind, MapOutput};
use precomputed_map::hash::U64Hasher;
use precomputed_map::phf::HashOne;
use precomputed_map::seq::PositionSeq;
use precomputed_map::store::List;
use precomputed_map::MediumMap;

type Std = U64Hasher<DefaultHasher>;

type KeyOrd = fn(&Vec<u8>, &Vec<u8>) -> Ordering;

type KeyHash = fn(u64, &Vec<u8>) -> u64;

type NextSeed = fn(u64, u64) -> u64;

fn std_hash(seed: u64, key: &Vec<u8>) -> u64 {
    Std::hash_one(seed, key)
}

fn emitter() -> CodeBuilder {
    CodeBuilder::new(
        "str2id".to_string(),
        "Default".to_string(),
        U8SeqWriter::new("PrecomputedU8Seq".to_string(), "str2id.bytes".to_string()),
        U32SeqWriter::new("PrecomputedU32Seq".to_string(), "str2id.u32seq".to_string()),
    )
}

fn hashed(keys: &[Vec<u8>]) -> MapOutput {
    MapBuilder::<Vec<u8>, KeyOrd, KeyHash, NextSeed>::new()
        .set_seed(17162376839062016489)
        .set_hash(std_hash)
        .build(keys)
        .unwrap()
}

#[test]
fn short_sequences_are_written_into_the_source() {
    let mut cb = emitter();
    let keys = cb.create_bytes_position_seq("KEYS".to_string(), &vec![b"ab".to_vec(), vec![], vec![7, 200]]);
    let values = cb.create_u32_seq("VALUES".to_string(), &vec![10, 0, 4294967295]);
    let pair = cb.create_pair(keys, values);
    assert_eq!((keys.0, values.0, pair.0), (0, 1, 2));
    let out = MapOutput { kind: MapKind::Small(42), index: vec![0, 1, 2] };
    let map = out.create_map("MAP".to_string(), pair, &mut cb);
    assert_eq!(map.0, 3);
    let (text, bytes, ints) = cb.write_to();
    assert_eq!(
        text,
        "precomputed_map::define!(const KEYS: &[&'static [u8]; 3] = &[&[97, 98],&[],&[7, 200],]);\n\
         precomputed_map::define!(const VALUES: &[u32; 3] = &[10,0,4294967295,]);\n\
         const MAP: precomputed_map::SmallMap<(KEYS, VALUES), Default> = precomputed_map::SmallMap::new(42);\n"
    );
    // nothing went to the blobs: no line includes them
    assert_eq!(bytes.count(), 0);
    assert_eq!(ints.count(), 0);
    assert_eq!(bytes.write_to(), "");
    assert_eq!(ints.write_to(), "");
}

#[test]
fn sorted_keys_can_be_searched() {
    let mut cb = emitter();
    cb.set_visibility(Some("crate".to_string()));
    let out = MapOutput { kind: MapKind::Tiny, index: vec![0, 1] };
    let keys = cb.create_keys(
        "KEYS".to_string(),
        "&'static str".to_string(),
        &out,
        &vec!["\"a\"".to_string(), "\"b\"".to_string()],
    );
    let map = out.create_map("MAP".to_string(), keys, &mut cb);
    assert_eq!(map.0, 1);
    let (text, _, _) = cb.write_to();
    assert_eq!(
        text,
        "precomputed_map::define!(const searchable KEYS: &[&'static str; 2] = &[\"a\",\"b\",]);\n\
         pub(crate) const MAP: precomputed_map::TinyMap<KEYS> = precomputed_map::TinyMap::new();\n"
    );
}

#[test]
fn long_sequences_go_to_the_blobs() {
    let mut cb = emitter();
    let items: Vec<Vec<u8>> = (0..17u8).map(|i| vec![i; usize::from(i % 3)]).collect();
    let keys = cb.create_bytes_position_seq("KEYS".to_string(), &items);
    // the end offsets are entry 0, the byte strings entry 1
    assert_eq!(keys.0, 1);
    let values: Vec<u32> = (0..1025).collect();
    let ids = cb.create_u32_seq("IDS".to_string(), &values);
    assert_eq!(ids.0, 2);
    let custom = cb.create_custom("Other".to_string());
    let pair = cb.create_pair(keys, custom);
    assert_eq!(pair.0, 4);

    assert_eq!(cb.u8seq_writer.count(), 16);
    assert_eq!(cb.u32seq_writer.count(), 4 * 1025);
    assert!(matches!(cb.list[1].kind, OutputKind::BytesPositionSeq { offset: 0, len: 16, index: ReferenceId(0) }));
    assert!(matches!(cb.list[2].kind, OutputKind::U32Seq { offset: 0, len: 4100 }));
    // little-endian, four bytes each
    assert_eq!(&cb.u32seq_writer.bytes[4 * 258..4 * 259], &[2, 1, 0, 0]);

    let (text, bytes, ints) = cb.write_to();
    let positions = "&[0,1,3,3,4,6,6,7,9,9,10,12,12,13,15,15,16,]";
    assert_eq!(
        text,
        format!(
            "precomputed_map::define!(const PrecomputedListstr2id0: &[u32; 17] = {});\n\
             type KEYS = precomputed_map::seq::PositionSeq<PrecomputedListstr2id0, \
             precomputed_map::store::SliceData<0, 16, PrecomputedU8Seq>>;\n\
             type IDS = precomputed_map::aligned::AlignedArray<4100, u32, \
             precomputed_map::store::SliceData<0, 4100, PrecomputedU32Seq>>;\n",
            positions
        )
    );
    assert_eq!(
        bytes.write_to(),
        "precomputed_map::define!(const PrecomputedU8Seq: &[u8; 16] = include \"str2id.bytes\");\n"
    );
    assert_eq!(
        ints.write_to(),
        "precomputed_map::define!(const PrecomputedU32Seq: &[u8 align u32; 4100] = include \"str2id.u32seq\");\n"
    );
}

#[test]
fn bucketed_map_brings_pilots_and_remap() {
    let keys: Vec<Vec<u8>> = (0..200).map(|i| format!("key{}", i).into_bytes()).collect();
    let out = hashed(&keys);
    let mut cb = emitter();
    let data = cb.create_custom("Data".to_string());
    let map = out.create_map("MAP".to_string(), data, &mut cb);
    assert_eq!(map.0, 3);
    match (&cb.list[3].kind, &out.kind) {
        (
            OutputKind::Medium { seed, slots, pilots, remap, data },
            MapKind::Medium { seed: built_seed, slots: built_slots, pilots: built_pilots, remap: built_remap },
        ) => {
            assert_eq!(seed, built_seed);
            assert_eq!(slots, built_slots);
            assert_eq!((pilots.0, remap.0, data.0), (1, 2, 0));
            assert!(matches!(&cb.list[1].kind, OutputKind::List { len, .. } if *len == built_pilots.len()));
            assert!(matches!(&cb.list[2].kind, OutputKind::List { len, .. } if *len == built_remap.len()));
        }
        _ => panic!("expected the bucketed strategy"),
    }
    let seed = out.seed().unwrap();
    let (text, _, _) = cb.write_to();
    let last = text.lines().last().unwrap();
    assert_eq!(
        last,
        format!(
            "const MAP: precomputed_map::MediumMap<PrecomputedListstr2id1, PrecomputedListstr2id2, Data, Default> \
             = precomputed_map::MediumMap::new({}, 203);",
            seed
        )
    );
}

#[test]
fn emitted_blobs_read_back_as_the_map() {
    let entries: Vec<(Vec<u8>, u32)> = (0u32..10_000)
        .map(|id| {
            let hash = Std::hash_one(0, &id.to_le_bytes());
            (format!("{:x}{}", hash, id).into_bytes(), u32::try_from(hash & 0xffff_ffff).unwrap() ^ id)
        })
        .collect();
    let keys: Vec<Vec<u8>> = entries.iter().map(|e| e.0.clone()).collect();
    let values: Vec<u32> = entries.iter().map(|e| e.1).collect();
    let out = hashed(&keys);

    let mut cb = emitter();
    let stored_keys: Vec<Vec<u8>> = out.reorder(&keys).into_iter().cloned().collect();
    let stored_values: Vec<u32> = out.reorder(&values).into_iter().copied().collect();
    let k = cb.create_bytes_position_keys("STR2ID_STR".to_string(), &out, &stored_keys);
    let v = cb.create_u32_seq("STR2ID_ID".to_string(), &stored_values);
    let pair = cb.create_pair(k, v);
    let map = out.create_map("STR2ID_MAP".to_string(), pair, &mut cb);

    // where the entries point into the blobs
    let (key_at, key_len, key_index) = match &cb.list[k.0].kind {
        OutputKind::BytesPositionSeq { offset, len, index } => (*offset, *len, index.0),
        _ => panic!("keys are byte strings in the blob"),
    };
    let (ends_at, ends_len) = match &cb.list[key_index].kind {
        OutputKind::U32Seq { offset, len } => (*offset, *len),
        _ => panic!("end offsets are in the blob of integers"),
    };
    let (values_at, values_len) = match &cb.list[v.0].kind {
        OutputKind::U32Seq { offset, len } => (*offset, *len),
        _ => panic!("values are in the blob of integers"),
    };
    let (seed, slots, pilots_id, remap_id) = match &cb.list[map.0].kind {
        OutputKind::Medium { seed, slots, pilots, remap, .. } => (*seed, *slots, pilots.0, remap.0),
        _ => panic!("expected the bucketed strategy"),
    };
    let (pilots_at, pilots_len) = match &cb.list[pilots_id].kind {
        OutputKind::U8Seq { offset, len } => (*offset, *len),
        _ => panic!("3337 pilots are in the blob of bytes"),
    };
    assert!(matches!(&cb.list[remap_id].kind, OutputKind::List { len, .. } if *len == 102));
    let remap = match &out.kind {
        MapKind::Medium { remap, .. } => remap.clone(),
        _ => panic!("expected the bucketed strategy"),
    };

    let (_, bytes, ints) = cb.write_to();
    let bytes: Vec<u8> = bytes.bytes;
    let ints: Vec<u8> = ints.bytes;

    let key_seq = PositionSeq::new(
        AlignedArray::<u32, &[u8]>::new(&ints[ends_at..ends_at + ends_len]),
        &bytes[key_at..key_at + key_len],
    );
    let value_seq = AlignedArray::<u32, &[u8]>::new(&ints[values_at..values_at + values_len]);
    let lookup = MediumMap::<_, _, _, Std>::new(
        seed,
        slots,
        &bytes[pilots_at..pilots_at + pilots_len],
        List::new(remap.as_slice()),
        (key_seq, value_seq),
    );
    assert_eq!(lookup.len(), 10_000);
    for (key, value) in &entries {
        assert_eq!(lookup.get(key.as_slice()), Some(*value));
        let mut other = key.clone();
        other.push(0);
        assert_eq!(lookup.get(other.as_slice()), None);
    }
}
