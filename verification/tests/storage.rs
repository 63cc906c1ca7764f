use precomputed_map::aligned::{read_le_u32, AlignedArray, AlignedBytes};
use precomputed_map::builder::text::{bytes_literal, decimal};
use precomputed_map::chd::displace;
use precomputed_map::equivalent::{bytes_eq, bytes_order, Comparable, Equivalent, Hashable};
use precomputed_map::hash::Sip;
use precomputed_map::phf::HashOne;
use precomputed_map::phf::{fast_reduct32, hash_pilot, high, low};
use precomputed_map::seq::{pooled_unpack, CompactSeq, PooledSeq, PositionSeq};
use precomputed_map::store::{AccessSeq, AsData, ConstSlice, List, MapIter, MapStore, Ordered, Searchable, SliceData};
use precomputed_map::util::{fast_reduct64, U64Array};
use std::cmp::Ordering;

#[test]
fn halves_of_a_hash() {
    assert_eq!(high(0x1234_5678_9abc_def0), 0x1234_5678);
    assert_eq!(low(0x1234_5678_9abc_def0), 0x9abc_def0);
}

#[test]
fn range_reduction_is_multiply_shift() {
    assert_eq!(fast_reduct32(0, 10), 0);
    assert_eq!(fast_reduct32(u32::MAX, 10), 9);
    assert_eq!(fast_reduct32(0x8000_0000, 10), 5);
    assert_eq!(fast_reduct32(0x8000_0000, 0), 0);
    assert_eq!(fast_reduct32(123_456_789, 1000), 28);
    assert_eq!(fast_reduct64(u64::MAX, 10), 9);
    assert_eq!(fast_reduct64(1 << 63, 7), 3);
    assert_eq!(fast_reduct64(5, 0), 0);
}

#[test]
fn pilot_hash_is_a_wrapping_product() {
    assert_eq!(hash_pilot(0, 0), 0);
    assert_eq!(hash_pilot(0, 1), 0x517cc1b727220a95);
    assert_eq!(hash_pilot(1, 1), 0);
    assert_eq!(hash_pilot(u64::MAX, 0), 0x517cc1b727220a95u64.wrapping_neg());
    assert_eq!(hash_pilot(0x100, 0x42), 0x517cc1b727220a95u64.wrapping_mul(0x142));
}

#[test]
fn displacement_wraps() {
    assert_eq!(displace(1, 2, 3, 4), 11);
    assert_eq!(displace(u32::MAX, 1, 1, 1), 1);
    assert_eq!(displace(0, 0x8000_0000, 2, 5), 5);
}

#[test]
fn pooled_id_splits_at_bit_24() {
    assert_eq!(pooled_unpack(0), (0, 0));
    assert_eq!(pooled_unpack(0x0500_0010), (0x10, 5));
    assert_eq!(pooled_unpack(u32::MAX), (0xff_ffff, 0xff));
}

#[test]
fn little_endian_integers() {
    let bytes = [0x78, 0x56, 0x34, 0x12, 0xff, 0xff, 0xff, 0xff, 1, 0, 0, 0];
    assert_eq!(read_le_u32(&bytes, 0), 0x1234_5678);
    assert_eq!(read_le_u32(&bytes, 1), 0xff12_3456);
    let ints = AlignedArray::<u32, &[u8]>::new(&bytes[..]);
    assert_eq!(AccessSeq::len(&ints), 3);
    assert_eq!(ints.index(0), Some(0x1234_5678));
    assert_eq!(ints.index(1), Some(u32::MAX));
    assert_eq!(ints.index(2), Some(1));
    assert_eq!(ints.index(3), None);

    let wide = U64Array { bytes: &bytes[..] };
    assert_eq!(wide.get_u64(0), Some(0xffff_ffff_1234_5678));
    assert_eq!(wide.get_u64(1), None);
    assert_eq!(wide.get_u64(usize::MAX), None);
}

#[test]
fn parts_of_a_blob() {
    let blob: Vec<u8> = (0..32).collect();
    let part = ConstSlice::<4, 8>::new(&blob);
    assert_eq!(part.as_data(), &[4, 5, 6, 7, 8, 9, 10, 11]);
    assert_eq!(AccessSeq::len(&part), 8);
    assert_eq!(part.index(0), Some(4));
    assert_eq!(part.index(7), Some(11));
    assert_eq!(part.index(8), None);

    let inner = SliceData::<2, 3, _>::new(ConstSlice::<4, 8>::new(&blob));
    assert_eq!(inner.as_data(), &[6, 7, 8]);
    assert_eq!(inner.index(2), Some(8));
    assert_eq!(inner.index(3), None);
    // a sequence without values gives out positions
    assert_eq!(inner.get_key(1), Some(7));
    assert_eq!(inner.get_value(1), Some(1));
    assert_eq!(inner.get_value(3), None);
}

#[test]
fn byte_strings_by_end_offsets() {
    let content = b"abcde";
    let positions = [2u32, 2, 5];
    let seq = PositionSeq::new(List::new(&positions[..]), &content[..]);
    assert_eq!(AccessSeq::len(&seq), 3);
    assert_eq!(seq.index(0), Some(&b"ab"[..]));
    assert_eq!(seq.index(1), Some(&b""[..]));
    assert_eq!(seq.index(2), Some(&b"cde"[..]));
    assert_eq!(seq.index(3), None);

    let compact = CompactSeq::new(List::new(&positions[..]), &content[..]);
    assert_eq!(compact.index(0), b"ab");
    assert_eq!(compact.index(2), b"cde");
}

#[test]
fn byte_strings_by_pooled_ids() {
    let pool = b"hello world";
    // "world" at 6, "hello" at 0, "o w" at 4
    let ids = [0x0500_0006u32, 0x0500_0000, 0x0300_0004];
    let seq = PooledSeq::new(List::new(&ids[..]), &pool[..]);
    assert_eq!(seq.index(0), Some(&b"world"[..]));
    assert_eq!(seq.index(1), Some(&b"hello"[..]));
    assert_eq!(seq.index(2), Some(&b"o w"[..]));
    assert_eq!(seq.index(3), None);
}

#[test]
fn byte_strings_compare_lexicographically() {
    assert!(bytes_eq(b"abc", b"abc"));
    assert!(!bytes_eq(b"abc", b"abd"));
    assert!(!bytes_eq(b"abc", b"ab"));
    assert_eq!(bytes_order(b"", b""), Ordering::Equal);
    assert_eq!(bytes_order(b"", b"a"), Ordering::Less);
    assert_eq!(bytes_order(b"a", b""), Ordering::Greater);
    assert_eq!(bytes_order(b"ab", b"abc"), Ordering::Less);
    assert_eq!(bytes_order(b"abd", b"abc"), Ordering::Greater);
    assert_eq!(bytes_order(b"b", b"abc"), Ordering::Greater);
    assert_eq!(bytes_order(b"abc", b"abc"), Ordering::Equal);
    let stored: &[u8] = b"abc";
    assert!(b"abc"[..].equivalent(&stored));
    assert_eq!(b"abd"[..].compare(&stored), Ordering::Greater);
    assert!(7u32.equivalent(&7));
    assert_eq!(7u32.compare(&9), Ordering::Less);
}

#[test]
fn ordered_store_is_searched() {
    let keys = [1u32, 4, 9, 16, 25];
    let values = [10u32, 40, 90, 160, 250];
    let store = Ordered((List::new(&keys[..]), List::new(&values[..])));
    assert_eq!(MapStore::len(&store), 5);
    assert_eq!(store.search(&1u32), Some(0));
    assert_eq!(store.search(&16u32), Some(3));
    assert_eq!(store.search(&25u32), Some(4));
    assert_eq!(store.search(&0u32), None);
    assert_eq!(store.search(&10u32), None);
    assert_eq!(store.search(&26u32), None);
    assert_eq!(store.get_value(3), Some(160));

    let mut walk = MapIter::new(&store);
    assert_eq!(walk.len(), 5);
    assert_eq!(walk.next(), Some((1, 10)));
    assert_eq!(walk.next(), Some((4, 40)));
    assert_eq!(walk.next(), Some((9, 90)));
    assert_eq!(walk.next(), Some((16, 160)));
    assert_eq!(walk.next(), Some((25, 250)));
    assert_eq!(walk.next(), None);
    assert_eq!(walk.next(), None);
}

#[test]
fn numbers_and_bytes_as_text() {
    assert_eq!(decimal(0), "0");
    assert_eq!(decimal(7), "7");
    assert_eq!(decimal(10), "10");
    assert_eq!(decimal(1905), "1905");
    assert_eq!(decimal(u64::MAX), "18446744073709551615");
    assert_eq!(bytes_literal(&vec![]), "&[]");
    assert_eq!(bytes_literal(&vec![0]), "&[0]");
    assert_eq!(bytes_literal(&vec![1, 20, 255]), "&[1, 20, 255]");
    assert_eq!(bytes_literal(&vec![1, 20, 255]), format!("&{:?}", [1u8, 20, 255]));
}

#[test]
fn aligned_bytes_are_a_blob() {
    let wrapped: AlignedBytes<8, u32> = AlignedBytes { align: [], bytes: [1, 0, 0, 0, 2, 0, 0, 0] };
    let ints = AlignedArray::<u32, _>::new(&wrapped);
    assert_eq!(ints.index(0), Some(1));
    assert_eq!(ints.index(1), Some(2));
    assert_eq!(ints.index(2), None);
    assert_eq!((&wrapped).as_data(), &[1, 0, 0, 0, 2, 0, 0, 0]);
}

#[test]
fn numbers_hash_as_their_bytes() {
    let by_trait = <u32 as Hashable<Sip>>::hash(&0x0403_0201, 9);
    assert_eq!(by_trait, Sip::hash_one(9, &[1, 2, 3, 4]));
    let by_trait = <[u8] as Hashable<Sip>>::hash(&[1, 2, 3, 4][..], 9);
    assert_eq!(by_trait, Sip::hash_one(9, &[1, 2, 3, 4]));
}
