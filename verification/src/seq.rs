//! Sequences of byte strings that are packed into one blob.

use vstd::prelude::*;
use vstd::slice::slice_subrange;
use crate::aligned::{le_bytes_u32s, le_u32_items, lemma_le_u32s_round_trip};
use crate::store::{AccessSeq, AsData};

verus! {

/// Number of bits that a pooled id keeps for the offset.
pub const POOLED_OFFSET_BITS: u32 = 24;

/// Start of item `i`: the end of the item before it, or zero.
pub open spec fn item_start(positions: Seq<u32>, i: int) -> int {
    if i == 0 {
        0
    } else {
        positions[i - 1] as int
    }
}

/// The end offsets do not decrease and stay inside `total` bytes.
pub open spec fn positions_fit(positions: Seq<u32>, total: nat) -> bool {
    forall|i: int| 0 <= i < positions.len() ==> item_start(positions, i) <= #[trigger] positions[i] <= total
}

/// The items that the end offsets cut out of `content`.
pub open spec fn cut_items(positions: Seq<u32>, content: Seq<u8>) -> Seq<Seq<u8>> {
    Seq::new(positions.len(), |i: int| content.subrange(item_start(positions, i), positions[i] as int))
}

/// Byte strings stored back to back, with the end offset of each.
///
/// Item `i` is `content[positions[i - 1] .. positions[i]]`, where the
/// position before the first is zero.
pub struct PositionSeq<SEQ, BUF> {
    pub positions: SEQ,
    pub content: BUF,
}

impl<'data, SEQ: AccessSeq<'data, Item = u32>, BUF: AsData<'data>> PositionSeq<SEQ, BUF> {
    /// The byte strings that `positions` cuts out of `content`.
    pub fn new(positions: SEQ, content: BUF) -> (r: Self)
        ensures
            r.positions == positions,
            r.content == content,
    {
        PositionSeq { positions, content }
    }
}

impl<'data, SEQ: AccessSeq<'data, Item = u32>, BUF: AsData<'data>> AccessSeq<'data> for PositionSeq<SEQ, BUF> {
    type Item = &'data [u8];

    open spec fn valid_seq(&self) -> bool {
        &&& self.positions.valid_seq()
        &&& self.content.valid_data()
        &&& positions_fit(self.positions.items(), self.content.data().len())
    }

    open spec fn items(&self) -> Seq<Seq<u8>> {
        cut_items(self.positions.items(), self.content.data())
    }

    fn len(&self) -> (n: usize) {
        self.positions.len()
    }

    fn index(&self, index: usize) -> (r: Option<&'data [u8]>) {
        if index >= self.positions.len() {
            return None;
        }
        let start: usize = if index == 0 {
            0
        } else {
            self.positions.index(index - 1).unwrap() as usize
        };
        let end: usize = self.positions.index(index).unwrap() as usize;
        let content = self.content.as_data();
        assert(item_start(self.positions.items(), index as int) <= self.positions.items()[index as int]);
        Some(slice_subrange(content, start, end))
    }
}

/// Byte strings stored back to back, with the end offset of each, read
/// without a check: a position past the end is the caller's error.
pub struct CompactSeq<SEQ, BUF> {
    pub positions: SEQ,
    pub content: BUF,
}

impl<'data, SEQ: AccessSeq<'data, Item = u32>, BUF: AsData<'data>> CompactSeq<SEQ, BUF> {
    /// The byte strings that `positions` cuts out of `content`.
    pub fn new(positions: SEQ, content: BUF) -> (r: Self)
        ensures
            r.positions == positions,
            r.content == content,
    {
        CompactSeq { positions, content }
    }

    /// The offsets are usable and fit the content.
    pub open spec fn valid(&self) -> bool {
        &&& self.positions.valid_seq()
        &&& self.content.valid_data()
        &&& positions_fit(self.positions.items(), self.content.data().len())
    }

    /// The item at `index`.
    pub fn index(&self, index: usize) -> (r: &'data [u8])
        requires
            self.valid(),
            index < self.positions.items().len(),
        ensures
            r@ == cut_items(self.positions.items(), self.content.data())[index as int],
    {
        let start: usize = if index == 0 {
            0
        } else {
            self.positions.index(index - 1).unwrap() as usize
        };
        let end: usize = self.positions.index(index).unwrap() as usize;
        let content = self.content.as_data();
        assert(item_start(self.positions.items(), index as int) <= self.positions.items()[index as int]);
        slice_subrange(content, start, end)
    }
}

/// Offset of a pooled id: its low 24 bits.
pub open spec fn pooled_offset(n: u32) -> u32 {
    n & 0xff_ffff
}

/// Length of a pooled id: its high 8 bits.
pub open spec fn pooled_len(n: u32) -> u32 {
    n >> 24
}

/// Splits a pooled id into the offset and the length of its byte string.
pub fn pooled_unpack(n: u32) -> (r: (usize, usize))
    ensures
        r.0 == pooled_offset(n),
        r.1 == pooled_len(n),
        r.0 < 0x100_0000,
        r.1 < 0x100,
{
    assert(n & 0xff_ffff < 0x100_0000) by (bit_vector);
    assert(n >> 24 < 0x100) by (bit_vector);
    assert((1u32 << 24) - 1 == 0xff_ffff) by (bit_vector);
    let offset = (n & ((1u32 << POOLED_OFFSET_BITS) - 1)) as usize;
    let len = (n >> POOLED_OFFSET_BITS) as usize;
    (offset, len)
}

/// Every id names a byte string inside a pool of `total` bytes.
pub open spec fn ids_fit(ids: Seq<u32>, total: nat) -> bool {
    forall|i: int| 0 <= i < ids.len() ==> pooled_offset(#[trigger] ids[i]) + pooled_len(ids[i]) <= total
}

/// The byte strings that the ids name in `pool`.
pub open spec fn pooled_items(ids: Seq<u32>, pool: Seq<u8>) -> Seq<Seq<u8>> {
    Seq::new(
        ids.len(),
        |i: int| pool.subrange(pooled_offset(ids[i]) as int, pooled_offset(ids[i]) + pooled_len(ids[i])),
    )
}

/// Short byte strings that are kept once in a pool and named by packed ids:
/// the offset in the low 24 bits, the length in the high 8 bits.
pub struct PooledSeq<SEQ, BUF> {
    pub ids: SEQ,
    pub pool: BUF,
}

impl<'data, SEQ: AccessSeq<'data, Item = u32>, BUF: AsData<'data>> PooledSeq<SEQ, BUF> {
    /// The byte strings that `ids` names in `pool`.
    pub fn new(ids: SEQ, pool: BUF) -> (r: Self)
        ensures
            r.ids == ids,
            r.pool == pool,
    {
        PooledSeq { ids, pool }
    }
}

impl<'data, SEQ: AccessSeq<'data, Item = u32>, BUF: AsData<'data>> AccessSeq<'data> for PooledSeq<SEQ, BUF> {
    type Item = &'data [u8];

    open spec fn valid_seq(&self) -> bool {
        &&& self.ids.valid_seq()
        &&& self.pool.valid_data()
        &&& ids_fit(self.ids.items(), self.pool.data().len())
    }

    open spec fn items(&self) -> Seq<Seq<u8>> {
        pooled_items(self.ids.items(), self.pool.data())
    }

    fn len(&self) -> (n: usize) {
        self.ids.len()
    }

    fn index(&self, index: usize) -> (r: Option<&'data [u8]>) {
        match self.ids.index(index) {
            None => None,
            Some(id) => {
                let (offset, len) = pooled_unpack(id);
                let pool = self.pool.as_data();
                assert(pooled_offset(self.ids.items()[index as int]) + pooled_len(self.ids.items()[index as int])
                    <= pool@.len());
                Some(slice_subrange(pool, offset, offset + len))
            },
        }
    }
}

/// The byte strings one after the other.
pub open spec fn packed(items: Seq<Seq<u8>>) -> Seq<u8>
    decreases items.len(),
{
    if items.len() == 0 {
        Seq::empty()
    } else {
        packed(items.drop_last()) + items.last()
    }
}

/// The end offset of each byte string in [`packed`].
pub open spec fn ends(items: Seq<Seq<u8>>) -> Seq<u32> {
    Seq::new(items.len(), |i: int| packed(items.take(i + 1)).len() as u32)
}

/// Packing more byte strings only adds bytes at the end.
pub proof fn lemma_packed_prefix(items: Seq<Seq<u8>>, i: int)
    requires
        0 <= i <= items.len(),
    ensures
        packed(items.take(i)).len() <= packed(items).len(),
        packed(items).subrange(0, packed(items.take(i)).len() as int) == packed(items.take(i)),
    decreases items.len() - i,
{
    if i == items.len() {
        assert(items.take(i) =~= items);
        assert(packed(items).subrange(0, packed(items).len() as int) =~= packed(items));
    } else {
        lemma_packed_prefix(items.drop_last(), i);
        assert(items.drop_last().take(i) =~= items.take(i));
        assert(packed(items).subrange(0, packed(items.take(i)).len() as int) =~= packed(items.drop_last()).subrange(
            0,
            packed(items.take(i)).len() as int,
        ));
    }
}

/// Cutting packed byte strings at their end offsets gives the byte strings
/// back.
pub proof fn lemma_packed_round_trip(items: Seq<Seq<u8>>)
    requires
        packed(items).len() <= u32::MAX,
    ensures
        positions_fit(ends(items), packed(items).len()),
        cut_items(ends(items), packed(items)) == items,
{
    let all = packed(items);
    let cut = cut_items(ends(items), all);
    assert forall|i: int| 0 <= i < items.len() implies item_start(ends(items), i) <= #[trigger] ends(items)[i]
        <= all.len() && cut[i] == items[i] by {
        lemma_packed_prefix(items, i + 1);
        lemma_packed_prefix(items, i);
        let upto = items.take(i + 1);
        assert(upto.drop_last() =~= items.take(i));
        assert(upto.last() == items[i]);
        assert(packed(upto) == packed(items.take(i)) + items[i]);
        if i == 0 {
            assert(packed(items.take(0)).len() == 0);
        }
        let start = packed(items.take(i)).len() as int;
        let end = packed(upto).len() as int;
        assert(item_start(ends(items), i) == start);
        assert(all.subrange(start, end) =~= all.subrange(0, end).subrange(start, end));
        assert(packed(upto).subrange(start, end) =~= items[i]);
    }
    assert(cut =~= items);
}

/// What is written is what is read: where byte strings are packed into a
/// blob and their end offsets are written as little-endian integers, reading
/// the integers back and cutting the blob at them gives the byte strings.
pub proof fn lemma_written_items_read_back(items: Seq<Seq<u8>>)
    requires
        packed(items).len() <= u32::MAX,
    ensures
        le_bytes_u32s(ends(items)).len() == 4 * items.len(),
        positions_fit(le_u32_items(le_bytes_u32s(ends(items))), packed(items).len()),
        cut_items(le_u32_items(le_bytes_u32s(ends(items))), packed(items)) == items,
{
    lemma_le_u32s_round_trip(ends(items));
    lemma_packed_round_trip(items);
}

} // verus!
