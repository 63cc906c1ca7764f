//! Integer arrays that are stored as little-endian bytes.

use std::marker::PhantomData;
use vstd::prelude::*;
use crate::store::{AccessSeq, AsData};

verus! {

/// Bytes that are aligned as a `T` is. A blob of integers is wrapped in this
/// before it is linked in, so that it can be read in place.
pub struct AlignedBytes<const B: usize, T> {
    pub align: [T; 0],
    pub bytes: [u8; B],
}

impl<'data, const B: usize, T> AsData<'data> for &'data AlignedBytes<B, T> {
    open spec fn valid_data(&self) -> bool {
        true
    }

    open spec fn data(&self) -> Seq<u8> {
        self.bytes@
    }

    fn as_data(&self) -> (r: &'data [u8]) {
        let whole: &'data AlignedBytes<B, T> = *self;
        whole.bytes.as_slice()
    }
}

/// The 32-bit number that four bytes spell, lowest byte first.
pub open spec fn le_u32(bytes: Seq<u8>) -> u32 {
    (bytes[0] as int + bytes[1] as int * 0x100 + bytes[2] as int * 0x1_0000 + bytes[3] as int * 0x100_0000) as u32
}

/// The 32-bit numbers that `bytes` spells, four bytes each.
pub open spec fn le_u32_items(bytes: Seq<u8>) -> Seq<u32> {
    Seq::new(bytes.len() / 4, |i: int| le_u32(bytes.subrange(4 * i, 4 * i + 4)))
}

/// Reads the 32-bit number at `bytes[at..at + 4]`, lowest byte first.
pub fn read_le_u32(bytes: &[u8], at: usize) -> (r: u32)
    requires
        at + 4 <= bytes@.len(),
    ensures
        r == le_u32(bytes@.subrange(at as int, at + 4)),
{
    let b0 = bytes[at] as u32;
    let b1 = bytes[at + 1] as u32;
    let b2 = bytes[at + 2] as u32;
    let b3 = bytes[at + 3] as u32;
    b0 + b1 * 0x100 + b2 * 0x1_0000 + b3 * 0x100_0000
}

/// A blob read as an array of `T`, stored as little-endian bytes.
pub struct AlignedArray<T, D> {
    pub data: D,
    pub unit: PhantomData<T>,
}

impl<'data, T, D: AsData<'data>> AlignedArray<T, D> {
    /// The integers that `data` spells.
    pub fn new(data: D) -> (r: Self)
        ensures
            r.data == data,
    {
        AlignedArray { data, unit: PhantomData }
    }
}

impl<'data, D: AsData<'data>> AccessSeq<'data> for AlignedArray<u32, D> {
    type Item = u32;

    open spec fn valid_seq(&self) -> bool {
        self.data.valid_data() && self.data.data().len() % 4 == 0
    }

    open spec fn items(&self) -> Seq<u32> {
        le_u32_items(self.data.data())
    }

    fn len(&self) -> (n: usize) {
        self.data.as_data().len() / 4
    }

    fn index(&self, index: usize) -> (r: Option<u32>) {
        let bytes = self.data.as_data();
        if index < bytes.len() / 4 {
            Some(read_le_u32(bytes, index * 4))
        } else {
            None
        }
    }
}

/// The four bytes that spell `x`, lowest byte first.
pub open spec fn le_bytes_u32(x: u32) -> Seq<u8> {
    seq![
        (x % 0x100) as u8,
        (x / 0x100 % 0x100) as u8,
        (x / 0x1_0000 % 0x100) as u8,
        (x / 0x100_0000) as u8,
    ]
}

/// The bytes that spell the numbers one after the other.
pub open spec fn le_bytes_u32s(values: Seq<u32>) -> Seq<u8>
    decreases values.len(),
{
    if values.len() == 0 {
        Seq::empty()
    } else {
        le_bytes_u32s(values.drop_last()) + le_bytes_u32(values.last())
    }
}

/// Appends the four bytes that spell `x`, lowest byte first.
pub fn push_le_u32(out: &mut Vec<u8>, x: u32)
    ensures
        final(out)@ == old(out)@ + le_bytes_u32(x),
{
    let ghost before = out@;
    out.push((x % 0x100) as u8);
    out.push((x / 0x100 % 0x100) as u8);
    out.push((x / 0x1_0000 % 0x100) as u8);
    out.push((x / 0x100_0000) as u8);
    assert(out@ =~= before + le_bytes_u32(x));
}

/// Reading four bytes gives back the number that they were written for.
pub proof fn lemma_le_u32_round_trip(x: u32)
    ensures
        le_bytes_u32(x).len() == 4,
        le_u32(le_bytes_u32(x)) == x,
{
}

/// Spelling numbers gives four bytes each.
pub proof fn lemma_le_bytes_len(values: Seq<u32>)
    ensures
        le_bytes_u32s(values).len() == 4 * values.len(),
    decreases values.len(),
{
    if values.len() > 0 {
        lemma_le_bytes_len(values.drop_last());
    }
}

/// Reading back what was written for a sequence of numbers gives the
/// sequence.
pub proof fn lemma_le_u32s_round_trip(values: Seq<u32>)
    ensures
        le_bytes_u32s(values).len() == 4 * values.len(),
        le_u32_items(le_bytes_u32s(values)) == values,
    decreases values.len(),
{
    lemma_le_bytes_len(values);
    if values.len() == 0 {
        assert(le_u32_items(le_bytes_u32s(values)) =~= values);
    } else {
        let front = values.drop_last();
        lemma_le_u32s_round_trip(front);
        lemma_le_bytes_len(front);
        let bytes = le_bytes_u32s(values);
        let read = le_u32_items(bytes);
        assert(read.len() == values.len());
        assert forall|i: int| 0 <= i < values.len() implies read[i] == values[i] by {
            if i < front.len() {
                assert(bytes.subrange(4 * i, 4 * i + 4) =~= le_bytes_u32s(front).subrange(4 * i, 4 * i + 4));
                assert(le_u32_items(le_bytes_u32s(front))[i] == front[i]);
            } else {
                assert(bytes.subrange(4 * i, 4 * i + 4) =~= le_bytes_u32(values.last()));
                lemma_le_u32_round_trip(values.last());
            }
        }
        assert(read =~= values);
    }
}

} // verus!
