//! Range reduction on 64 bits and arrays of 64-bit integers.

use vstd::prelude::*;
use crate::phf::spec_fast_reduct64;

verus! {

/// The 64-bit number that eight bytes spell, lowest byte first.
pub open spec fn le_u64(bytes: Seq<u8>) -> u64 {
    (bytes[0] as int + bytes[1] as int * 0x100 + bytes[2] as int * 0x1_0000 + bytes[3] as int * 0x100_0000
        + bytes[4] as int * 0x1_0000_0000 + bytes[5] as int * 0x100_0000_0000 + bytes[6] as int
        * 0x1_0000_0000_0000 + bytes[7] as int * 0x100_0000_0000_0000) as u64
}

/// A byte slice read as an array of 64-bit integers, stored as little-endian
/// bytes.
#[derive(Clone, Copy)]
pub struct U64Array<'data> {
    pub bytes: &'data [u8],
}

impl<'data> U64Array<'data> {
    /// The integer at `index`, or `None` where the bytes end before it does.
    pub fn get_u64(&self, index: usize) -> (r: Option<u64>)
        ensures
            (index + 1) * 8 <= self.bytes@.len() ==> r == Some(le_u64(self.bytes@.subrange(index * 8, index * 8 + 8))),
            (index + 1) * 8 > self.bytes@.len() ==> r is None,
    {
        let total = self.bytes.len();
        if index < total / 8 {
            let at = index * 8;
            let b0 = self.bytes[at] as u64;
            let b1 = self.bytes[at + 1] as u64;
            let b2 = self.bytes[at + 2] as u64;
            let b3 = self.bytes[at + 3] as u64;
            let b4 = self.bytes[at + 4] as u64;
            let b5 = self.bytes[at + 5] as u64;
            let b6 = self.bytes[at + 6] as u64;
            let b7 = self.bytes[at + 7] as u64;
            Some(
                b0 + b1 * 0x100 + b2 * 0x1_0000 + b3 * 0x100_0000 + b4 * 0x1_0000_0000 + b5 * 0x100_0000_0000 + b6
                    * 0x1_0000_0000_0000 + b7 * 0x100_0000_0000_0000,
            )
        } else {
            None
        }
    }
}

/// Maps `x` into `[0, limit)` without a division.
pub fn fast_reduct64(x: u64, limit: u64) -> (r: u64)
    ensures
        r == spec_fast_reduct64(x, limit),
        limit > 0 ==> r < limit,
{
    assert(0 <= x as int * limit as int <= 0xffff_ffff_ffff_ffff * 0xffff_ffff_ffff_ffff) by (nonlinear_arith)
        requires
            0 <= x <= 0xffff_ffff_ffff_ffff,
            0 <= limit <= 0xffff_ffff_ffff_ffff,
    ;
    if limit > 0 {
        assert((x as int * limit as int) / 0x1_0000_0000_0000_0000 < limit as int) by (nonlinear_arith)
            requires
                0 <= x < 0x1_0000_0000_0000_0000,
                0 < limit,
        ;
    }
    let wide: u128 = (x as u128) * (limit as u128);
    assert(wide >> 64 == wide / 0x1_0000_0000_0000_0000) by (bit_vector);
    (wide >> 64) as u64
}

} // verus!
