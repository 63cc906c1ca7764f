//! Displacement of a hash pair, as compress-hash-displace schemes use it.

use vstd::prelude::*;

verus! {

/// `h1 + d0 * h2 + d1` modulo 2^32.
pub open spec fn spec_displace(h1: u32, h2: u32, d0: u32, d1: u32) -> u32 {
    h1.wrapping_add(d0.wrapping_mul(h2)).wrapping_add(d1)
}

/// Moves the hash pair `(h1, h2)` by the displacement pair `(d0, d1)`.
pub fn displace(h1: u32, h2: u32, d0: u32, d1: u32) -> (r: u32)
    ensures
        r == spec_displace(h1, h2, d0, d1),
        r as int == (h1 + d0 * h2 + d1) % 0x1_0000_0000,
{
    assert(spec_displace(h1, h2, d0, d1) as int == (h1 + d0 * h2 + d1) % 0x1_0000_0000) by {
        let m = d0.wrapping_mul(h2);
        assert(m as int == (d0 as int * h2 as int) % 0x1_0000_0000);
        let a = h1.wrapping_add(m);
        assert(a as int == (h1 + m) % 0x1_0000_0000);
        let b = a.wrapping_add(d1);
        assert(b as int == (a + d1) % 0x1_0000_0000);
        assert((h1 + d0 * h2 + d1) % 0x1_0000_0000 == b as int) by (nonlinear_arith)
            requires
                m as int == (d0 as int * h2 as int) % 0x1_0000_0000,
                a as int == (h1 + m) % 0x1_0000_0000,
                b as int == (a + d1) % 0x1_0000_0000,
        ;
    }
    h1.wrapping_add(d0.wrapping_mul(h2)).wrapping_add(d1)
}

} // verus!
