//! Integer hashing of the terrain height field.

use vstd::prelude::*;
use crate::rng::lowbias32;

verus! {

/// The terrain's integer hash: the same lowbias32 hash as
/// [`crate::rng::hash_u32`], so the CPU and the GPU agree on the landscape.
pub fn hash_u(x_in: u32) -> (h: u32)
    ensures
        h == lowbias32(x_in),
{
    let mut x: u32 = x_in;
    x ^= x >> 16u32;
    x = x.wrapping_mul(0x7feb_352d);
    x ^= x >> 15u32;
    x = x.wrapping_mul(0x846c_a68b);
    x ^= x >> 16u32;
    x
}

} // verus!
