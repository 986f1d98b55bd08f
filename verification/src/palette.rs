//! The luminance ramp: twelve colours, and the bucket a luminance falls into.

use vstd::prelude::*;
use vstd::arithmetic::power2::{lemma2_to64, pow2};
use crate::binary32::{lemma_floor_scaled_reaches, lemma_floor_sign, unit_exponent, Binary32};

verus! {

/// The number of colours of the ramp.
pub const PALETTE_LEN: usize = 12;

/// The ramp as packed `0xRRGGBB` colours, from the darkest violet through
/// blue and white to yellow, and on to a warm brown.
pub const GRADIENT: [u32; 12] = [
    0x19071a,
    0x09012f,
    0x040449,
    0x000764,
    0x397dd1,
    0x86b5e5,
    0xd3ecf8,
    0xf1e9bf,
    0xf8c95f,
    0xffaa00,
    0xcc8000,
    0x6a3403,
];

/// The bucket of a luminance: `floor(8 * l)`, held within the ramp. A NaN
/// falls into the first bucket.
pub open spec fn bucket(luminance: Binary32) -> int {
    let eighths = luminance.floor_scaled(3);
    if luminance.nan() || eighths < 0 {
        0
    } else if eighths > PALETTE_LEN - 1 {
        PALETTE_LEN - 1
    } else {
        eighths
    }
}

/// The colour in which a sample of the given luminance is drawn.
pub open spec fn shade_spec(luminance: Binary32) -> u32 {
    GRADIENT[bucket(luminance)]
}

/// The bucket is the floor, with nothing off by one at a boundary: a
/// luminance `l` falls into bucket `k` exactly where `k <= 8 * l < k + 1`,
/// except that the first bucket also takes whatever lies below it and the last
/// whatever lies above. Both sides are counted in units of `2^-149`.
pub proof fn lemma_bucket_bounds(luminance: Binary32, k: int)
    requires
        !luminance.nan(),
        0 <= k < PALETTE_LEN,
    ensures
        bucket(luminance) == k <==> {
            &&& k > 0 ==> k * pow2(unit_exponent()) <= 8 * luminance.ulps()
            &&& k < PALETTE_LEN - 1 ==> 8 * luminance.ulps() < (k + 1) * pow2(unit_exponent())
        },
{
    lemma2_to64();
    lemma_floor_scaled_reaches(luminance, 3, k);
    lemma_floor_scaled_reaches(luminance, 3, k + 1);
}

/// The bucket of a luminance, as an index into [`GRADIENT`].
pub fn luminance_index(luminance: Binary32) -> (index: usize)
    ensures
        index == bucket(luminance),
        index < PALETTE_LEN,
{
    proof {
        lemma_floor_sign(luminance, 3);
    }
    let eighths: u64 = luminance.floor_saturating(3);
    if eighths >= PALETTE_LEN as u64 {
        PALETTE_LEN - 1
    } else {
        eighths as usize
    }
}

/// The colour in which a sample of the given luminance is drawn.
pub fn shade(luminance: Binary32) -> (colour: u32)
    ensures
        colour == shade_spec(luminance),
{
    GRADIENT[luminance_index(luminance)]
}

} // verus!
