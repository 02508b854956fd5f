//! What the constants stand for.
use vstd::prelude::*;

use vstd::arithmetic::power2::{lemma2_to64, lemma2_to64_rest, pow2};

use crate::adjust::{FULL_TURN, SIXTH, THIRD, TWO_THIRDS};
use crate::blend::{F_QUARTER, F_SIXTEEN, F_TWELVE};
use crate::float_bits::{F_FOUR, F_HALF, F_ONE, F_SIX, F_TINY, F_TWO};
use crate::float_kernel::LEAST_SOFTNESS;
use crate::ops::bucket::{DEFAULT_FILL_TOLERANCE, FILL_FEATHER};
use crate::ops::finger_ops::{F_THREE, GRAY_RANGE, MOST_EXPOSURE, SECTOR_DEGREES, SRGB_FOOT};
use crate::ops::gradient::TAU;
use crate::ops::matte::{
    DEFAULT_EDGE_SOFTNESS, DEFAULT_MATTE_TOLERANCE, DEFRINGE_RAMP_MARGIN, MATTE_MIN_ALPHA,
    SPECK_TOLERANCE_MULT,
};
use crate::ops::matte_key::{CHECKER_COVERAGE, SOLID_COVERAGE};
use crate::pixel::{
    LUMA_BLUE, LUMA_GREEN, LUMA_RED, SRGB_GAMMA, SRGB_KNEE, SRGB_SCALE, SRGB_SHIFT, SRGB_SLOPE,
};

verus! {

/// A pattern stands for `p / q`: no other number is nearer.
///
/// A number with exponent `e` is its 24-digit significand times 2 to the power
/// `e - 150`, and the next ones are a last digit away.
pub open spec fn stands_for(b: u32, p: int, q: int) -> bool {
    let e = b as int / 0x80_0000;
    let f = 0x80_0000 + b as int % 0x80_0000;
    let off = f * q - p * pow2((150 - e) as nat);
    0 < e <= 150 && -q <= 2 * off <= q
}

/// The weights of the channels are those of Rec.709, which make one, and the curve of the
/// display is that of sRGB, whose parts meet.
pub proof fn weights_are_those_of_the_standard()
    ensures
        stands_for(LUMA_RED, 2126, 10000),
        stands_for(LUMA_GREEN, 7152, 10000),
        stands_for(LUMA_BLUE, 722, 10000),
        stands_for(SRGB_SLOPE, 1292, 100),
        stands_for(SRGB_KNEE, 31308, 10000000),
        stands_for(SRGB_SCALE, 1055, 1000),
        stands_for(SRGB_SHIFT, 55, 1000),
        stands_for(SRGB_GAMMA, 24, 10),
        stands_for(SRGB_FOOT, 4045, 100000),
{
    lemma2_to64();
    lemma2_to64_rest();
}

/// The parts of a turn are a third, a sixth and two thirds of it; in degrees it has 360, in
/// radians twice pi.
pub proof fn parts_of_the_turn()
    ensures
        stands_for(THIRD, 1, 3),
        stands_for(SIXTH, 1, 6),
        stands_for(TWO_THIRDS, 2, 3),
        stands_for(FULL_TURN, 360, 1),
        stands_for(SECTOR_DEGREES, 60, 1),
        stands_for(TAU, 62831853072, 10000000000),
{
    lemma2_to64();
    lemma2_to64_rest();
}

/// The plain numbers are what they are called.
pub proof fn plain_numbers()
    ensures
        stands_for(F_HALF, 1, 2),
        stands_for(F_ONE, 1, 1),
        stands_for(F_TWO, 2, 1),
        stands_for(F_THREE, 3, 1),
        stands_for(F_FOUR, 4, 1),
        stands_for(F_SIX, 6, 1),
        stands_for(F_QUARTER, 1, 4),
        stands_for(F_TWELVE, 12, 1),
        stands_for(F_SIXTEEN, 16, 1),
        stands_for(F_TINY, 1, 1000000),
        crate::ops::bucket::F_TWO == F_TWO,
{
    lemma2_to64();
    lemma2_to64_rest();
}

/// What the tools are limited to and start with.
pub proof fn limits_of_the_tools()
    ensures
        stands_for(MOST_EXPOSURE, 999, 1000),
        stands_for(GRAY_RANGE, 1, 10000000),
        stands_for(LEAST_SOFTNESS, 1, 1000),
        stands_for(FILL_FEATHER, 1, 2),
        stands_for(DEFAULT_FILL_TOLERANCE, 2, 10),
        stands_for(SOLID_COVERAGE, 9, 10),
        stands_for(CHECKER_COVERAGE, 95, 100),
        stands_for(DEFAULT_MATTE_TOLERANCE, 2, 10),
        stands_for(DEFAULT_EDGE_SOFTNESS, 55, 100),
        stands_for(MATTE_MIN_ALPHA, 9999, 10000),
        stands_for(SPECK_TOLERANCE_MULT, 16, 10),
        stands_for(DEFRINGE_RAMP_MARGIN, 5, 100),
{
    lemma2_to64();
    lemma2_to64_rest();
}

} // verus!
