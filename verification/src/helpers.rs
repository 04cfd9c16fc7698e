//! The bounded pseudo-gaussian delta used for every random weight and bias:
//! six uniform draws in [0, 1) are averaged, then the average is rescaled
//! from [0, 1] to [-1, 1].

use vstd::prelude::*;
use crate::fbits::{
    add_bits, div_bits, mul_bits, sub_bits, bits_of_int,
    f_add, f_div, f_mul, f_sub, f_of_usize,
    HALF_BITS, SIX_BITS, TWO_BITS, TWO24_BITS,
};
use crate::rng::rand_below;

verus! {

/// How many uniform draws are averaged for one delta.
pub const DRAW_COUNT: usize = 6;

/// One uniform unit draw: the integer numerator `m < 2^24` determines the
/// value `m / 2^24`, which is exact in binary32.
pub open spec fn unit_bits(m: u32) -> u32 {
    div_bits(bits_of_int(m as int), TWO24_BITS)
}

/// The running binary32 sum of the unit draws, accumulated left to right
/// starting from 0.0 (bit pattern 0).
pub open spec fn units_sum(ms: Seq<u32>) -> u32
    decreases ms.len(),
{
    if ms.len() == 0 {
        0u32
    } else {
        add_bits(units_sum(ms.drop_last()), unit_bits(ms.last()))
    }
}

/// Six draws, each with its numerator below 2^24, so each unit value lies
/// in [0, 1) as an exact rational m / 2^24.
pub open spec fn valid_units(ms: Seq<u32>) -> bool {
    &&& ms.len() == DRAW_COUNT
    &&& forall|i: int| 0 <= i < ms.len() ==> ms[i] < 0x100_0000u32
}

/// The averaged draw: the sum of the six unit values divided by 6.0.
pub open spec fn gaussian_shape(ms: Seq<u32>) -> u32 {
    div_bits(units_sum(ms), SIX_BITS)
}

/// The rescaled delta: (average - 0.5) * 2.0.
pub open spec fn delta_shape(ms: Seq<u32>) -> u32 {
    mul_bits(sub_bits(gaussian_shape(ms), HALF_BITS), TWO_BITS)
}

/// Whether a bit pattern is a possible outcome of the delta generator.
pub open spec fn is_delta(w: u32) -> bool {
    exists|ms: Seq<u32>| valid_units(ms) && w == delta_shape(ms)
}

/// A random number in [0, 1] whose distribution approximates a bell curve
/// centred on 0.5: the average of six independent uniform draws in [0, 1).
pub fn gaussian_rand() -> (r: u32)
    ensures
        exists|ms: Seq<u32>| valid_units(ms) && r == gaussian_shape(ms),
{
    let ghost mut ms: Seq<u32> = Seq::empty();
    let mut sum: u32 = 0;
    let mut i: usize = 0;
    while i < DRAW_COUNT
        invariant
            i <= DRAW_COUNT,
            ms.len() == i,
            forall|j: int| 0 <= j < ms.len() ==> ms[j] < 0x100_0000u32,
            sum == units_sum(ms),
        decreases DRAW_COUNT - i,
    {
        let m = rand_below(0x100_0000);
        let unit = f_div(f_of_usize(m), TWO24_BITS);
        sum = f_add(sum, unit);
        proof {
            let ms1 = ms.push(m as u32);
            assert(ms1.drop_last() =~= ms);
            ms = ms1;
        }
        i = i + 1;
    }
    proof {
        assert(valid_units(ms));
    }
    sum = f_div(sum, SIX_BITS);
    sum
}

/// A random delta in [-1, 1]: the average of six uniform unit draws,
/// rescaled from [0, 1] to [-1, 1] by (average - 0.5) * 2.0.
pub fn std0() -> (r: u32)
    ensures
        is_delta(r),
{
    let g = gaussian_rand();
    let ghost ms = choose|ms: Seq<u32>| valid_units(ms) && g == gaussian_shape(ms);
    let r = f_mul(f_sub(g, HALF_BITS), TWO_BITS);
    proof {
        assert(valid_units(ms) && r == delta_shape(ms));
    }
    r
}

/// The integer sum of the six draw numerators is nonnegative and below
/// 6 * 2^24.  Read as the exact rational sum / (6 * 2^24), this is the
/// pre-rescale average lying in [0, 1); the lemma itself states only the
/// integer bound, since the binary32 value of the average is opaque here.
pub proof fn lemma_units_sum_in_unit_interval(ms: Seq<u32>)
    requires
        valid_units(ms),
    ensures
        0 <= numerator_sum(ms) < 6 * 0x100_0000,
{
    lemma_numerator_sum_bound(ms);
}

/// The exact integer sum of the draw numerators.
pub open spec fn numerator_sum(ms: Seq<u32>) -> int
    decreases ms.len(),
{
    if ms.len() == 0 {
        0
    } else {
        numerator_sum(ms.drop_last()) + ms.last()
    }
}

proof fn lemma_numerator_sum_bound(ms: Seq<u32>)
    requires
        forall|i: int| 0 <= i < ms.len() ==> ms[i] < 0x100_0000u32,
    ensures
        0 <= numerator_sum(ms) <= ms.len() * (0x100_0000 - 1),
    decreases ms.len(),
{
    if ms.len() > 0 {
        lemma_numerator_sum_bound(ms.drop_last());
    }
}

} // verus!
