//! IEEE-754 binary32 scalars, carried as their raw bit patterns in `u32`.
//!
//! The results of the arithmetic operations are functions of the operand bit
//! patterns alone; they are given names by uninterpreted spec functions, and
//! the executable wrappers below are trusted to return exactly those named
//! results.  Negation and absolute value are pure sign-bit operations and are
//! implemented and verified here directly.

use vstd::prelude::*;
use rustc_apfloat::Float;
use rustc_apfloat::Round;
use rustc_apfloat::ieee::Single;

verus! {

/// Bit pattern of 0.5f32.
pub const HALF_BITS: u32 = 0x3f00_0000;
/// Bit pattern of 1.0f32.
pub const ONE_BITS: u32 = 0x3f80_0000;
/// Bit pattern of 2.0f32.
pub const TWO_BITS: u32 = 0x4000_0000;
/// Bit pattern of 6.0f32.
pub const SIX_BITS: u32 = 0x40c0_0000;
/// Bit pattern of 16777216.0f32 (2^24).
pub const TWO24_BITS: u32 = 0x4b80_0000;
/// Bit pattern of the SELU alpha constant, 1.67326f32.
pub const SELU_ALPHA_BITS: u32 = 0x3fd6_2d62;
/// Bit pattern of the SELU lambda constant, 1.0507f32.
pub const SELU_LAMBDA_BITS: u32 = 0x3f86_7d56;

/// The binary32 sum of the two operands, to nearest, as a bit pattern.
pub uninterp spec fn add_bits(a: u32, b: u32) -> u32;

/// The binary32 difference of the two operands, to nearest, as a bit pattern.
pub uninterp spec fn sub_bits(a: u32, b: u32) -> u32;

/// The binary32 product of the two operands, to nearest, as a bit pattern.
pub uninterp spec fn mul_bits(a: u32, b: u32) -> u32;

/// The binary32 quotient of the two operands, to nearest, as a bit pattern.
pub uninterp spec fn div_bits(a: u32, b: u32) -> u32;

/// Whether the first operand compares strictly greater than the second
/// under the IEEE-754 partial order.
pub uninterp spec fn gt_bits(a: u32, b: u32) -> bool;

/// The nearest binary32 value to the given nonnegative integer,
/// as a bit pattern.
pub uninterp spec fn bits_of_int(n: int) -> u32;

/// The binary32 exponential function, bit pattern to bit pattern.
pub uninterp spec fn exp_bits(a: u32) -> u32;

/// The binary32 sine function, bit pattern to bit pattern.
pub uninterp spec fn sin_bits(a: u32) -> u32;

/// The binary32 square root, bit pattern to bit pattern.
pub uninterp spec fn sqrt_bits(a: u32) -> u32;

/// Relies on rustc_apfloat's `Float::add_r` for `ieee::Single`:
/// IEEE-754 binary32 addition, round to nearest even, on bit patterns.
#[verifier::external_body]
pub fn f_add(a: u32, b: u32) -> (r: u32)
    ensures
        r == add_bits(a, b),
{
    let x = Single::from_bits(a as u128);
    let y = Single::from_bits(b as u128);
    x.add_r(y, Round::NearestTiesToEven).value.to_bits() as u32
}

/// Relies on rustc_apfloat's `Float::sub_r` for `ieee::Single`:
/// IEEE-754 binary32 subtraction, round to nearest even, on bit patterns.
#[verifier::external_body]
pub fn f_sub(a: u32, b: u32) -> (r: u32)
    ensures
        r == sub_bits(a, b),
{
    let x = Single::from_bits(a as u128);
    let y = Single::from_bits(b as u128);
    x.sub_r(y, Round::NearestTiesToEven).value.to_bits() as u32
}

/// Relies on rustc_apfloat's `Float::mul_r` for `ieee::Single`:
/// IEEE-754 binary32 multiplication, round to nearest even, on bit patterns.
#[verifier::external_body]
pub fn f_mul(a: u32, b: u32) -> (r: u32)
    ensures
        r == mul_bits(a, b),
{
    let x = Single::from_bits(a as u128);
    let y = Single::from_bits(b as u128);
    x.mul_r(y, Round::NearestTiesToEven).value.to_bits() as u32
}

/// Relies on rustc_apfloat's `Float::div_r` for `ieee::Single`:
/// IEEE-754 binary32 division, round to nearest even, on bit patterns.
#[verifier::external_body]
pub fn f_div(a: u32, b: u32) -> (r: u32)
    ensures
        r == div_bits(a, b),
{
    let x = Single::from_bits(a as u128);
    let y = Single::from_bits(b as u128);
    x.div_r(y, Round::NearestTiesToEven).value.to_bits() as u32
}

/// Relies on rustc_apfloat's `PartialOrd` for `ieee::Single`:
/// the IEEE-754 ordered comparison "strictly greater" on bit patterns
/// (false whenever either operand is a NaN).  Equal bit patterns are the
/// same value, which compares equal or unordered, never strictly greater.
#[verifier::external_body]
pub fn f_gt(a: u32, b: u32) -> (r: bool)
    ensures
        r == gt_bits(a, b),
        a == b ==> r == false,
{
    let x = Single::from_bits(a as u128);
    let y = Single::from_bits(b as u128);
    matches!(x.partial_cmp(&y), Some(core::cmp::Ordering::Greater))
}

/// Relies on rustc_apfloat's `Float::from_u128` for `ieee::Single`:
/// conversion of a nonnegative integer to the nearest binary32 value.
#[verifier::external_body]
pub fn f_of_usize(n: usize) -> (r: u32)
    ensures
        r == bits_of_int(n as int),
{
    Single::from_u128(n as u128).value.to_bits() as u32
}

/// Relies on libm's `expf` (bytemuck only casts between `u32` and the
/// 32-bit float type): the binary32 exponential on bit patterns.
#[verifier::external_body]
pub fn f_exp(a: u32) -> (r: u32)
    ensures
        r == exp_bits(a),
{
    bytemuck::cast(libm::expf(bytemuck::cast(a)))
}

/// Relies on libm's `sinf` (bytemuck only casts between `u32` and the
/// 32-bit float type): the binary32 sine on bit patterns.
#[verifier::external_body]
pub fn f_sin(a: u32) -> (r: u32)
    ensures
        r == sin_bits(a),
{
    bytemuck::cast(libm::sinf(bytemuck::cast(a)))
}

/// Relies on libm's `sqrtf` (bytemuck only casts between `u32` and the
/// 32-bit float type): the binary32 square root on bit patterns.
#[verifier::external_body]
pub fn f_sqrt(a: u32) -> (r: u32)
    ensures
        r == sqrt_bits(a),
{
    bytemuck::cast(libm::sqrtf(bytemuck::cast(a)))
}

/// IEEE-754 negation flips the sign bit and leaves the rest unchanged.
pub open spec fn neg_bits(a: u32) -> u32 {
    a ^ 0x8000_0000
}

/// Negation of a binary32 bit pattern: a pure sign-bit flip.
pub fn f_neg(a: u32) -> (r: u32)
    ensures
        r == neg_bits(a),
{
    a ^ 0x8000_0000
}

} // verus!
