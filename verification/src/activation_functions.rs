//! The catalog of scalar squashing functions a node can apply, and a
//! uniformly random choice among them.

use vstd::prelude::*;
use crate::fbits::{
    add_bits, div_bits, exp_bits, gt_bits, mul_bits, neg_bits, sin_bits, sqrt_bits, sub_bits,
    f_add, f_div, f_exp, f_gt, f_mul, f_neg, f_sin, f_sqrt, f_sub,
    ONE_BITS, SELU_ALPHA_BITS, SELU_LAMBDA_BITS, TWO_BITS,
};
use crate::rng::rand_below;

verus! {

/// The available squashing functions; `NoSquash` passes the value through.
#[derive(Debug, PartialEq, Eq, Structural, Copy, Clone)]
pub enum ActivationFunctions {
    NoSquash,
    Logistics,
    HyperbolicTangent,
    Identity,
    BinaryStep,
    ReLU,
    Softsign,
    Gaussian,
    Sinusiodial,
    BentIdentity,
    SELU,
}

/// The absolute value of a binary32 bit pattern: the sign bit cleared.
pub open spec fn abs_bits(a: u32) -> u32 {
    a & 0x7fff_ffff
}

/// What each squashing function returns, composed from the named binary32
/// operations on the bit pattern `v`.
pub open spec fn activation_spec(squash: ActivationFunctions, v: u32) -> u32 {
    match squash {
        ActivationFunctions::NoSquash => v,
        ActivationFunctions::Identity => v,
        ActivationFunctions::Logistics => div_bits(
            ONE_BITS,
            add_bits(ONE_BITS, exp_bits(neg_bits(v))),
        ),
        ActivationFunctions::HyperbolicTangent => div_bits(
            sub_bits(exp_bits(v), exp_bits(neg_bits(v))),
            add_bits(exp_bits(v), exp_bits(neg_bits(v))),
        ),
        ActivationFunctions::BinaryStep => if gt_bits(v, 0u32) {
            ONE_BITS
        } else {
            0u32
        },
        ActivationFunctions::ReLU => if gt_bits(v, 0u32) {
            v
        } else {
            0u32
        },
        ActivationFunctions::Softsign => div_bits(v, add_bits(ONE_BITS, abs_bits(v))),
        ActivationFunctions::Gaussian => exp_bits(neg_bits(mul_bits(v, v))),
        ActivationFunctions::Sinusiodial => sin_bits(v),
        ActivationFunctions::BentIdentity => add_bits(
            div_bits(sub_bits(sqrt_bits(add_bits(mul_bits(v, v), ONE_BITS)), ONE_BITS), TWO_BITS),
            v,
        ),
        ActivationFunctions::SELU => if gt_bits(0u32, v) {
            mul_bits(
                SELU_LAMBDA_BITS,
                mul_bits(SELU_ALPHA_BITS, sub_bits(exp_bits(v), ONE_BITS)),
            )
        } else {
            mul_bits(SELU_LAMBDA_BITS, v)
        },
    }
}

impl ActivationFunctions {
    /// A uniformly random squashing function, never the pass-through.
    pub fn get_random() -> (r: ActivationFunctions)
        ensures
            r != ActivationFunctions::NoSquash,
    {
        let choice = rand_below(10);
        match choice {
            0 => ActivationFunctions::Logistics,
            1 => ActivationFunctions::HyperbolicTangent,
            2 => ActivationFunctions::Identity,
            3 => ActivationFunctions::BinaryStep,
            4 => ActivationFunctions::ReLU,
            5 => ActivationFunctions::Softsign,
            6 => ActivationFunctions::Gaussian,
            7 => ActivationFunctions::Sinusiodial,
            8 => ActivationFunctions::BentIdentity,
            _ => ActivationFunctions::SELU,
        }
    }

    /// Applies the chosen squashing function to the bit pattern `value`.
    pub fn get_output(squash: ActivationFunctions, value: u32) -> (r: u32)
        ensures
            r == activation_spec(squash, value),
    {
        match squash {
            ActivationFunctions::NoSquash => value,
            ActivationFunctions::Identity => value,
            ActivationFunctions::Logistics => f_div(
                ONE_BITS,
                f_add(ONE_BITS, f_exp(f_neg(value))),
            ),
            ActivationFunctions::HyperbolicTangent => {
                let ep = f_exp(value);
                let en = f_exp(f_neg(value));
                f_div(f_sub(ep, en), f_add(ep, en))
            },
            ActivationFunctions::BinaryStep => if f_gt(value, 0) {
                ONE_BITS
            } else {
                0
            },
            ActivationFunctions::ReLU => if f_gt(value, 0) {
                value
            } else {
                0
            },
            ActivationFunctions::Softsign => f_div(
                value,
                f_add(ONE_BITS, value & 0x7fff_ffff),
            ),
            ActivationFunctions::Gaussian => f_exp(f_neg(f_mul(value, value))),
            ActivationFunctions::Sinusiodial => f_sin(value),
            ActivationFunctions::BentIdentity => f_add(
                f_div(f_sub(f_sqrt(f_add(f_mul(value, value), ONE_BITS)), ONE_BITS), TWO_BITS),
                value,
            ),
            ActivationFunctions::SELU => if f_gt(0, value) {
                f_mul(
                    SELU_LAMBDA_BITS,
                    f_mul(SELU_ALPHA_BITS, f_sub(f_exp(value), ONE_BITS)),
                )
            } else {
                f_mul(SELU_LAMBDA_BITS, value)
            },
        }
    }
}

} // verus!
