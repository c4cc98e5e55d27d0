//! Products too wide for `i128`, carried by the host's 256-bit integers.
//!
//! The two quotients here are what every share and face conversion goes
//! through: the product of two `i128` values always fits in 256 bits, so only
//! the final quotient can be out of range.

use crate::fixed::{fits, lemma_product_bound, lemma_quot_times, quot};
use soroban_sdk::{Env, I256};
use vstd::prelude::*;

verus! {

/// `soroban_sdk::Env`: the handle to the host that stores 256-bit integers. A
/// host meters what it does and traps once its budget is spent; that it has
/// budget left is not stated of any of the calls below.
#[verifier::external_type_specification]
#[verifier::external_body]
pub struct ExEnv(Env);

/// `soroban_sdk::I256`: a 256-bit signed integer held by a host.
#[verifier::external_type_specification]
#[verifier::external_body]
pub struct ExI256(I256);

/// The integer a 256-bit value holds.
pub uninterp spec fn wide_value(number: I256) -> int;

/// The environment a 256-bit value was made in.
pub uninterp spec fn wide_env(number: I256) -> Env;

/// Whether an integer is representable in 256 signed bits.
pub open spec fn fits_wide(value: int) -> bool {
    -0x8000_0000_0000_0000_0000_0000_0000_0000_0000_0000_0000_0000_0000_0000_0000_0000int <= value
        < 0x8000_0000_0000_0000_0000_0000_0000_0000_0000_0000_0000_0000_0000_0000_0000_0000int
}

/// `I256::from_i128` sign-extends its argument: the result holds the same
/// integer, in the environment it was given.
pub assume_specification[ I256::from_i128 ](env: &Env, i: i128) -> (number: I256)
    ensures
        wide_value(number) == i,
        wide_env(number) == *env,
;

/// `I256::to_i128` gives the integer back where it is in the `i128` range, and
/// `None` where it is not.
pub assume_specification[ I256::to_i128 ](number: &I256) -> (narrow: Option<i128>)
    ensures
        narrow == narrowed(wide_value(*number)),
;

/// `I256::add` is the exact sum. The host traps where the sum leaves the
/// 256-bit range, and where the operands belong to two hosts.
pub assume_specification[ I256::add ](lhs: &I256, rhs: &I256) -> (sum: I256)
    requires
        wide_env(*lhs) == wide_env(*rhs),
        fits_wide(wide_value(*lhs) + wide_value(*rhs)),
    ensures
        wide_value(sum) == wide_value(*lhs) + wide_value(*rhs),
        wide_env(sum) == wide_env(*lhs),
;

/// `I256::sub` is the exact difference, under the same conditions as `add`.
pub assume_specification[ I256::sub ](lhs: &I256, rhs: &I256) -> (gap: I256)
    requires
        wide_env(*lhs) == wide_env(*rhs),
        fits_wide(wide_value(*lhs) - wide_value(*rhs)),
    ensures
        wide_value(gap) == wide_value(*lhs) - wide_value(*rhs),
        wide_env(gap) == wide_env(*lhs),
;

/// `I256::mul` is the exact product, under the same conditions as `add`.
pub assume_specification[ I256::mul ](lhs: &I256, rhs: &I256) -> (product: I256)
    requires
        wide_env(*lhs) == wide_env(*rhs),
        fits_wide(wide_value(*lhs) * wide_value(*rhs)),
    ensures
        wide_value(product) == wide_value(*lhs) * wide_value(*rhs),
        wide_env(product) == wide_env(*lhs),
;

/// `I256::div` is the quotient rounded toward zero. The host traps on a zero
/// divisor, on the one quotient that leaves the range, and where the operands
/// belong to two hosts.
pub assume_specification[ I256::div ](lhs: &I256, rhs: &I256) -> (ratio: I256)
    requires
        wide_env(*lhs) == wide_env(*rhs),
        wide_value(*rhs) != 0,
        fits_wide(quot(wide_value(*lhs), wide_value(*rhs))),
    ensures
        wide_value(ratio) == quot(wide_value(*lhs), wide_value(*rhs)),
        wide_env(ratio) == wide_env(*lhs),
;

/// An integer as an `i128`, where it is one.
pub open spec fn narrowed(value: int) -> Option<i128> {
    if fits(value) {
        Some(value as i128)
    } else {
        None
    }
}

/// A quotient is no larger in magnitude than its numerator.
proof fn lemma_quot_shrinks(n: int, d: int)
    requires
        d != 0,
    ensures
        n >= 0 ==> -n <= quot(n, d) <= n,
        n <= 0 ==> n <= quot(n, d) <= -n,
{
    lemma_quot_times(n, d);
    let q: int = quot(n, d);
    if n >= 0 {
        assert(-n <= q <= n) by (nonlinear_arith)
            requires
                0 <= q * d <= n,
                d != 0,
        ;
    } else {
        assert(n <= q <= -n) by (nonlinear_arith)
            requires
                n <= q * d <= 0,
                d != 0,
        ;
    }
}

/// `a * b / c`, rounded toward zero; `None` where that is not an `i128`.
pub fn mul_div_floor(env: &Env, a: i128, b: i128, c: i128) -> (result: Option<i128>)
    requires
        c != 0,
    ensures
        result == narrowed(quot(a * b, c as int)),
{
    proof {
        lemma_product_bound(a as int, b as int);
        lemma_quot_shrinks(a * b, c as int);
    }
    I256::from_i128(env, a).mul(&I256::from_i128(env, b)).div(&I256::from_i128(env, c)).to_i128()
}

/// `(a * b + c - 1) / c`: for a nonnegative product and a positive `c` this is
/// `a * b / c` rounded up. `None` where that is not an `i128`.
pub fn mul_div_ceil(env: &Env, a: i128, b: i128, c: i128) -> (result: Option<i128>)
    requires
        c != 0,
    ensures
        result == narrowed(quot(a * b + c - 1, c as int)),
{
    proof {
        lemma_product_bound(a as int, b as int);
        lemma_quot_shrinks(a * b + c - 1, c as int);
    }
    let denominator: I256 = I256::from_i128(env, c);
    I256::from_i128(env, a).mul(&I256::from_i128(env, b)).add(&denominator).sub(
        &I256::from_i128(env, 1),
    ).div(&denominator).to_i128()
}

} // verus!
