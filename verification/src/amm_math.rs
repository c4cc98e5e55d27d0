//! The market's integer math: checked fixed-point steps, the floor square root,
//! and the natural logarithm and exponential in fixed point.

use crate::amm::Error;
use crate::fixed::{fits, lemma_floor, lemma_quot_times, quot, quotient, remainder, WAD};
use vstd::prelude::*;

verus! {

/// ln(2), scaled by `WAD`.
pub const LN2_WAD: i128 = 693_147_180_559_945_309;

/// The most units of either token one trade or deposit may name.
pub const MAX_RESERVE_UNITS: i128 = WAD;

// ---------------------------------------------------------------------------
// Checked steps
// ---------------------------------------------------------------------------

/// An integer where it is an `i128`, and the overflow error where it is not.
pub open spec fn in_range(value: int) -> Result<i128, Error> {
    if fits(value) {
        Ok(value as i128)
    } else {
        Err(Error::MathOverflow)
    }
}

/// `lhs * rhs / denominator` rounded toward zero, where the product fits.
pub open spec fn scaled_down(lhs: int, rhs: int, denominator: int) -> Result<i128, Error> {
    if denominator == 0 || !fits(lhs * rhs) {
        Err(Error::MathOverflow)
    } else {
        Ok(quot(lhs * rhs, denominator) as i128)
    }
}

/// `scaled_down`, plus one where the division is not exact.
pub open spec fn scaled_up(lhs: int, rhs: int, denominator: int) -> Result<i128, Error> {
    if denominator == 0 || !fits(lhs * rhs) {
        Err(Error::MathOverflow)
    } else if quot(lhs * rhs, denominator) * denominator == lhs * rhs {
        Ok(quot(lhs * rhs, denominator) as i128)
    } else {
        Ok((quot(lhs * rhs, denominator) + 1) as i128)
    }
}

/// A difference that is owed to be nonnegative.
pub open spec fn difference(lhs: int, rhs: int) -> Result<i128, Error> {
    if 0 <= lhs - rhs <= i128::MAX {
        Ok((lhs - rhs) as i128)
    } else {
        Err(Error::MathOverflow)
    }
}

/// A reserve after an addition, held to the reserve bound.
pub open spec fn bounded_sum(lhs: int, rhs: int) -> Result<i128, Error> {
    if !fits(lhs + rhs) {
        Err(Error::MathOverflow)
    } else if lhs + rhs > MAX_RESERVE_UNITS {
        Err(Error::InputOutOfBounds)
    } else {
        Ok((lhs + rhs) as i128)
    }
}

pub fn checked_add(lhs: i128, rhs: i128) -> (result: Result<i128, Error>)
    ensures
        result == in_range(lhs + rhs),
{
    match lhs.checked_add(rhs) {
        Some(value) => Ok(value),
        None => Err(Error::MathOverflow),
    }
}

pub fn checked_sub(lhs: i128, rhs: i128) -> (result: Result<i128, Error>)
    ensures
        result == difference(lhs as int, rhs as int),
{
    match lhs.checked_sub(rhs) {
        Some(value) if value >= 0 => Ok(value),
        _ => Err(Error::MathOverflow),
    }
}

pub fn checked_mul(lhs: i128, rhs: i128) -> (result: Result<i128, Error>)
    ensures
        result == in_range(lhs * rhs),
{
    match lhs.checked_mul(rhs) {
        Some(value) => Ok(value),
        None => Err(Error::MathOverflow),
    }
}

pub fn checked_bounded_reserve_add(lhs: i128, rhs: i128) -> (result: Result<i128, Error>)
    ensures
        result == bounded_sum(lhs as int, rhs as int),
{
    let value: i128 = checked_add(lhs, rhs)?;
    if value > MAX_RESERVE_UNITS {
        return Err(Error::InputOutOfBounds);
    }
    Ok(value)
}

pub fn mul_div_down(lhs: i128, rhs: i128, denominator: i128) -> (result: Result<i128, Error>)
    requires
        !(denominator == -1 && lhs * rhs == i128::MIN),
    ensures
        result == scaled_down(lhs as int, rhs as int, denominator as int),
{
    if denominator == 0 {
        return Err(Error::MathOverflow);
    }
    let product: i128 = checked_mul(lhs, rhs)?;
    Ok(quotient(product, denominator))
}

pub fn mul_div_up(lhs: i128, rhs: i128, denominator: i128) -> (result: Result<i128, Error>)
    requires
        !(denominator == -1 && lhs * rhs == i128::MIN),
    ensures
        result == scaled_up(lhs as int, rhs as int, denominator as int),
{
    if denominator == 0 {
        return Err(Error::MathOverflow);
    }
    let product: i128 = checked_mul(lhs, rhs)?;
    let floor: i128 = quotient(product, denominator);
    proof {
        lemma_quot_times(product as int, denominator as int);
        let d: int = denominator as int;
        if floor == i128::MAX && d >= 2 {
            assert(floor * d >= 2 * floor) by (nonlinear_arith)
                requires
                    floor > 0,
                    d >= 2,
            ;
        } else if floor == i128::MAX && d <= -2 {
            assert(floor * d <= -2 * floor) by (nonlinear_arith)
                requires
                    floor > 0,
                    d <= -2,
            ;
        }
        assert(d == 1 ==> floor * d == floor && d * floor == floor) by (nonlinear_arith);
        assert(d == -1 ==> floor * d == -floor && d * floor == -floor) by (nonlinear_arith);
    }
    if remainder(product, denominator) == 0 {
        Ok(floor)
    } else {
        checked_add(floor, 1)
    }
}

// ---------------------------------------------------------------------------
// Square root
// ---------------------------------------------------------------------------

/// Whether `root` is the floor square root of `value`.
pub open spec fn is_sqrt(root: int, value: int) -> bool {
    0 <= root && root * root <= value < (root + 1) * (root + 1)
}

/// One Newton step never falls below the floor square root.
proof fn lemma_newton_step(value: int, x: int)
    requires
        1 <= x <= value,
    ensures
        ({
            let y = (x + value / x) / 2;
            &&& 1 <= y
            &&& x + value / x <= value + 1
            &&& 2 <= x < value ==> x + value / x <= value
            &&& value < (y + 1) * (y + 1)
            &&& y >= x ==> x * x <= value
        }),
{
    lemma_floor(value, x);
    let q: int = value / x;
    let y: int = (x + q) / 2;
    assert(q >= 1) by (nonlinear_arith)
        requires
            1 <= x <= value,
            value < x * q + x,
    ;
    assert(x + q <= value + 1) by (nonlinear_arith)
        requires
            x >= 1,
            q >= 1,
            x * q <= value,
    ;
    if 2 <= x < value && q >= 2 {
        assert(x + q <= value) by (nonlinear_arith)
            requires
                x >= 2,
                q >= 2,
                x * q <= value,
        ;
    }
    assert(2 * (y + 1) >= x + (q + 1));
    let s: int = x + (q + 1);
    assert(4 * ((y + 1) * (y + 1)) >= s * s) by (nonlinear_arith)
        requires
            2 * (y + 1) >= s,
            s >= 0,
    ;
    assert(s * s >= 4 * (x * (q + 1))) by (nonlinear_arith)
        requires
            s == x + (q + 1),
    ;
    assert(x * (q + 1) == x * q + x) by (nonlinear_arith);
    if y >= x {
        assert(x * x <= x * q) by (nonlinear_arith)
            requires
                q >= x,
                x >= 1,
        ;
    }
}

/// The floor square root of a positive value, by Newton's method from above.
pub fn integer_sqrt(value: i128) -> (result: Result<i128, Error>)
    ensures
        match result {
            Ok(root) => value > 0 && root >= 1 && is_sqrt(root as int, value as int) && root == isqrt(
                value as int,
            ),
            Err(error) => value <= 0 && error == Error::InvalidAmount,
        },
{
    if value <= 0 {
        return Err(Error::InvalidAmount);
    }
    proof {
        assert(value / value == 1) by (nonlinear_arith)
            requires
                value > 0,
        ;
        lemma_newton_step(value as int, value as int);
        assert(value < (value + 1) * (value + 1)) by (nonlinear_arith)
            requires
                value > 0,
        ;
    }
    let mut x: i128 = value;
    let mut y: i128 = value / 2 + value % 2;
    while y < x
        invariant
            1 <= x <= value,
            y == (x + value as int / x as int) / 2,
            value < (x + 1) * (x + 1),
        decreases x,
    {
        proof {
            lemma_newton_step(value as int, x as int);
            lemma_newton_step(value as int, y as int);
            assert(y == 1 ==> (y + 1) * (y + 1) == 4) by (nonlinear_arith);
        }
        x = y;
        y = (x + value / x) / 2;
    }
    proof {
        lemma_newton_step(value as int, x as int);
        lemma_isqrt(x as int, value as int);
    }
    Ok(x)
}

/// The floor square root.
pub open spec fn isqrt(value: int) -> int {
    choose|root: int| is_sqrt(root, value)
}

/// Every nonnegative integer has a floor square root, no larger than itself.
pub proof fn lemma_isqrt_exists(value: int)
    requires
        value >= 0,
    ensures
        is_sqrt(isqrt(value), value),
        isqrt(value) <= value,
    decreases value,
{
    if value == 0 {
        assert(is_sqrt(0, 0));
    } else {
        lemma_isqrt_exists(value - 1);
        let root: int = isqrt(value - 1);
        if value < (root + 1) * (root + 1) {
            assert(is_sqrt(root, value));
        } else {
            let next: int = root + 1;
            assert(next * next <= value < (next + 1) * (next + 1)) by (nonlinear_arith)
                requires
                    next >= 1,
                    value - 1 < next * next <= value,
            ;
            assert(is_sqrt(next, value));
        }
    }
    let found: int = isqrt(value);
    assert(found <= value) by (nonlinear_arith)
        requires
            0 <= found,
            found * found <= value,
    ;
}

/// A floor square root is unique.
pub proof fn lemma_isqrt(root: int, value: int)
    requires
        is_sqrt(root, value),
    ensures
        isqrt(value) == root,
{
    let other: int = isqrt(value);
    assert(is_sqrt(other, value));
    assert(root == other) by (nonlinear_arith)
        requires
            0 <= root,
            0 <= other,
            root * root <= value < (root + 1) * (root + 1),
            other * other <= value < (other + 1) * (other + 1),
    ;
}

/// What scaling is, of amounts that are not negative over a positive divisor: the
/// exact quotient, rounded down or up. It fails exactly where the product is out
/// of range.
pub proof fn law_scaled_terms(lhs: int, rhs: int, d: int)
    requires
        lhs >= 0,
        rhs >= 0,
        d > 0,
    ensures
        scaled_down(lhs, rhs, d) is Ok <==> lhs * rhs <= i128::MAX,
        scaled_up(lhs, rhs, d) is Ok <==> lhs * rhs <= i128::MAX,
        scaled_down(lhs, rhs, d) matches Ok(v) ==> v >= 0 && v * d <= lhs * rhs < (v + 1) * d,
        scaled_up(lhs, rhs, d) matches Ok(v) ==> v >= 0 && (v - 1) * d < lhs * rhs <= v * d,
{
    let n: int = lhs * rhs;
    assert(n >= 0) by (nonlinear_arith)
        requires
            n == lhs * rhs,
            lhs >= 0,
            rhs >= 0,
    ;
    lemma_floor(n, d);
    let q: int = n / d;
    assert((q + 1) * d == q * d + d && (q + 1 - 1) * d == q * d && (q - 1) * d == q * d - d)
        by (nonlinear_arith);
    assert(q * d != n ==> d >= 2) by (nonlinear_arith)
        requires
            d > 0,
            d * q <= n < d * q + d,
            q * d == d * q,
    ;
    assert(q * d != n && n <= i128::MAX ==> q + 1 <= i128::MAX) by (nonlinear_arith)
        requires
            q * d != n ==> d >= 2,
            q >= 0,
            q * d <= n,
    ;
}

/// What a reserve may grow to: the sum, wherever it is within the reserve bound.
pub proof fn law_reserve_terms(lhs: int, rhs: int)
    requires
        0 <= lhs <= i128::MAX,
        0 <= rhs <= i128::MAX,
    ensures
        bounded_sum(lhs, rhs) is Ok <==> lhs + rhs <= 1_000_000_000_000_000_000,
        bounded_sum(lhs, rhs) matches Ok(sum) ==> sum == lhs + rhs,
{
}

} // verus!
