//! Fixed-point arithmetic: the scale, the two roundings, and the facts about
//! quotients that the rest of the library leans on.

use vstd::prelude::*;

verus! {

/// One, in the fixed-point scale every rate is expressed in.
pub const WAD: i128 = 1_000_000_000_000_000_000;

/// Whether an integer is representable as an `i128`.
pub open spec fn fits(value: int) -> bool {
    i128::MIN <= value <= i128::MAX
}

/// The quotient rounded toward zero.
pub open spec fn quot(n: int, d: int) -> int {
    if n >= 0 {
        if d > 0 {
            n / d
        } else {
            -(n / (-d))
        }
    } else {
        if d > 0 {
            -((-n) / d)
        } else {
            (-n) / (-d)
        }
    }
}

/// The least integer at or above `n / d`, for a positive `d`.
pub open spec fn ceil_div(n: int, d: int) -> int {
    (n + d - 1) / d
}

/// The smaller of two integers.
pub open spec fn min_of(a: int, b: int) -> int {
    if a <= b {
        a
    } else {
        b
    }
}

/// Divides, rounding toward zero.
pub fn quotient(n: i128, d: i128) -> (q: i128)
    requires
        d != 0,
        !(n == i128::MIN && d == -1),
    ensures
        q == quot(n as int, d as int),
{
    proof {
        let a: int = if n >= 0 { n as int } else { -n };
        let b: int = if d > 0 { d as int } else { -d };
        lemma_floor(0, b);
        lemma_floor(a, b);
        if b >= 2 {
            let f: int = a / b;
            assert(2 * f <= a) by (nonlinear_arith)
                requires
                    b >= 2,
                    f >= 0,
                    b * f <= a,
            ;
        }
    }
    match n.checked_div(d) {
        Some(q) => q,
        None => 0,
    }
}

/// The remainder that goes with `quotient`: it has the sign of `n`.
pub fn remainder(n: i128, d: i128) -> (r: i128)
    requires
        d != 0,
        !(n == i128::MIN && d == -1),
    ensures
        r == n - d * quot(n as int, d as int),
{
    let q: i128 = quotient(n, d);
    proof {
        lemma_quot_times(n as int, d as int);
    }
    n - q * d
}

/// `quot(n, d) * d` lies between zero and `n`, less than `|d|` away from `n`.
pub proof fn lemma_quot_times(n: int, d: int)
    requires
        d != 0,
    ensures
        n >= 0 ==> 0 <= quot(n, d) * d <= n,
        n <= 0 ==> n <= quot(n, d) * d <= 0,
        n >= 0 && d > 0 ==> n - quot(n, d) * d < d,
        n >= 0 && d < 0 ==> n - quot(n, d) * d < -d,
        n <= 0 && d > 0 ==> quot(n, d) * d - n < d,
        n <= 0 && d < 0 ==> quot(n, d) * d - n < -d,
        quot(n, d) * d == d * quot(n, d),
{
    let a: int = if n >= 0 { n } else { -n };
    let b: int = if d > 0 { d } else { -d };
    lemma_floor(a, b);
    let f: int = a / b;
    assert(f >= 0) by (nonlinear_arith)
        requires
            a >= 0,
            b > 0,
            f == a / b,
    ;
    assert(0 <= f * b && f * b == b * f) by (nonlinear_arith)
        requires
            f >= 0,
            b > 0,
    ;
    let q: int = quot(n, d);
    assert(q == f || q == -f);
    assert((-f) * b == -(f * b) && f * (-b) == -(f * b) && (-f) * (-b) == f * b && q * d == d * q)
        by (nonlinear_arith);
}

/// A floor quotient: `d * (n / d)` is the last multiple of `d` at or below `n`.
pub proof fn lemma_floor(n: int, d: int)
    requires
        d > 0,
    ensures
        d * (n / d) <= n < d * (n / d) + d,
        (n / d) * d <= n < (n / d) * d + d,
        n >= 0 ==> 0 <= n / d <= n,
{
    vstd::arithmetic::div_mod::lemma_fundamental_div_mod(n, d);
    vstd::arithmetic::div_mod::lemma_mod_bound(n, d);
    vstd::arithmetic::mul::lemma_mul_is_commutative(d, n / d);
    if n >= 0 {
        vstd::arithmetic::div_mod::lemma_div_pos_is_pos(n, d);
        vstd::arithmetic::div_mod::lemma_div_nonincreasing(n, d);
    }
}

/// A quotient is fixed by the bounds of `lemma_floor`.
pub proof fn lemma_floor_unique(n: int, d: int, q: int)
    requires
        d > 0,
        d * q <= n < d * q + d,
    ensures
        n / d == q,
{
    lemma_floor(n, d);
    let p: int = n / d;
    assert(p == q) by (nonlinear_arith)
        requires
            d > 0,
            d * q <= n < d * q + d,
            d * p <= n < d * p + d,
    ;
}

/// A ceiling quotient: `d * ceil_div(n, d)` is the first multiple of `d` at or
/// above `n`.
pub proof fn lemma_ceil(n: int, d: int)
    requires
        d > 0,
    ensures
        d * ceil_div(n, d) - d < n <= d * ceil_div(n, d),
        ceil_div(n, d) * d - d < n <= ceil_div(n, d) * d,
        n >= 0 ==> 0 <= ceil_div(n, d) <= n,
        n > 0 ==> 0 < ceil_div(n, d),
{
    lemma_floor(n + d - 1, d);
    let c: int = ceil_div(n, d);
    if n >= 0 {
        assert(c <= n) by (nonlinear_arith)
            requires
                d > 0,
                n >= 0,
                d * c - d < n,
        ;
        assert(c >= 0) by (nonlinear_arith)
            requires
                d > 0,
                n >= 0,
                n <= d * c,
        ;
        if n > 0 {
            assert(c > 0) by (nonlinear_arith)
                requires
                    d > 0,
                    n > 0,
                    n <= d * c,
            ;
        }
    }
}

/// A ceiling quotient is fixed by the bounds of `lemma_ceil`.
pub proof fn lemma_ceil_unique(n: int, d: int, q: int)
    requires
        d > 0,
        d * q - d < n <= d * q,
    ensures
        ceil_div(n, d) == q,
{
    lemma_floor_unique(n + d - 1, d, q);
}

/// The ceiling is the floor, plus one where the division leaves a remainder.
pub proof fn lemma_ceil_from_floor(n: int, d: int)
    requires
        d > 0,
    ensures
        ceil_div(n, d) == n / d + (if d * (n / d) == n { 0int } else { 1int }),
{
    lemma_floor(n, d);
    let q: int = n / d;
    if d * q == n {
        lemma_ceil_unique(n, d, q);
    } else {
        assert(d * (q + 1) == d * q + d) by (nonlinear_arith);
        lemma_ceil_unique(n, d, q + 1);
    }
}

/// Both roundings are monotone in the numerator.
pub proof fn lemma_div_monotone(n1: int, n2: int, d: int)
    requires
        d > 0,
        n1 <= n2,
    ensures
        n1 / d <= n2 / d,
        ceil_div(n1, d) <= ceil_div(n2, d),
{
    vstd::arithmetic::div_mod::lemma_div_is_ordered(n1, n2, d);
    vstd::arithmetic::div_mod::lemma_div_is_ordered(n1 + d - 1, n2 + d - 1, d);
}

/// Both roundings of a nonnegative numerator fall as the denominator grows.
pub proof fn lemma_div_antitone(n: int, d1: int, d2: int)
    requires
        n >= 0,
        0 < d1 <= d2,
    ensures
        n / d2 <= n / d1,
        ceil_div(n, d2) <= ceil_div(n, d1),
{
    lemma_floor(n, d1);
    lemma_floor(n, d2);
    lemma_ceil(n, d1);
    lemma_ceil(n, d2);
    let f1: int = n / d1;
    let f2: int = n / d2;
    let c1: int = ceil_div(n, d1);
    let c2: int = ceil_div(n, d2);
    assert(f2 <= f1) by (nonlinear_arith)
        requires
            0 < d1 <= d2,
            0 <= f2,
            d2 * f2 <= n < d1 * f1 + d1,
    ;
    assert(c2 <= c1) by (nonlinear_arith)
        requires
            0 < d1 <= d2,
            0 <= c1,
            d2 * c2 - d2 < n <= d1 * c1,
    ;
}

/// Rounding toward zero is monotone in the numerator.
pub proof fn lemma_quot_monotone(n1: int, n2: int, d: int)
    requires
        d > 0,
        n1 <= n2,
    ensures
        quot(n1, d) <= quot(n2, d),
{
    if n1 >= 0 {
        lemma_div_monotone(n1, n2, d);
    } else if n2 < 0 {
        lemma_div_monotone(-n2, -n1, d);
    } else {
        lemma_floor(-n1, d);
        lemma_floor(n2, d);
    }
}

/// A floor never exceeds the ceiling of the same quotient, and is at most one
/// below it.
pub proof fn lemma_floor_le_ceil(n: int, d: int)
    requires
        d > 0,
    ensures
        n / d <= ceil_div(n, d) <= n / d + 1,
{
    lemma_ceil_from_floor(n, d);
}

/// A quotient reaches everything whose product with the denominator does not
/// exceed the numerator, and stays in range with it.
pub proof fn lemma_quot_reaches(n: int, d: int, q: int)
    requires
        d > 0,
        q >= 0,
        q * d <= n,
    ensures
        quot(n, d) == n / d,
        quot(n, d) >= q,
        fits(n) ==> fits(quot(n, d)),
{
    assert(q * d >= 0) by (nonlinear_arith)
        requires
            q >= 0,
            d > 0,
    ;
    lemma_floor(n, d);
    let floor: int = n / d;
    assert(floor >= q) by (nonlinear_arith)
        requires
            d > 0,
            q * d <= n,
            n < d * floor + d,
    ;
}

/// The product of two `i128` values is far inside the 256-bit range.
pub proof fn lemma_product_bound(a: int, b: int)
    requires
        fits(a),
        fits(b),
    ensures
        -0x4000_0000_0000_0000_0000_0000_0000_0000_0000_0000_0000_0000_0000_0000_0000_0000int
            <= a * b
            <= 0x4000_0000_0000_0000_0000_0000_0000_0000_0000_0000_0000_0000_0000_0000_0000_0000int,
{
    let m: int = 0x8000_0000_0000_0000_0000_0000_0000_0000int;
    assert(-(m * m) <= a * b <= m * m) by (nonlinear_arith)
        requires
            -m <= a <= m,
            -m <= b <= m,
    ;
}

} // verus!
