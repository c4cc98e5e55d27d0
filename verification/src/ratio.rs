//! Products and quotients that stay inside `i128` by reducing the fraction
//! first: only a numerator that is out of range in lowest terms overflows.

use crate::fixed::{
    ceil_div, fits, lemma_ceil, lemma_ceil_from_floor, lemma_ceil_unique, lemma_floor,
    lemma_floor_unique, lemma_quot_times, quot, quotient, remainder,
};
use vstd::prelude::*;

verus! {

/// The magnitude of an integer.
pub open spec fn magnitude(n: int) -> nat {
    if n >= 0 {
        n as nat
    } else {
        (-n) as nat
    }
}

/// Whether `k` divides `n`.
pub open spec fn divides(k: int, n: int) -> bool {
    exists|m: int| n == #[trigger] (k * m)
}

/// The greatest common divisor of two naturals, zero only of zero and zero.
pub open spec fn gcd_nat(a: nat, b: nat) -> nat
    decreases b,
{
    if b == 0 {
        a
    } else {
        gcd_nat(b, (a % b) as nat)
    }
}

/// The greatest common divisor of two integers.
pub open spec fn gcd(a: int, b: int) -> int {
    gcd_nat(magnitude(a), magnitude(b)) as int
}

/// The numerator of `n / d` in lowest terms.
pub open spec fn lowest(n: int, d: int) -> int {
    quot(n, gcd(n, d))
}

/// `lhs * rhs / d` rounded toward zero. There is none where the divisor is
/// zero, or where the fraction in lowest terms still has a numerator, or the
/// quotient is, outside `i128`.
pub open spec fn scaled(lhs: int, rhs: int, d: int) -> Option<i128> {
    if d != 0 && fits(lowest(lhs * rhs, d)) && fits(quot(lhs * rhs, d)) {
        Some(quot(lhs * rhs, d) as i128)
    } else {
        None
    }
}

/// `lhs * rhs / d` rounded up, with the same limits.
pub open spec fn scaled_ceil(lhs: int, rhs: int, d: int) -> Option<i128> {
    if d != 0 && fits(lowest(lhs * rhs, d)) && fits(ceil_div(lhs * rhs, d)) {
        Some(ceil_div(lhs * rhs, d) as i128)
    } else {
        None
    }
}

proof fn lemma_divides_sum(k: int, a: int, b: int)
    requires
        divides(k, a),
        divides(k, b),
    ensures
        divides(k, a + b),
        divides(k, a - b),
{
    let x = choose|m: int| a == #[trigger] (k * m);
    let y = choose|m: int| b == #[trigger] (k * m);
    assert(a + b == k * (x + y) && a - b == k * (x - y)) by (nonlinear_arith)
        requires
            a == k * x,
            b == k * y,
    ;
}

proof fn lemma_divides_multiple(k: int, a: int, c: int)
    requires
        divides(k, a),
    ensures
        divides(k, a * c),
        divides(k, c * a),
        divides(k, -a),
{
    let x = choose|m: int| a == #[trigger] (k * m);
    assert(a * c == k * (x * c) && c * a == k * (x * c) && -a == k * (-x)) by (nonlinear_arith)
        requires
            a == k * x,
    ;
}

proof fn lemma_divides_refl(k: int)
    ensures
        divides(k, k),
        divides(k, 0),
        divides(1, k),
{
    assert(k == k * 1);
    assert(0 == k * 0);
    assert(k == 1 * k);
}

proof fn lemma_divisor_is_no_larger(k: int, n: int)
    requires
        divides(k, n),
        n > 0,
    ensures
        k <= n,
        k != 0,
{
    let m = choose|m: int| n == #[trigger] (k * m);
    assert(k <= n && k != 0) by (nonlinear_arith)
        requires
            n == k * m,
            n > 0,
    ;
}

/// The greatest common divisor divides both numbers, every common divisor
/// divides it, and it is a combination of the two.
proof fn lemma_gcd_nat(a: nat, b: nat)
    ensures
        divides(gcd_nat(a, b) as int, a as int),
        divides(gcd_nat(a, b) as int, b as int),
        forall|k: int|
            divides(k, a as int) && divides(k, b as int) ==> #[trigger] divides(
                k,
                gcd_nat(a, b) as int,
            ),
        exists|x: int, y: int| gcd_nat(a, b) == #[trigger] (a * x) + #[trigger] (b * y),
        (a > 0 || b > 0) ==> gcd_nat(a, b) > 0,
        b > 0 ==> gcd_nat(a, b) <= b,
        a > 0 ==> gcd_nat(a, b) <= a,
    decreases b,
{
    let g = gcd_nat(a, b) as int;
    if b == 0 {
        lemma_divides_refl(a as int);
        assert(g == a * 1 + b * 0);
    } else {
        let r = (a % b) as nat;
        let q = (a / b) as int;
        lemma_gcd_nat(b, r);
        assert(a == b * q + r) by {
            vstd::arithmetic::div_mod::lemma_fundamental_div_mod(a as int, b as int);
        }
        lemma_divides_multiple(g, b as int, q);
        lemma_divides_sum(g, b * q, r as int);
        assert forall|k: int|
            divides(k, a as int) && divides(k, b as int) implies #[trigger] divides(k, g) by {
            lemma_divides_multiple(k, b as int, q);
            lemma_divides_sum(k, a as int, b * q);
        }
        let (x, y) = choose|x: int, y: int| g == #[trigger] (b * x) + #[trigger] (r * y);
        assert(g == a * y + b * (x - q * y)) by (nonlinear_arith)
            requires
                g == b * x + r * y,
                a == b * q + r,
        ;
        if a > 0 {
            lemma_divisor_is_no_larger(g, a as int);
        }
    }
}

/// What `lemma_gcd_nat` says, of integers.
pub proof fn lemma_gcd(a: int, b: int)
    ensures
        divides(gcd(a, b), a),
        divides(gcd(a, b), b),
        forall|k: int|
            divides(k, a) && divides(k, b) ==> #[trigger] divides(k, gcd(a, b)),
        gcd(a, b) >= 0,
        (a != 0 || b != 0) ==> gcd(a, b) > 0,
        b != 0 ==> gcd(a, b) <= magnitude(b),
        a != 0 ==> gcd(a, b) <= magnitude(a),
{
    let ma = magnitude(a) as int;
    let mb = magnitude(b) as int;
    let g = gcd(a, b);
    lemma_gcd_nat(magnitude(a), magnitude(b));
    lemma_divides_multiple(g, ma, 1);
    lemma_divides_multiple(g, mb, 1);
    assert forall|k: int| divides(k, a) && divides(k, b) implies #[trigger] divides(k, g) by {
        lemma_divides_multiple(k, a, 1);
        lemma_divides_multiple(k, b, 1);
    }
}

/// A combination of two integers that makes their greatest common divisor.
proof fn lemma_combination(a: int, b: int) -> (pair: (int, int))
    ensures
        gcd(a, b) == a * pair.0 + b * pair.1,
{
    let ma = magnitude(a);
    let mb = magnitude(b);
    lemma_gcd_nat(ma, mb);
    let (x, y) = choose|x: int, y: int| gcd_nat(ma, mb) == #[trigger] (ma * x) + #[trigger] (mb * y);
    let sx: int = if a >= 0 { x } else { -x };
    let sy: int = if b >= 0 { y } else { -y };
    assert(ma * x == a * sx) by (nonlinear_arith)
        requires
            (ma == a && sx == x) || (ma == -a && sx == -x),
    ;
    assert(mb * y == b * sy) by (nonlinear_arith)
        requires
            (mb == b && sy == y) || (mb == -b && sy == -y),
    ;
    (sx, sy)
}

/// Dividing by a divisor is exact.
pub proof fn lemma_exact(n: int, k: int)
    requires
        k > 0,
        divides(k, n),
    ensures
        quot(n, k) * k == n,
        k * quot(n, k) == n,
{
    let m = choose|m: int| n == #[trigger] (k * m);
    lemma_quot_times(n, k);
    let q = quot(n, k);
    assert(q == m) by (nonlinear_arith)
        requires
            k > 0,
            n == k * m,
            (n >= 0 && 0 <= n - q * k < k) || (n <= 0 && 0 <= q * k - n < k),
    ;
    assert(q * k == k * q) by (nonlinear_arith);
}

/// A common factor drops out of a quotient.
pub proof fn lemma_quot_cancels(n: int, d: int, k: int)
    requires
        k > 0,
        d != 0,
    ensures
        quot(n * k, d * k) == quot(n, d),
{
    let mn = magnitude(n) as int;
    let md = magnitude(d) as int;
    lemma_floor(mn, md);
    let q = mn / md;
    assert((md * k) * q <= mn * k < (md * k) * q + md * k && md * k > 0) by (nonlinear_arith)
        requires
            k > 0,
            md > 0,
            md * q <= mn < md * q + md,
    ;
    lemma_floor_unique(mn * k, md * k, q);
    assert(n * k >= 0 <==> n >= 0) by (nonlinear_arith)
        requires
            k > 0,
    ;
    assert(d * k > 0 <==> d > 0) by (nonlinear_arith)
        requires
            k > 0,
            d != 0,
    ;
    assert((-n) * k == -(n * k) && (-d) * k == -(d * k)) by (nonlinear_arith);
}

/// Reducing each factor against the divisor in turn brings the whole fraction
/// to lowest terms.
pub proof fn lemma_reduction(lhs: int, rhs: int, d: int)
    requires
        d != 0,
    ensures
        ({
            let g1 = gcd(lhs, d);
            let l = quot(lhs, g1);
            let d1 = quot(d, g1);
            let g2 = gcd(rhs, d1);
            let r = quot(rhs, g2);
            let d2 = quot(d1, g2);
            &&& g1 > 0
            &&& g2 > 0
            &&& d1 != 0
            &&& d2 != 0
            &&& d > 0 ==> 0 < d2 <= d1 <= d
            &&& d < 0 ==> d <= d1 <= d2 < 0
            &&& l * r == lowest(lhs * rhs, d)
            &&& quot(l * r, d2) == quot(lhs * rhs, d)
            &&& d > 0 ==> ceil_div(l * r, d2) == ceil_div(lhs * rhs, d)
        }),
{
    let g1 = gcd(lhs, d);
    let l = quot(lhs, g1);
    let d1 = quot(d, g1);
    let g2 = gcd(rhs, d1);
    let r = quot(rhs, g2);
    let d2 = quot(d1, g2);
    lemma_gcd(lhs, d);
    lemma_exact(lhs, g1);
    lemma_exact(d, g1);
    assert(d1 != 0) by {
        assert(0 * g1 == 0);
    }
    lemma_gcd(rhs, d1);
    lemma_exact(rhs, g2);
    lemma_exact(d1, g2);
    assert(d2 != 0) by {
        assert(0 * g2 == 0);
    }
    lemma_quot_times(d, g1);
    lemma_quot_times(d1, g2);
    assert((d > 0 ==> 0 < d1 <= d) && (d < 0 ==> d <= d1 < 0)) by (nonlinear_arith)
        requires
            d1 * g1 == d,
            d1 != 0,
            g1 > 0,
    ;
    assert((d1 > 0 ==> 0 < d2 <= d1) && (d1 < 0 ==> d1 <= d2 < 0)) by (nonlinear_arith)
        requires
            d2 * g2 == d1,
            d2 != 0,
            g2 > 0,
    ;
    let g = g1 * g2;
    let product = lhs * rhs;
    assert(g > 0) by (nonlinear_arith)
        requires
            g1 > 0,
            g2 > 0,
            g == g1 * g2,
    ;
    assert(product == (l * r) * g && d == d2 * g) by (nonlinear_arith)
        requires
            product == lhs * rhs,
            l * g1 == lhs,
            r * g2 == rhs,
            d1 * g1 == d,
            d2 * g2 == d1,
            g == g1 * g2,
    ;
    lemma_quot_cancels(l * r, d2, g);
    lemma_product_gcd(lhs, rhs, d);
    lemma_quot_cancels(l * r, 1, g);
    assert(1 * g == g);
    assert(quot(l * r, 1) == l * r);
    if d > 0 {
        lemma_ceil_from_floor(l * r, d2);
        lemma_ceil_from_floor(product, d);
        lemma_floor(l * r, d2);
        let f = (l * r) / d2;
        assert(d * f <= product < d * f + d && (d * f == product <==> d2 * f == l * r))
            by (nonlinear_arith)
            requires
                product == (l * r) * g,
                d == d2 * g,
                g > 0,
                d2 * f <= l * r < d2 * f + d2,
        ;
        lemma_floor_unique(product, d, f);
    }
}

/// The greatest common divisor of a product and `d` is that of the first factor
/// and `d`, times that of the second factor and what is left of `d`.
proof fn lemma_product_gcd(lhs: int, rhs: int, d: int)
    requires
        d != 0,
    ensures
        gcd(lhs * rhs, d) == gcd(lhs, d) * gcd(rhs, quot(d, gcd(lhs, d))),
{
    let g1 = gcd(lhs, d);
    lemma_gcd(lhs, d);
    let l = quot(lhs, g1);
    let d1 = quot(d, g1);
    lemma_exact(lhs, g1);
    lemma_exact(d, g1);
    assert(d1 != 0) by {
        assert(0 * g1 == 0);
    }
    let g2 = gcd(rhs, d1);
    lemma_gcd(rhs, d1);
    lemma_exact(rhs, g2);
    lemma_exact(d1, g2);
    let r = quot(rhs, g2);
    let d2 = quot(d1, g2);
    let product = lhs * rhs;
    let big = gcd(product, d);
    lemma_gcd(product, d);
    let g = g1 * g2;
    // `g` divides both, so it divides `big`.
    assert(product == g * (l * r) && d == g * d2) by (nonlinear_arith)
        requires
            product == lhs * rhs,
            l * g1 == lhs,
            r * g2 == rhs,
            d1 * g1 == d,
            d2 * g2 == d1,
            g == g1 * g2,
    ;
    assert(divides(g, product));
    assert(divides(g, d));
    assert(divides(g, big));
    // `big` is `g1` times some `h`, since `g1` divides both too.
    assert(product == g1 * (l * rhs)) by (nonlinear_arith)
        requires
            product == lhs * rhs,
            g1 * l == lhs,
    ;
    assert(divides(g1, product));
    assert(divides(g1, big));
    let h = choose|m: int| big == #[trigger] (g1 * m);
    // `h` divides `l * rhs` and `d1`.
    let u = choose|m: int| product == #[trigger] (big * m);
    let v = choose|m: int| d == #[trigger] (big * m);
    assert(l * rhs == h * u && d1 == h * v) by (nonlinear_arith)
        requires
            g1 > 0,
            big == g1 * h,
            product == g1 * (l * rhs),
            product == big * u,
            d == d1 * g1,
            d == big * v,
    ;
    assert(divides(h, l * rhs));
    assert(divides(h, d1));
    // `l` and `d1` have a combination that is one, so `h` divides `rhs`.
    let (x, y) = lemma_combination(lhs, d);
    assert(l * x + d1 * y == 1) by (nonlinear_arith)
        requires
            g1 > 0,
            g1 == lhs * x + d * y,
            lhs == l * g1,
            d == d1 * g1,
    ;
    assert(rhs == (l * rhs) * x + d1 * (y * rhs)) by (nonlinear_arith)
        requires
            l * x + d1 * y == 1,
    ;
    lemma_divides_multiple(h, l * rhs, x);
    lemma_divides_multiple(h, d1, y * rhs);
    lemma_divides_sum(h, (l * rhs) * x, d1 * (y * rhs));
    assert(divides(h, rhs));
    assert(divides(h, g2));
    // So `big` divides `g`, and each is no larger than the other.
    let w = choose|m: int| g2 == #[trigger] (h * m);
    assert(g == big * w) by (nonlinear_arith)
        requires
            g == g1 * g2,
            g2 == h * w,
            big == g1 * h,
    ;
    assert(divides(big, g));
    assert(g > 0) by (nonlinear_arith)
        requires
            g1 > 0,
            g2 > 0,
            g == g1 * g2,
    ;
    lemma_divisor_is_no_larger(big, g);
    lemma_divisor_is_no_larger(g, big);
}

/// Euclid's step: the common divisors of two numbers are those of the second
/// and the remainder.
proof fn lemma_gcd_step(a: int, b: int)
    requires
        b != 0,
    ensures
        gcd(b, a - b * quot(a, b)) == gcd(a, b),
{
    let ma = magnitude(a) as int;
    let mb = magnitude(b) as int;
    let r = a - b * quot(a, b);
    lemma_quot_times(a, b);
    vstd::arithmetic::div_mod::lemma_fundamental_div_mod(ma, mb);
    let f = ma / mb;
    assert(magnitude(r) == ma % mb) by {
        assert((-f) * b == -(f * b) && f * (-b) == -(f * b) && (-f) * (-b) == f * b && b * (-f) == -(
        b * f) && (-b) * f == -(b * f)) by (nonlinear_arith);
        vstd::arithmetic::div_mod::lemma_mod_bound(ma, mb);
    }
}

/// Whether the divisor of two numbers can be computed: it has an `i128`, and so
/// has every quotient on the way to it.
pub open spec fn has_gcd(lhs: int, rhs: int) -> bool {
    &&& gcd(lhs, rhs) <= i128::MAX
    &&& !(lhs == i128::MIN && rhs == -1)
    &&& !(lhs == -1 && rhs == i128::MIN)
}

/// Whether a fraction can be reduced: first against one factor, then against the
/// other.
pub open spec fn reducible(lhs: int, rhs: int, d: int) -> bool {
    has_gcd(lhs, d) && has_gcd(rhs, quot(d, gcd(lhs, d)))
}

/// Only the least number gets in the way of reducing a fraction, and it does not
/// over a positive divisor.
pub proof fn lemma_reducible(lhs: int, rhs: int, d: int)
    requires
        fits(d),
        d > 0 || (d < 0 && d > i128::MIN && lhs > i128::MIN && rhs > i128::MIN),
    ensures
        reducible(lhs, rhs, d),
{
    lemma_gcd(lhs, d);
    lemma_reduction(lhs, rhs, d);
    lemma_gcd(rhs, quot(d, gcd(lhs, d)));
}

/// The greatest common divisor of two numbers. The one that has no `i128` is
/// left out, and so are the two pairs whose remainder has no `i128` quotient.
pub fn gcd_i128(lhs: i128, rhs: i128) -> (divisor: i128)
    requires
        has_gcd(lhs as int, rhs as int),
    ensures
        divisor == gcd(lhs as int, rhs as int),
{
    let mut a: i128 = lhs;
    let mut b: i128 = rhs;
    while b != 0
        invariant
            gcd(a as int, b as int) == gcd(lhs as int, rhs as int),
            gcd(lhs as int, rhs as int) <= i128::MAX,
            !(a == i128::MIN && b == -1),
            !(a == -1 && b == i128::MIN),
        decreases magnitude(b as int),
    {
        proof {
            lemma_gcd_step(a as int, b as int);
            lemma_quot_times(a as int, b as int);
            let q = quot(a as int, b as int);
            if b == i128::MIN && a != i128::MIN {
                assert(q == 0) by (nonlinear_arith)
                    requires
                        b == -0x8000_0000_0000_0000_0000_0000_0000_0000int,
                        -0x8000_0000_0000_0000_0000_0000_0000_0000int < q * b
                            < 0x8000_0000_0000_0000_0000_0000_0000_0000int,
                ;
                assert(b * q == 0);
            }
            if b == i128::MIN && a == i128::MIN {
                assert(q == 1);
                assert(b * q == b) by (nonlinear_arith)
                    requires
                        q == 1,
                ;
            }
        }
        let next: i128 = remainder(a, b);
        a = b;
        b = next;
    }
    if a < 0 {
        -a
    } else {
        a
    }
}

/// The fraction `lhs * rhs / d` in lowest terms. `None` where the divisor is
/// zero or the reduced numerator is outside `i128`.
pub fn reduced_product(lhs: i128, rhs: i128, d: i128) -> (result: Option<(i128, i128)>)
    requires
        d < 0 ==> reducible(lhs as int, rhs as int, d as int),
    ensures
        result is Some <==> d != 0 && fits(lowest(lhs * rhs, d as int)),
        match result {
            Some((product, divisor)) => {
                &&& divisor != 0
                &&& d > 0 ==> divisor > 0
                &&& product == lowest(lhs * rhs, d as int)
                &&& quot(product as int, divisor as int) == quot(lhs * rhs, d as int)
                &&& d > 0 ==> ceil_div(product as int, divisor as int) == ceil_div(lhs * rhs, d as int)
            },
            None => true,
        },
{
    if d == 0 {
        return None;
    }
    proof {
        if d > 0 {
            lemma_reducible(lhs as int, rhs as int, d as int);
        }
        lemma_reduction(lhs as int, rhs as int, d as int);
    }
    let lhs_gcd: i128 = gcd_i128(lhs, d);
    let lhs_reduced: i128 = quotient(lhs, lhs_gcd);
    let d_reduced: i128 = quotient(d, lhs_gcd);
    let rhs_gcd: i128 = gcd_i128(rhs, d_reduced);
    let rhs_reduced: i128 = quotient(rhs, rhs_gcd);
    let d_final: i128 = quotient(d_reduced, rhs_gcd);
    match lhs_reduced.checked_mul(rhs_reduced) {
        Some(product) => Some((product, d_final)),
        None => None,
    }
}

/// `lhs * rhs / d`, rounded toward zero.
pub fn mul_div(lhs: i128, rhs: i128, d: i128) -> (result: Option<i128>)
    requires
        d < 0 ==> reducible(lhs as int, rhs as int, d as int),
    ensures
        result == scaled(lhs as int, rhs as int, d as int),
{
    let (product, divisor): (i128, i128) = reduced_product(lhs, rhs, d)?;
    if product == i128::MIN && divisor == -1 {
        assert(quot(product as int, divisor as int) == -(i128::MIN as int));
        return None;
    }
    Some(quotient(product, divisor))
}

/// `lhs * rhs / d` rounded up, for factors that are not negative.
pub fn mul_div_ceil(lhs: i128, rhs: i128, d: i128) -> (result: Option<i128>)
    requires
        lhs >= 0,
        rhs >= 0,
        d >= 0,
    ensures
        result == scaled_ceil(lhs as int, rhs as int, d as int),
{
    let (product, divisor): (i128, i128) = reduced_product(lhs, rhs, d)?;
    proof {
        assert(lhs * rhs >= 0) by (nonlinear_arith)
            requires
                lhs >= 0,
                rhs >= 0,
        ;
        lemma_gcd(lhs * rhs, d as int);
        lemma_floor(lhs * rhs, gcd(lhs * rhs, d as int));
        lemma_ceil_from_floor(product as int, divisor as int);
        lemma_quot_times(product as int, divisor as int);
    }
    let whole: i128 = quotient(product, divisor);
    if remainder(product, divisor) != 0 {
        whole.checked_add(1)
    } else {
        Some(whole)
    }
}

/// A product that fits as it stands is never refused.
pub proof fn law_reduction_only_helps(lhs: int, rhs: int, d: int)
    requires
        d > 0,
        fits(lhs * rhs),
    ensures
        scaled(lhs, rhs, d) == Some(quot(lhs * rhs, d) as i128),
{
    lemma_gcd(lhs * rhs, d);
    lemma_shrinks(lhs * rhs, gcd(lhs * rhs, d));
    lemma_shrinks(lhs * rhs, d);
}

/// Dividing by a positive integer keeps a number in range.
proof fn lemma_shrinks(n: int, d: int)
    requires
        d > 0,
        fits(n),
    ensures
        fits(quot(n, d)),
{
    if n >= 0 {
        lemma_floor(n, d);
    } else {
        lemma_floor(-n, d);
    }
}

/// A quotient is never refused where it is a part of one of its factors: taking
/// `n` out of `whole` in proportion gives between nothing and everything.
pub proof fn lemma_proportion(held: int, n: int, whole: int)
    requires
        held >= 0,
        0 <= n <= whole,
        whole > 0,
    ensures
        0 <= quot(held * n, whole) <= held,
        quot(held * n, whole) == held * n / whole,
        n == whole ==> quot(held * n, whole) == held,
{
    assert(0 <= held * n <= held * whole) by (nonlinear_arith)
        requires
            held >= 0,
            0 <= n <= whole,
    ;
    lemma_floor(held * n, whole);
    let q = held * n / whole;
    assert(q <= held) by (nonlinear_arith)
        requires
            whole > 0,
            whole * q <= held * n,
            held * n <= held * whole,
    ;
    if n == whole {
        assert(whole * held == held * whole) by (nonlinear_arith);
        lemma_floor_unique(held * n, whole, held);
    }
}

/// Multiplying and dividing by the same number gives the other factor back,
/// however large the product.
pub proof fn law_scaling_by_itself_is_exact(n: int, k: int)
    requires
        k > 0,
        fits(n),
    ensures
        scaled(n, k, k) == Some(n as i128),
        scaled(k, n, k) == Some(n as i128),
{
    let product = n * k;
    assert(product == k * n && k * n == n * k) by (nonlinear_arith)
        requires
            product == n * k,
    ;
    let g = gcd(product, k);
    lemma_gcd(product, k);
    assert(divides(k, product));
    lemma_divides_refl(k);
    assert(divides(k, g));
    lemma_divisor_is_no_larger(k, g);
    assert(g == k);
    lemma_exact(product, k);
    let q = quot(product, k);
    assert(q == n) by (nonlinear_arith)
        requires
            q * k == n * k,
            k > 0,
    ;
}

/// What a scaled product is. Over a positive divisor the quotient lies between
/// zero and the exact value, less than one from it; rounded up, a quotient that
/// is not negative is the least integer that reaches it. Neither is ever refused
/// where some common divisor `k` of both brings the numerator into range.
pub proof fn law_scaled_is_the_quotient(lhs: int, rhs: int, d: int, k: int, n: int, m: int)
    requires
        d > 0,
    ensures
        scaled(lhs, rhs, d) matches Some(v) ==> {
            &&& lhs * rhs >= 0 ==> v >= 0 && v * d <= lhs * rhs < (v + 1) * d
            &&& lhs * rhs <= 0 ==> v <= 0 && (v - 1) * d < lhs * rhs <= v * d
        },
        lhs * rhs >= 0 ==> (scaled_ceil(lhs, rhs, d) matches Some(v) ==> (v - 1) * d < lhs * rhs <= v
            * d),
        k > 0 && lhs * rhs == k * n && d == k * m && fits(n) ==> scaled(lhs, rhs, d) is Some,
        k > 0 && lhs * rhs == k * n && d == k * m && 0 <= n <= i128::MAX ==> scaled_ceil(
            lhs,
            rhs,
            d,
        ) is Some,
{
    let product = lhs * rhs;
    lemma_quot_times(product, d);
    let q = quot(product, d);
    assert((q + 1) * d == q * d + d && (q - 1) * d == q * d - d) by (nonlinear_arith);
    assert(product >= 0 ==> q >= 0) by (nonlinear_arith)
        requires
            d > 0,
            product >= 0 ==> product - q * d < d,
    ;
    assert(product <= 0 ==> q <= 0) by (nonlinear_arith)
        requires
            d > 0,
            product <= 0 ==> q * d - product < d,
    ;
    lemma_ceil(product, d);
    let c = ceil_div(product, d);
    assert((c - 1) * d == c * d - d) by (nonlinear_arith);
    if k > 0 && product == k * n && d == k * m && fits(n) {
        lemma_gcd(product, d);
        let g = gcd(product, d);
        assert(divides(k, product));
        assert(divides(k, d));
        assert(divides(k, g));
        lemma_exact(product, g);
        let t = choose|t: int| g == #[trigger] (k * t);
        let low = quot(product, g);
        assert(t >= 1) by (nonlinear_arith)
            requires
                g == k * t,
                g > 0,
                k > 0,
        ;
        assert(n == low * t) by (nonlinear_arith)
            requires
                low * g == product,
                product == k * n,
                g == k * t,
                k > 0,
        ;
        assert((low >= 0 ==> low <= n) && (low <= 0 ==> n <= low)) by (nonlinear_arith)
            requires
                n == low * t,
                t >= 1,
        ;
        assert(m >= 1) by (nonlinear_arith)
            requires
                d == k * m,
                d > 0,
                k > 0,
        ;
        lemma_quot_cancels(n, m, k);
        assert(n * k == product && m * k == d) by (nonlinear_arith)
            requires
                product == k * n,
                d == k * m,
        ;
        lemma_shrinks(n, m);
        if n >= 0 {
            lemma_ceil(n, m);
            let e = ceil_div(n, m);
            assert(d * e - d < product <= d * e) by (nonlinear_arith)
                requires
                    product == k * n,
                    d == k * m,
                    k > 0,
                    m * e - m < n <= m * e,
            ;
            lemma_ceil_unique(product, d, e);
        }
    }
}

} // verus!
