//! Natural logarithm and exponential in fixed point.
//!
//! Both range-reduce by powers of two and sum a short series. Every step rounds
//! toward zero, so the definitions below fix the result to the last unit.

use crate::amm_math::LN2_WAD;
use crate::fixed::{
    fits, lemma_div_monotone, lemma_floor, lemma_floor_unique, lemma_quot_times, quot, quotient,
    WAD,
};
use vstd::arithmetic::power2::{
    lemma2_to64, lemma2_to64_rest, lemma_pow2_adds, lemma_pow2_strictly_increases,
    lemma_pow2_unfold, pow2,
};
use vstd::prelude::*;

verus! {

/// No logarithm of an `i128` is further from zero than this.
pub open spec fn ln_bound() -> int {
    64 * WAD
}

// ---------------------------------------------------------------------------
// Logarithm
// ---------------------------------------------------------------------------

/// `v` halved, rounding down, until it is below `2 * WAD`.
pub open spec fn halved(v: int) -> int
    decreases v,
{
    if v >= 2 * WAD {
        halved(v / 2)
    } else {
        v
    }
}

/// How many halvings `halved` takes.
pub open spec fn halvings(v: int) -> int
    decreases v,
{
    if v >= 2 * WAD {
        halvings(v / 2) + 1
    } else {
        0
    }
}

/// A positive `v` doubled until it is at least `WAD`.
pub open spec fn doubled(v: int) -> int
    decreases 2 * WAD - v,
{
    if 0 < v < WAD {
        doubled(2 * v)
    } else {
        v
    }
}

/// How many doublings `doubled` takes.
pub open spec fn doublings(v: int) -> int
    decreases 2 * WAD - v,
{
    if 0 < v < WAD {
        doublings(2 * v) + 1
    } else {
        0
    }
}

/// The mantissa of a positive `v`: in `[WAD, 2 * WAD)`.
pub open spec fn mantissa(v: int) -> int {
    doubled(halved(v))
}

/// The power of two that `mantissa` took out.
pub open spec fn exponent(v: int) -> int {
    halvings(v) - doublings(halved(v))
}

/// `(m - 1) / (m + 1)`, the argument of the series for a mantissa `m`.
pub open spec fn ln_argument(m: int) -> int {
    (m - WAD) * WAD / (m + WAD)
}

/// `z^(2n + 1)`.
pub open spec fn ln_term(z: int, n: nat) -> int
    decreases n,
{
    if n == 0 {
        z
    } else {
        ln_term(z, (n - 1) as nat) * (z * z / (WAD as int)) / (WAD as int)
    }
}

/// `z + z^3 / 3 + z^5 / 5 + ...`, through the term `z^(2n + 1) / (2n + 1)`.
pub open spec fn ln_series(z: int, n: nat) -> int
    decreases n,
{
    if n == 0 {
        z
    } else {
        ln_series(z, (n - 1) as nat) + ln_term(z, n) / (2 * n as int + 1)
    }
}

/// The fixed-point natural logarithm of a positive `v`.
pub open spec fn ln_wad(v: int) -> int {
    exponent(v) * LN2_WAD + 2 * ln_series(ln_argument(mantissa(v)), 24)
}

proof fn lemma_halved(v: int, n: nat)
    requires
        0 < v < 2_000_000_000_000_000_000 * pow2(n),
    ensures
        0 <= halvings(v) <= n,
        0 < halved(v) < 2 * WAD,
        v >= WAD ==> halved(v) >= WAD,
        v < WAD ==> halvings(v) == 0 && halved(v) == v,
    decreases n,
{
    lemma2_to64();
    if v >= 2 * WAD {
        assert(n > 0);
        lemma_pow2_unfold(n);
        lemma_halved(v / 2, (n - 1) as nat);
    }
}

proof fn lemma_doubled(v: int, n: nat)
    requires
        0 < v < 2 * WAD,
        v * pow2(n) >= WAD,
    ensures
        0 <= doublings(v) <= n,
        WAD <= doubled(v) < 2 * WAD,
        v >= WAD ==> doublings(v) == 0 && doubled(v) == v,
        v < WAD ==> doublings(v) >= 1,
    decreases n,
{
    lemma2_to64();
    if v < WAD {
        if n == 0 {
            assert(v * pow2(0) == v);
        }
        lemma_pow2_unfold(n);
        let p: int = pow2((n - 1) as nat) as int;
        assert(2 * v * p == v * (2 * p)) by (nonlinear_arith);
        lemma_doubled(2 * v, (n - 1) as nat);
    }
}

/// Where the range reduction of an `i128` ends.
proof fn lemma_reduction(v: int)
    requires
        0 < v <= i128::MAX,
    ensures
        0 <= halvings(v) <= 67,
        0 < halved(v) < 2 * WAD,
        0 <= doublings(halved(v)) <= 60,
        WAD <= mantissa(v) < 2 * WAD,
        -60 <= exponent(v) <= 67,
        v >= WAD ==> exponent(v) >= 0,
        v < WAD ==> exponent(v) < 0,
{
    lemma2_to64();
    lemma2_to64_rest();
    lemma_pow2_adds(64, 3);
    assert(pow2(67) == 0x8_0000_0000_0000_0000);
    assert(v < 2_000_000_000_000_000_000 * pow2(67));
    lemma_halved(v, 67);
    let h: int = halved(v);
    assert(h * pow2(60) >= WAD) by (nonlinear_arith)
        requires
            h >= 1,
            pow2(60) == 0x1000_0000_0000_0000,
    ;
    lemma_doubled(h, 60);
}

proof fn lemma_ln_argument(m: int)
    requires
        WAD <= m < 2 * WAD,
    ensures
        0 <= ln_argument(m) <= 333_333_333_333_333_333,
        m == WAD ==> ln_argument(m) == 0,
        0 <= (m - WAD) * WAD < WAD * WAD,
{
    let n: int = (m - WAD) * WAD;
    let d: int = m + WAD;
    lemma_floor(n, d);
    let z: int = n / d;
    assert(z <= 333_333_333_333_333_333) by (nonlinear_arith)
        requires
            1_000_000_000_000_000_000 <= m < 2_000_000_000_000_000_000,
            n == (m - 1_000_000_000_000_000_000) * 1_000_000_000_000_000_000,
            d == m + 1_000_000_000_000_000_000,
            d * z <= n,
    ;
}

/// The series' terms never grow, and the partial sums stay small.
proof fn lemma_ln_series_bounds(z: int, n: nat)
    requires
        0 <= z <= WAD,
    ensures
        0 <= ln_term(z, n) <= z,
        0 <= ln_series(z, n) <= (n + 1) * z,
        0 <= z * z / (WAD as int) <= z,
        0 <= z * z <= WAD * z,
    decreases n,
{
    let w: int = WAD as int;
    assert(0 <= z * z <= w * z) by (nonlinear_arith)
        requires
            0 <= z <= w,
    ;
    lemma_floor(z * z, w);
    let sq: int = z * z / w;
    assert(sq <= z);
    assert((n + 1) * z == n * z + z) by (nonlinear_arith);
    if n == 0 {
        assert(n * z == 0) by (nonlinear_arith)
            requires
                n == 0,
        ;
    } else {
        lemma_ln_series_bounds(z, (n - 1) as nat);
        let t: int = ln_term(z, (n - 1) as nat);
        assert(0 <= t * sq <= t * w) by (nonlinear_arith)
            requires
                0 <= t,
                0 <= sq <= w,
        ;
        lemma_floor(t * sq, w);
        let u: int = t * sq / w;
        assert(u <= t) by (nonlinear_arith)
            requires
                u * w <= t * sq,
                t * sq <= t * w,
                w > 0,
        ;
        lemma_floor(u, 2 * n as int + 1);
        assert(((n - 1) as nat + 1) * z == n * z);
    }
}

/// The logarithm of any positive `i128` is well inside the range.
pub proof fn lemma_ln_bound(v: int)
    requires
        0 < v <= i128::MAX,
    ensures
        -ln_bound() <= ln_wad(v) <= ln_bound(),
        v >= WAD ==> ln_wad(v) >= 0,
{
    lemma_reduction(v);
    let m: int = mantissa(v);
    lemma_ln_argument(m);
    let z: int = ln_argument(m);
    lemma_ln_series_bounds(z, 24);
    assert((24nat + 1) * z == 25 * z) by (nonlinear_arith);
    let k: int = exponent(v);
    assert(-60 * LN2_WAD <= k * LN2_WAD <= 67 * LN2_WAD && (k >= 0 ==> k * LN2_WAD >= 0)) by (nonlinear_arith)
        requires
            -60 <= k <= 67,
    ;
}

/// The logarithm of a fixed-point number: `ln_wad` of a positive one, `None` of
/// any other.
pub fn ln_wad_checked(value: i128) -> (result: Option<i128>)
    ensures
        result == (if value > 0 {
            Some(ln_wad(value as int) as i128)
        } else {
            None
        }),
        value > 0 ==> fits(ln_wad(value as int)),
{
    if value <= 0 {
        return None;
    }
    proof {
        lemma_reduction(value as int);
        lemma_ln_bound(value as int);
    }
    let mut k: i128 = 0;
    let mut m: i128 = value;
    while m >= 2 * WAD
        invariant
            0 < m <= value,
            0 <= halvings(m as int),
            0 <= k,
            k + halvings(m as int) == halvings(value as int) <= 67,
            halved(m as int) == halved(value as int),
        decreases m,
    {
        proof {
            lemma_reduction(m as int / 2);
        }
        m = m / 2;
        k = k + 1;
    }
    while m < WAD
        invariant
            0 < m < 2 * WAD,
            0 <= doublings(m as int),
            -60 <= k - doublings(m as int),
            k <= 67,
            k - doublings(m as int) == exponent(value as int),
            doubled(m as int) == mantissa(value as int),
        decreases 2 * WAD - m,
    {
        proof {
            lemma2_to64_rest();
            assert(2 * m * pow2(60) >= WAD) by (nonlinear_arith)
                requires
                    m >= 1,
                    pow2(60) == 0x1000_0000_0000_0000,
            ;
            lemma_doubled(2 * m, 60);
        }
        m = m * 2;
        k = k - 1;
    }
    proof {
        lemma_ln_argument(m as int);
        lemma_ln_series_bounds(ln_argument(m as int), 24);
    }
    let z: i128 = (m - WAD) * WAD / (m + WAD);
    proof {
        assert(z * z <= WAD * WAD) by (nonlinear_arith)
            requires
                0 <= z <= WAD,
        ;
    }
    let z2: i128 = z * z / WAD;
    let mut term: i128 = z;
    let mut sum: i128 = z;
    let mut n: i128 = 3;
    let ghost mut j: nat = 0;
    while n <= 49
        invariant
            0 <= j <= 24,
            n == 2 * j + 3,
            0 <= z <= 333_333_333_333_333_333,
            z2 == z * z / (WAD as int),
            term == ln_term(z as int, j),
            sum == ln_series(z as int, j),
        decreases 51 - n,
    {
        proof {
            lemma_ln_series_bounds(z as int, j);
            lemma_ln_series_bounds(z as int, j + 1);
            assert(0 <= term * z2 <= WAD * WAD) by (nonlinear_arith)
                requires
                    0 <= term <= WAD,
                    0 <= z2 <= WAD,
            ;
            lemma_floor(ln_term(z as int, j + 1), 2 * (j + 1) as int + 1);
            assert((j + 1 + 1) * z <= 26 * z) by (nonlinear_arith)
                requires
                    0 <= z,
                    0 <= j <= 24,
            ;
        }
        term = term * z2 / WAD;
        sum = sum + term / n;
        n = n + 2;
        proof {
            j = j + 1;
        }
    }
    proof {
        assert(j == 24);
    }
    Some(k * LN2_WAD + sum * 2)
}

/// Doubling and halving keep order.
proof fn lemma_halved_monotone(a: int, b: int, n: nat)
    requires
        0 < a <= b < 2_000_000_000_000_000_000 * pow2(n),
    ensures
        halvings(a) <= halvings(b),
        halvings(a) == halvings(b) ==> halved(a) <= halved(b),
        halvings(a) < halvings(b) ==> halved(b) >= WAD,
    decreases n,
{
    lemma2_to64();
    lemma_halved(a, n);
    lemma_halved(b, n);
    if b >= 2 * WAD {
        lemma_pow2_unfold(n);
        lemma_halved(b / 2, (n - 1) as nat);
        if a >= 2 * WAD {
            lemma_halved_monotone(a / 2, b / 2, (n - 1) as nat);
        }
    }
}

proof fn lemma_doubled_monotone(a: int, b: int, n: nat)
    requires
        0 < a <= b < 2 * WAD,
        a * pow2(n) >= WAD,
    ensures
        doublings(a) >= doublings(b),
        doublings(a) == doublings(b) ==> doubled(a) <= doubled(b),
    decreases n,
{
    lemma2_to64();
    if a < WAD {
        if n == 0 {
            assert(a * pow2(0) == a);
        }
        lemma_pow2_unfold(n);
        let p: int = pow2((n - 1) as nat) as int;
        assert(2 * a * p == a * (2 * p)) by (nonlinear_arith);
        lemma_doubled(2 * a, (n - 1) as nat);
        if b < WAD {
            lemma_doubled_monotone(2 * a, 2 * b, (n - 1) as nat);
        }
    }
}

proof fn lemma_ln_argument_monotone(a: int, b: int)
    requires
        WAD <= a <= b < 2 * WAD,
    ensures
        ln_argument(a) <= ln_argument(b),
{
    let w: int = WAD as int;
    let x: int = ln_argument(a);
    lemma_floor((a - w) * w, a + w);
    lemma_floor((b - w) * w, b + w);
    let y: int = ln_argument(b);
    lemma_ln_argument(a);
    assert(x <= y) by (nonlinear_arith)
        requires
            0 < w <= a <= b,
            0 <= x <= w,
            (a + w) * x <= (a - w) * w,
            (b - w) * w < (b + w) * y + (b + w),
    ;
}

proof fn lemma_ln_series_monotone(a: int, b: int, n: nat)
    requires
        0 <= a <= b <= WAD,
    ensures
        ln_term(a, n) <= ln_term(b, n),
        ln_series(a, n) <= ln_series(b, n),
    decreases n,
{
    if n > 0 {
        let w: int = WAD as int;
        let p: nat = (n - 1) as nat;
        lemma_ln_series_monotone(a, b, p);
        lemma_ln_series_bounds(a, p);
        lemma_ln_series_bounds(b, p);
        assert(a * a <= b * b) by (nonlinear_arith)
            requires
                0 <= a <= b,
        ;
        lemma_div_monotone(a * a, b * b, w);
        let ta: int = ln_term(a, p);
        let tb: int = ln_term(b, p);
        let sa: int = a * a / w;
        let sb: int = b * b / w;
        assert(ta * sa <= tb * sb) by (nonlinear_arith)
            requires
                0 <= ta <= tb,
                0 <= sa <= sb,
        ;
        lemma_div_monotone(ta * sa, tb * sb, w);
        lemma_div_monotone(ln_term(a, n), ln_term(b, n), 2 * n as int + 1);
    }
}

/// The series at the largest mantissa: just under `ln(2)`.
proof fn lemma_ln_series_top()
    ensures
        2 * ln_series(333_333_333_333_333_333, 24) <= LN2_WAD,
{
    let z: int = 333_333_333_333_333_333;
    assert(z * z / (WAD as int) == 111_111_111_111_111_110);
    assert(ln_term(z, 0) == z);
    assert(ln_series(z, 0) == z);
    assert(ln_term(z, 1) == 37037037037037036);
    lemma_floor_unique(37037037037037036, 3, 12345679012345678);
    assert(ln_series(z, 1) == 345679012345679011);
    assert(ln_term(z, 2) == 4115226337448559);
    lemma_floor_unique(4115226337448559, 5, 823045267489711);
    assert(ln_series(z, 2) == 346502057613168722);
    assert(ln_term(z, 3) == 457247370827617);
    lemma_floor_unique(457247370827617, 7, 65321052975373);
    assert(ln_series(z, 3) == 346567378666144095);
    assert(ln_term(z, 4) == 50805263425290);
    lemma_floor_unique(50805263425290, 9, 5645029269476);
    assert(ln_series(z, 4) == 346573023695413571);
    assert(ln_term(z, 5) == 5645029269476);
    lemma_floor_unique(5645029269476, 11, 513184479043);
    assert(ln_series(z, 5) == 346573536879892614);
    assert(ln_term(z, 6) == 627225474386);
    lemma_floor_unique(627225474386, 13, 48248113414);
    assert(ln_series(z, 6) == 346573585128006028);
    assert(ln_term(z, 7) == 69691719376);
    lemma_floor_unique(69691719376, 15, 4646114625);
    assert(ln_series(z, 7) == 346573589774120653);
    assert(ln_term(z, 8) == 7743524375);
    lemma_floor_unique(7743524375, 17, 455501433);
    assert(ln_series(z, 8) == 346573590229622086);
    assert(ln_term(z, 9) == 860391597);
    lemma_floor_unique(860391597, 19, 45283768);
    assert(ln_series(z, 9) == 346573590274905854);
    assert(ln_term(z, 10) == 95599066);
    lemma_floor_unique(95599066, 21, 4552336);
    assert(ln_series(z, 10) == 346573590279458190);
    assert(ln_term(z, 11) == 10622118);
    lemma_floor_unique(10622118, 23, 461831);
    assert(ln_series(z, 11) == 346573590279920021);
    assert(ln_term(z, 12) == 1180235);
    lemma_floor_unique(1180235, 25, 47209);
    assert(ln_series(z, 12) == 346573590279967230);
    assert(ln_term(z, 13) == 131137);
    lemma_floor_unique(131137, 27, 4856);
    assert(ln_series(z, 13) == 346573590279972086);
    assert(ln_term(z, 14) == 14570);
    lemma_floor_unique(14570, 29, 502);
    assert(ln_series(z, 14) == 346573590279972588);
    assert(ln_term(z, 15) == 1618);
    lemma_floor_unique(1618, 31, 52);
    assert(ln_series(z, 15) == 346573590279972640);
    assert(ln_term(z, 16) == 179);
    lemma_floor_unique(179, 33, 5);
    assert(ln_series(z, 16) == 346573590279972645);
    assert(ln_term(z, 17) == 19);
    lemma_floor_unique(19, 35, 0);
    assert(ln_series(z, 17) == 346573590279972645);
    assert(ln_term(z, 18) == 2);
    lemma_floor_unique(2, 37, 0);
    assert(ln_series(z, 18) == 346573590279972645);
    assert(ln_term(z, 19) == 0);
    lemma_floor_unique(0, 39, 0);
    assert(ln_series(z, 19) == 346573590279972645);
    assert(ln_term(z, 20) == 0);
    lemma_floor_unique(0, 41, 0);
    assert(ln_series(z, 20) == 346573590279972645);
    assert(ln_term(z, 21) == 0);
    lemma_floor_unique(0, 43, 0);
    assert(ln_series(z, 21) == 346573590279972645);
    assert(ln_term(z, 22) == 0);
    lemma_floor_unique(0, 45, 0);
    assert(ln_series(z, 22) == 346573590279972645);
    assert(ln_term(z, 23) == 0);
    lemma_floor_unique(0, 47, 0);
    assert(ln_series(z, 23) == 346573590279972645);
    assert(ln_term(z, 24) == 0);
    lemma_floor_unique(0, 49, 0);
    assert(ln_series(z, 24) == 346573590279972645);
}

/// The logarithm never falls as its argument grows.
pub proof fn law_ln_never_falls(a: int, b: int)
    requires
        0 < a <= b <= i128::MAX,
    ensures
        ln_wad(a) <= ln_wad(b),
{
    lemma2_to64();
    lemma2_to64_rest();
    lemma_pow2_adds(64, 3);
    assert(pow2(67) == 0x8_0000_0000_0000_0000);
    lemma_reduction(a);
    lemma_reduction(b);
    lemma_halved_monotone(a, b, 67);
    lemma_halved(a, 67);
    lemma_halved(b, 67);
    let ha: int = halved(a);
    let hb: int = halved(b);
    assert(ha * pow2(60) >= WAD && hb * pow2(60) >= WAD) by (nonlinear_arith)
        requires
            ha >= 1,
            hb >= 1,
            pow2(60) == 0x1000_0000_0000_0000,
    ;
    lemma_doubled(ha, 60);
    lemma_doubled(hb, 60);
    if halvings(a) == halvings(b) {
        lemma_doubled_monotone(ha, hb, 60);
    }
    let ma: int = mantissa(a);
    let mb: int = mantissa(b);
    lemma_ln_argument(ma);
    lemma_ln_argument(mb);
    let za: int = ln_argument(ma);
    let zb: int = ln_argument(mb);
    lemma_ln_series_bounds(zb, 24);
    assert(exponent(a) <= exponent(b));
    if exponent(a) == exponent(b) {
        assert(halvings(a) == halvings(b));
        assert(ma <= mb);
        lemma_ln_argument_monotone(ma, mb);
        lemma_ln_series_monotone(za, zb, 24);
    } else {
        lemma_ln_series_top();
        lemma_ln_series_monotone(za, 333_333_333_333_333_333, 24);
        assert((exponent(a) + 1) * LN2_WAD <= exponent(b) * LN2_WAD);
    }
}

/// The logarithm of one is zero.
pub proof fn law_ln_of_one_is_zero()
    ensures
        ln_wad(WAD as int) == 0,
{
    let w: int = WAD as int;
    assert(halved(w) == w && halvings(w) == 0);
    assert(doubled(w) == w && doublings(w) == 0);
    assert(ln_argument(w) == 0);
    lemma_ln_series_bounds(0, 24);
}

// ---------------------------------------------------------------------------
// Exponential
// ---------------------------------------------------------------------------

/// `x / ln(2)`, rounded to the nearest integer, halves away from zero.
pub open spec fn exp_shift(x: int) -> int {
    if x >= 0 {
        (x + LN2_WAD as int / 2) / (LN2_WAD as int)
    } else {
        -((-x + LN2_WAD as int / 2) / (LN2_WAD as int))
    }
}

/// What is left of `x` once whole multiples of `ln(2)` are taken out.
pub open spec fn exp_rest(x: int) -> int {
    x - exp_shift(x) * LN2_WAD
}

/// `r^n / n!`.
pub open spec fn exp_term(r: int, n: nat) -> int
    decreases n,
{
    if n == 0 {
        WAD as int
    } else {
        quot(quot(exp_term(r, (n - 1) as nat) * r, WAD as int), n as int)
    }
}

/// `1 + r + r^2 / 2 + ...`, through the term `r^n / n!`.
pub open spec fn exp_series(r: int, n: nat) -> int
    decreases n,
{
    if n == 0 {
        WAD as int
    } else {
        exp_series(r, (n - 1) as nat) + exp_term(r, n)
    }
}

/// The fixed-point exponential, where it is an `i128`: the series times two to
/// the power of the shift. A shift above 90 is refused outright, one below
/// -126 leaves nothing.
pub open spec fn exp_wad(x: int) -> Option<i128> {
    let k = exp_shift(x);
    let s = exp_series(exp_rest(x), 20);
    if k > 90 {
        None
    } else if k >= 0 {
        if fits(s * pow2(k as nat)) {
            Some((s * pow2(k as nat)) as i128)
        } else {
            None
        }
    } else if k <= -127 {
        Some(0)
    } else {
        Some((s / (pow2((-k) as nat) as int)) as i128)
    }
}

proof fn lemma_exp_rest(x: int)
    ensures
        -346_573_590_279_972_655 <= exp_rest(x) <= 346_573_590_279_972_655,
        x >= 0 ==> 0 <= exp_shift(x) * LN2_WAD <= x + 346_573_590_279_972_654,
        x <= 0 ==> x - 346_573_590_279_972_654 <= exp_shift(x) * LN2_WAD <= 0,
        x >= 0 ==> 0 <= exp_shift(x) <= x,
        x <= 0 ==> x <= exp_shift(x) <= 0,
{
    let l: int = LN2_WAD as int;
    let a: int = if x >= 0 { x } else { -x };
    lemma_floor(a + l / 2, l);
    let q: int = (a + l / 2) / l;
    assert((-q) * l == -(q * l) && (q >= 0 ==> q * l >= 0)) by (nonlinear_arith)
        requires
            l > 0,
    ;
    assert(q <= a) by (nonlinear_arith)
        requires
            a >= 0,
            q >= 0,
            q * 693_147_180_559_945_309 <= a + 346_573_590_279_972_654,
    ;
}

/// The exponential's terms at least halve, so the sum stays around one.
proof fn lemma_exp_series_bounds(r: int, n: nat)
    requires
        -346_573_590_279_972_655 <= r <= 346_573_590_279_972_655,
    ensures
        -WAD <= exp_term(r, n) <= WAD,
        n >= 1 ==> -693_147_180_559_945_310 <= exp_series(r, n) - WAD <= 693_147_180_559_945_310,
        n >= 1 ==> ({
            let t = exp_term(r, n);
            let e = exp_series(r, n) - WAD;
            let b = if r >= 0 { 2 * r } else { -2 * r };
            &&& e + t <= b && e - t <= b && -e + t <= b && -e - t <= b
        }),
    decreases n,
{
    let w: int = WAD as int;
    if n == 1 {
        lemma_exp_first(r);
    } else if n > 1 {
        let p: nat = (n - 1) as nat;
        lemma_exp_series_bounds(r, p);
        let t: int = exp_term(r, p);
        lemma_quot_times(t * r, w);
        let u: int = quot(t * r, w);
        lemma_quot_times(u, n as int);
        let v: int = quot(u, n as int);
        let at: int = if t >= 0 { t } else { -t };
        assert(-(at * 346_573_590_279_972_655) <= t * r <= at * 346_573_590_279_972_655) by (nonlinear_arith)
            requires
                -346_573_590_279_972_655 <= r <= 346_573_590_279_972_655,
                at == t || at == -t,
                at >= 0,
        ;
        assert(-at <= 2 * u <= at) by {
            assert(u * w == u * 1_000_000_000_000_000_000);
        }
        assert(-at <= 2 * v <= at) by (nonlinear_arith)
            requires
                n >= 1,
                -at <= 2 * u <= at,
                u >= 0 ==> 0 <= v * n <= u,
                u <= 0 ==> u <= v * n <= 0,
        ;
    }
}

proof fn lemma_exp_first(r: int)
    ensures
        exp_term(r, 1) == r,
        exp_series(r, 1) == WAD + r,
{
    let w: int = WAD as int;
    assert(exp_term(r, 0) == w);
    assert(exp_series(r, 0) == w);
    lemma_quot_times(w * r, w);
    let u: int = quot(w * r, w);
    assert(u == r) by (nonlinear_arith)
        requires
            w > 0,
            w * r >= 0 ==> 0 <= u * w <= w * r && w * r - u * w < w,
            w * r <= 0 ==> w * r <= u * w <= 0 && u * w - w * r < w,
    ;
    lemma_quot_times(u, 1);
    assert(quot(u, 1) * 1 == quot(u, 1));
    assert(exp_term(r, 1) == quot(quot(exp_term(r, 0) * r, w), 1));
    assert(exp_series(r, 1) == exp_series(r, 0) + exp_term(r, 1));
}

/// A vanished term stays vanished, so stopping there changes nothing.
proof fn lemma_exp_tail(r: int, n: nat, m: nat)
    requires
        n <= m,
        exp_term(r, n) == 0,
    ensures
        exp_term(r, m) == 0,
        exp_series(r, m) == exp_series(r, n),
    decreases m,
{
    if n < m {
        let p: nat = (m - 1) as nat;
        lemma_exp_tail(r, n, p);
        assert(exp_term(r, p) * r == 0);
        lemma_quot_times(0, WAD as int);
        lemma_floor(0, WAD as int);
        lemma_floor(0, m as int);
    }
}

/// Two to the power `n`.
fn power_of_two(n: i128) -> (power: i128)
    requires
        0 <= n <= 126,
    ensures
        power == pow2(n as nat),
        power > 0,
{
    let mut power: i128 = 1;
    let mut i: i128 = 0;
    proof {
        lemma2_to64();
    }
    while i < n
        invariant
            0 <= i <= n <= 126,
            power == pow2(i as nat),
            power > 0,
        decreases n - i,
    {
        proof {
            lemma2_to64_rest();
            lemma_pow2_adds(63, 62);
            if i < 125 {
                lemma_pow2_strictly_increases(i as nat, 125);
            }
            lemma_pow2_unfold((i + 1) as nat);
        }
        power = power * 2;
        i = i + 1;
    }
    power
}

/// The exponential of a fixed-point number: `exp_wad`.
pub fn exp_wad_checked(value: i128) -> (result: Option<i128>)
    requires
        value + LN2_WAD as int / 2 <= i128::MAX,
        value - LN2_WAD as int / 2 >= i128::MIN,
    ensures
        result == exp_wad(value as int),
        result matches Some(power) ==> power >= 0,
{
    proof {
        lemma_exp_rest(value as int);
        lemma_floor(value + LN2_WAD as int / 2, LN2_WAD as int);
        lemma_quot_times(value - LN2_WAD as int / 2, LN2_WAD as int);
    }
    let k: i128 = if value >= 0 {
        (value + LN2_WAD / 2) / LN2_WAD
    } else {
        quotient(value - LN2_WAD / 2, LN2_WAD)
    };
    assert(k == exp_shift(value as int));
    let r: i128 = value - k * LN2_WAD;
    let mut term: i128 = WAD;
    let mut sum: i128 = WAD;
    let mut i: i128 = 1;
    let ghost mut j: nat = 0;
    while i <= 20
        invariant_except_break
            i == j + 1,
            0 <= j <= 20,
            term == exp_term(r as int, j),
            sum == exp_series(r as int, j),
        invariant
            -346_573_590_279_972_655 <= r <= 346_573_590_279_972_655,
        ensures
            sum == exp_series(r as int, 20),
        decreases 21 - i,
    {
        proof {
            lemma_exp_series_bounds(r as int, j);
            lemma_exp_series_bounds(r as int, j + 1);
            assert(-(WAD * WAD) <= term * r <= WAD * WAD) by (nonlinear_arith)
                requires
                    -WAD <= term <= WAD,
                    -WAD <= r <= WAD,
            ;
            lemma_quot_times(term * r, WAD as int);
        }
        term = quotient(quotient(term * r, WAD), i);
        if term == 0 {
            proof {
                lemma_exp_tail(r as int, j + 1, 20);
            }
            break ;
        }
        sum = sum + term;
        i = i + 1;
        proof {
            j = j + 1;
        }
    }
    proof {
        lemma_exp_series_bounds(r as int, 20);
    }
    if k >= 0 {
        if k > 90 {
            return None;
        }
        let factor: i128 = power_of_two(k);
        proof {
            assert(sum * factor >= 0) by (nonlinear_arith)
                requires
                    sum >= 0,
                    factor >= 0,
            ;
        }
        sum.checked_mul(factor)
    } else {
        if k <= -127 {
            return Some(0);
        }
        let divisor: i128 = power_of_two(-k);
        proof {
            lemma_floor(sum as int, divisor as int);
        }
        Some(sum / divisor)
    }
}

proof fn lemma_exp_of_nothing(n: nat)
    ensures
        n > 0 ==> exp_term(0, n) == 0,
        exp_series(0, n) == WAD,
    decreases n,
{
    if n > 0 {
        lemma_exp_of_nothing((n - 1) as nat);
    }
}

/// The exponential of zero is one.
pub proof fn law_exp_of_zero_is_one()
    ensures
        exp_wad(0) == Some(WAD),
{
    lemma_exp_of_nothing(20);
    lemma2_to64();
    assert(exp_shift(0) == 0 && exp_rest(0) == 0);
    assert(WAD * pow2(0) == WAD) by (nonlinear_arith)
        requires
            pow2(0) == 1,
    ;
}

// ---------------------------------------------------------------------------
// How close they are
// ---------------------------------------------------------------------------

/// Doubling a number adds ln(2) to its logarithm, to the last unit.
pub proof fn law_ln_of_double(v: int)
    requires
        0 < v,
        2 * v <= i128::MAX,
    ensures
        ln_wad(2 * v) == ln_wad(v) + 693_147_180_559_945_309,
        v >= 1_000_000_000_000_000_000 ==> ln_wad(2 * v + 1) == ln_wad(v)
            + 693_147_180_559_945_309,
{
    if v >= WAD {
        assert(2 * v / 2 == v && (2 * v + 1) / 2 == v);
        assert(halved(2 * v) == halved(v) && halvings(2 * v) == halvings(v) + 1);
        assert(halved(2 * v + 1) == halved(v) && halvings(2 * v + 1) == halvings(v) + 1);
    } else {
        assert(halved(v) == v && halved(2 * v) == 2 * v);
        assert(halvings(v) == 0 && halvings(2 * v) == 0);
        assert(doubled(v) == doubled(2 * v) && doublings(v) == doublings(2 * v) + 1);
    }
    let k: int = exponent(v);
    assert((k + 1) * LN2_WAD == k * LN2_WAD + LN2_WAD) by (nonlinear_arith);
}

/// The terms after the second are at most a geometric series.
proof fn lemma_ln_tail(z: int, n: nat)
    requires
        0 <= z <= 333_333_333_333_333_333,
        n >= 2,
    ensures
        ({
            let w = WAD as int;
            let sq = z * z / w;
            &&& ln_series(z, n) >= ln_series(z, 2)
            &&& 5 * ((w - sq) * (ln_series(z, n) - ln_series(z, 1))) + ln_term(z, n) * sq
                <= ln_term(z, 2) * w
        }),
    decreases n,
{
    let w: int = WAD as int;
    lemma_ln_series_bounds(z, n);
    lemma_ln_series_bounds(z, (n - 1) as nat);
    let sq: int = z * z / w;
    let d: int = 2 * n as int + 1;
    let t: int = ln_term(z, n);
    lemma_floor(t, d);
    let f: int = t / d;
    assert(5 * f <= t) by (nonlinear_arith)
        requires
            d >= 5,
            d * f <= t,
            f >= 0,
    ;
    assert(5 * ((w - sq) * f) <= (w - sq) * t) by (nonlinear_arith)
        requires
            5 * f <= t,
            w - sq >= 0,
    ;
    assert((w - sq) * t + t * sq == t * w) by (nonlinear_arith);
    if n > 2 {
        let p: nat = (n - 1) as nat;
        lemma_ln_tail(z, p);
        let u: int = ln_term(z, p);
        lemma_floor(u * sq, w);
        let before: int = ln_series(z, p) - ln_series(z, 1);
        assert((w - sq) * (before + f) == (w - sq) * before + (w - sq) * f) by (nonlinear_arith);
    }
}

/// How good the logarithm is between one and two: `z` being `(m - 1) / (m + 1)`,
/// rounded down, it lies between the first three terms of twice the inverse
/// hyperbolic tangent's series, less six units, and those with the third extended
/// to a geometric series.
pub proof fn law_ln_is_close(m: int, z: int)
    requires
        1_000_000_000_000_000_000 <= m < 2_000_000_000_000_000_000,
        z * (m + 1_000_000_000_000_000_000) <= (m - 1_000_000_000_000_000_000)
            * 1_000_000_000_000_000_000,
        (m - 1_000_000_000_000_000_000) * 1_000_000_000_000_000_000 < (z + 1) * (m
            + 1_000_000_000_000_000_000),
    ensures
        ({
            let w = 1_000_000_000_000_000_000int;
            let over = ln_wad(m) - 2 * z;
            let (cube, fifth) = (z * z * z, z * z * z * z * z);
            let gap = w * w - z * z;
            &&& 15 * (gap * (w * w)) * over <= 2 * (5 * (gap * cube) + 3 * fifth)
            &&& 15 * (w * w * w * w) * (over + 6) >= 2 * (5 * (cube * (w * w)) + 3 * fifth)
        }),
{
    let w: int = 1_000_000_000_000_000_000;
    let d: int = m + w;
    let n: int = (m - w) * w;
    assert(d * z <= n < d * z + d) by (nonlinear_arith)
        requires
            z * d <= n < (z + 1) * d,
    ;
    lemma_floor_unique(n, d, z);
    lemma_ln_argument(m);
    assert(halved(m) == m && halvings(m) == 0);
    assert(doubled(m) == m && doublings(m) == 0);
    assert(ln_wad(m) == 2 * ln_series(z, 24));
    lemma_ln_series_bounds(z, 0);
    lemma_ln_series_bounds(z, 1);
    lemma_ln_series_bounds(z, 2);
    lemma_ln_tail(z, 24);
    let sq: int = z * z / w;
    lemma_floor(z * z, w);
    let t1: int = ln_term(z, 1);
    let t2: int = ln_term(z, 2);
    assert(ln_term(z, 0) == z && ln_series(z, 0) == z);
    assert(t1 == z * sq / w);
    lemma_floor(z * sq, w);
    assert(t2 == t1 * sq / w);
    lemma_floor(t1 * sq, w);
    let a: int = t1 / 3;
    let b: int = t2 / 5;
    assert(ln_series(z, 1) == z + a);
    assert(ln_series(z, 2) == z + a + b);
    let rest: int = ln_series(z, 24) - ln_series(z, 1);
    assert(0 <= b <= rest);
    let over: int = ln_wad(m) - 2 * z;
    assert(over == 2 * (a + rest));
    let cube: int = z * z * z;
    let fifth: int = z * z * z * z * z;
    lemma_ln_series_bounds(z, 24);
    let last: int = ln_term(z, 24);
    assert(last * sq >= 0) by (nonlinear_arith)
        requires
            last >= 0,
            sq >= 0,
    ;
    lemma_ln_close_above(z, sq, t1, t2, a, rest);
    lemma_ln_close_below(z, sq, t1, t2, a, b);
    let gap: int = w * w - z * z;
    let ww: int = w * w;
    assert(15 * (gap * ww) * over == 10 * (3 * (gap * ww * a)) + 6 * (5 * (gap * ww * rest)))
        by (nonlinear_arith)
        requires
            over == 2 * (a + rest),
    ;
    let quad: int = w * w * w * w;
    assert(15 * quad * (over + 6) == 30 * (quad * (a + b + 3)) + 30 * (quad * (rest - b)))
        by (nonlinear_arith)
        requires
            over == 2 * (a + rest),
    ;
    assert(quad * (rest - b) >= 0) by (nonlinear_arith)
        requires
            quad == w * w * w * w,
            w == 1_000_000_000_000_000_000,
            rest >= b,
    ;
}

proof fn lemma_ln_close_above(z: int, sq: int, t1: int, t2: int, a: int, rest: int)
    requires
        0 <= z <= 333_333_333_333_333_333,
        0 <= sq,
        sq * 1_000_000_000_000_000_000 <= z * z,
        0 <= t1,
        t1 * 1_000_000_000_000_000_000 <= z * sq,
        0 <= t2,
        t2 * 1_000_000_000_000_000_000 <= t1 * sq,
        3 * a <= t1,
        a >= 0,
        rest >= 0,
        5 * ((1_000_000_000_000_000_000 - sq) * rest) <= t2 * 1_000_000_000_000_000_000,
    ensures
        ({
            let w = 1_000_000_000_000_000_000int;
            let gap = w * w - z * z;
            &&& 3 * (gap * (w * w) * a) <= gap * (z * z * z)
            &&& 5 * (gap * (w * w) * rest) <= z * z * z * z * z
        }),
{
    let w: int = 1_000_000_000_000_000_000;
    let ww: int = w * w;
    let gap: int = ww - z * z;
    assert(gap >= 0) by (nonlinear_arith)
        requires
            gap == w * w - z * z,
            0 <= z <= w,
    ;
    // The second term is at most the cube, the third the fifth power.
    assert(t1 * ww <= z * z * z) by (nonlinear_arith)
        requires
            t1 * w <= z * sq,
            sq * w <= z * z,
            z >= 0,
            w > 0,
            ww == w * w,
    ;
    let cube: int = z * z * z;
    assert(3 * (gap * ww * a) <= gap * cube) by (nonlinear_arith)
        requires
            3 * a <= t1,
            t1 * ww <= cube,
            gap >= 0,
            ww >= 0,
    ;
    assert(t2 * w * ww <= cube * sq) by (nonlinear_arith)
        requires
            t2 * w <= t1 * sq,
            t1 * ww <= cube,
            sq >= 0,
            ww >= 0,
    ;
    assert(t2 * ww * ww <= cube * (z * z)) by (nonlinear_arith)
        requires
            t2 * w * ww <= cube * sq,
            sq * w <= z * z,
            cube >= 0,
            w > 0,
            ww == w * w,
            cube == z * z * z,
            z >= 0,
    ;
    assert(cube * (z * z) == z * z * z * z * z) by (nonlinear_arith)
        requires
            cube == z * z * z,
    ;
    // The gap over one is at most the gap over the square.
    assert(gap * rest <= w * ((w - sq) * rest)) by (nonlinear_arith)
        requires
            gap == w * w - z * z,
            sq * w <= z * z,
            rest >= 0,
    ;
    assert(5 * (gap * rest) <= w * (t2 * w)) by (nonlinear_arith)
        requires
            gap * rest <= w * ((w - sq) * rest),
            5 * ((w - sq) * rest) <= t2 * w,
            w > 0,
    ;
    assert(5 * (gap * ww * rest) <= t2 * ww * ww) by (nonlinear_arith)
        requires
            5 * (gap * rest) <= w * (t2 * w),
            ww == w * w,
            w > 0,
    ;
}

proof fn lemma_ln_close_below(z: int, sq: int, t1: int, t2: int, a: int, b: int)
    requires
        0 <= z <= 333_333_333_333_333_333,
        0 <= sq <= z,
        z * z < sq * 1_000_000_000_000_000_000 + 1_000_000_000_000_000_000,
        0 <= t1 <= z,
        z * sq < t1 * 1_000_000_000_000_000_000 + 1_000_000_000_000_000_000,
        0 <= t2,
        t1 * sq < t2 * 1_000_000_000_000_000_000 + 1_000_000_000_000_000_000,
        t1 < 3 * a + 3,
        t2 < 5 * b + 5,
    ensures
        ({
            let w = 1_000_000_000_000_000_000int;
            30 * (w * w * w * w * (a + b + 3)) >= 2 * (5 * (z * z * z * (w * w)) + 3 * (z * z * z * z
                * z))
        }),
{
    let w: int = 1_000_000_000_000_000_000;
    let ww: int = w * w;
    let cube: int = z * z * z;
    let fifth: int = z * z * z * z * z;
    // cube < (t1 + 2) * w^2
    assert(cube <= z * sq * w + z * w) by (nonlinear_arith)
        requires
            cube == z * z * z,
            z * z < sq * w + w,
            z >= 0,
    ;
    assert(z * sq * w <= t1 * ww + ww) by (nonlinear_arith)
        requires
            z * sq < t1 * w + w,
            ww == w * w,
            w > 0,
    ;
    assert(z * w <= ww) by (nonlinear_arith)
        requires
            0 <= z <= w,
            ww == w * w,
    ;
    assert(cube <= (t1 + 2) * ww) by (nonlinear_arith)
        requires
            cube <= z * sq * w + z * w,
            z * sq * w <= t1 * ww + ww,
            z * w <= ww,
    ;
    // fifth <= (t1 + 2) * ww * z * z, and t1 * z * z is close to t2 * ww
    let zz: int = z * z;
    assert(fifth == cube * zz) by (nonlinear_arith)
        requires
            fifth == z * z * z * z * z,
            cube == z * z * z,
            zz == z * z,
    ;
    assert(zz >= 0 && zz <= ww) by (nonlinear_arith)
        requires
            zz == z * z,
            0 <= z <= w,
            ww == w * w,
    ;
    assert(fifth <= (t1 * zz + 2 * zz) * ww) by (nonlinear_arith)
        requires
            fifth == cube * zz,
            cube <= (t1 + 2) * ww,
            zz >= 0,
    ;
    assert(t1 * zz <= t1 * sq * w + t1 * w) by (nonlinear_arith)
        requires
            zz <= sq * w + w,
            t1 >= 0,
    ;
    assert(t1 * sq * w <= t2 * ww + ww) by (nonlinear_arith)
        requires
            t1 * sq <= t2 * w + w,
            ww == w * w,
            w > 0,
    ;
    assert(t1 * w <= ww) by (nonlinear_arith)
        requires
            t1 <= w,
            ww == w * w,
            w > 0,
    ;
    assert(t1 * zz + 2 * zz <= (t2 + 4) * ww) by (nonlinear_arith)
        requires
            t1 * zz <= t1 * sq * w + t1 * w,
            t1 * sq * w <= t2 * ww + ww,
            t1 * w <= ww,
            zz <= ww,
    ;
    let quad: int = w * w * w * w;
    assert(quad == ww * ww) by (nonlinear_arith)
        requires
            quad == w * w * w * w,
            ww == w * w,
    ;
    assert(fifth <= (t2 + 4) * quad) by (nonlinear_arith)
        requires
            fifth <= (t1 * zz + 2 * zz) * ww,
            t1 * zz + 2 * zz <= (t2 + 4) * ww,
            quad == ww * ww,
            ww >= 0,
    ;
    assert(cube * ww <= (t1 + 2) * quad) by (nonlinear_arith)
        requires
            cube <= (t1 + 2) * ww,
            quad == ww * ww,
            ww >= 0,
    ;
    assert(quad >= 0) by (nonlinear_arith)
        requires
            quad == ww * ww,
    ;
    assert(5 * (t1 + 2) + 3 * (t2 + 4) <= 15 * (a + b + 3));
    assert(5 * ((t1 + 2) * quad) + 3 * ((t2 + 4) * quad) <= 15 * (quad * (a + b + 3)))
        by (nonlinear_arith)
        requires
            5 * (t1 + 2) + 3 * (t2 + 4) <= 15 * (a + b + 3),
            quad >= 0,
    ;
}

/// Adding ln(2) to a number that is not negative doubles its exponential, and
/// taking it from one that is not positive halves it, rounding down.
pub proof fn law_exp_of_shift(x: int)
    ensures
        x >= 0 ==> (exp_wad(x) matches Some(power) ==> exp_wad(x + 693_147_180_559_945_309) == (if 2
            * power <= i128::MAX {
            Some((2 * power) as i128)
        } else {
            None
        })),
        x <= 0 ==> (exp_wad(x) matches Some(power) && exp_wad(x - 693_147_180_559_945_309) == Some(
            (power as int / 2) as i128,
        )),
{
    let l: int = LN2_WAD as int;
    let k: int = exp_shift(x);
    lemma_exp_rest(x);
    let s: int = exp_series(exp_rest(x), 20);
    lemma_exp_series_bounds(exp_rest(x), 20);
    lemma2_to64();
    if x >= 0 {
        lemma_floor(x + l / 2, l);
        let q: int = (x + l / 2) / l;
        lemma_floor_unique(x + l + l / 2, l, q + 1);
        assert(exp_shift(x + l) == k + 1);
        assert((k + 1) * l == k * l + l) by (nonlinear_arith);
        assert(exp_rest(x + l) == exp_rest(x));
        if exp_wad(x) is Some {
            lemma_pow2_unfold((k + 1) as nat);
            let p: int = pow2(k as nat) as int;
            assert(s * (2 * p) == 2 * (s * p)) by (nonlinear_arith);
            if k == 90 {
                lemma2_to64_rest();
                lemma_pow2_adds(63, 27);
                assert(s * p > i128::MAX) by (nonlinear_arith)
                    requires
                        s >= 300_000_000_000_000_000,
                        p == 0x8000_0000_0000_0000 * 0x800_0000,
                ;
            }
            assert(s * p >= 0) by (nonlinear_arith)
                requires
                    s >= 0,
                    p >= 0,
            ;
        }
    }
    if x <= 0 {
        let y: int = -x;
        lemma_floor(y + l / 2, l);
        let q: int = (y + l / 2) / l;
        lemma_floor_unique(y + l + l / 2, l, q + 1);
        assert(k == -q) by {
            if x == 0 {
                lemma_floor_unique(l / 2, l, 0);
            }
        }
        assert(exp_shift(x - l) == k - 1);
        assert((k - 1) * l == k * l - l) by (nonlinear_arith);
        assert(exp_rest(x - l) == exp_rest(x));
        if k == 0 {
            assert(s * pow2(0) == s) by (nonlinear_arith)
                requires
                    pow2(0) == 1,
            ;
            assert(pow2(1) == 2);
        } else {
            let p: int = pow2((-k) as nat) as int;
            lemma_pow2_unfold((-k + 1) as nat);
            vstd::arithmetic::power2::lemma_pow2_pos((-k) as nat);
            vstd::arithmetic::div_mod::lemma_div_denominator(s, p, 2);
            assert(p * 2 == pow2((-k + 1) as nat));
            if k <= -126 {
                // Nothing is left of the series there.
                lemma2_to64_rest();
                lemma_pow2_adds(63, 63);
                if -k > 126 {
                    lemma_pow2_strictly_increases(126, (-k) as nat);
                }
                assert(p > s) by (nonlinear_arith)
                    requires
                        p >= 0x8000_0000_0000_0000 * 0x8000_0000_0000_0000,
                        s <= 2_000_000_000_000_000_000,
                ;
                lemma_floor_unique(s, p, 0);
            }
            lemma_floor(s, p);
        }
    }
}

/// The terms after the fourth are at most a geometric series.
proof fn lemma_exp_tail_bound(r: int, n: nat)
    requires
        -346_573_590_279_972_655 <= r <= 346_573_590_279_972_655,
        n >= 5,
    ensures
        ({
            let t = exp_term(r, n);
            let e = exp_series(r, n) - exp_series(r, 4);
            let t5 = exp_term(r, 5);
            let b = if t5 >= 0 { 8 * t5 } else { -8 * t5 };
            &&& 7 * e + t <= b && 7 * e - t <= b && -7 * e + t <= b && -7 * e - t <= b
        }),
    decreases n,
{
    if n > 5 {
        let w: int = WAD as int;
        let p: nat = (n - 1) as nat;
        lemma_exp_tail_bound(r, p);
        let t: int = exp_term(r, p);
        lemma_quot_times(t * r, w);
        let u: int = quot(t * r, w);
        lemma_quot_times(u, n as int);
        let v: int = quot(u, n as int);
        let at: int = if t >= 0 { t } else { -t };
        assert(-(at * 346_573_590_279_972_655) <= t * r <= at * 346_573_590_279_972_655)
            by (nonlinear_arith)
            requires
                -346_573_590_279_972_655 <= r <= 346_573_590_279_972_655,
                at == t || at == -t,
                at >= 0,
        ;
        assert(-at <= 2 * u <= at) by {
            assert(u * w == u * 1_000_000_000_000_000_000);
        }
        assert(-at <= 8 * v <= at) by (nonlinear_arith)
            requires
                n >= 4,
                -at <= 2 * u <= at,
                u >= 0 ==> 0 <= v * n <= u,
                u <= 0 ==> u <= v * n <= 0,
        ;
        assert(exp_series(r, n) == exp_series(r, p) + v);
    } else {
        assert(exp_series(r, 5) == exp_series(r, 4) + exp_term(r, 5));
    }
}

/// One term from the one before: no further from zero than the exact quotient,
/// and less than one from it.
proof fn lemma_exp_step(t: int, r: int, n: int, v: int)
    requires
        n > 0,
        v == quot(quot(t * r, WAD as int), n),
    ensures
        ({
            let c = t * r;
            let m = n * (v * WAD);
            &&& c >= 0 ==> 0 <= m <= c < m + n * WAD
            &&& c <= 0 ==> m - n * WAD < c <= m <= 0
        }),
{
    let w: int = WAD as int;
    let c: int = t * r;
    lemma_quot_times(c, w);
    let u: int = quot(c, w);
    lemma_quot_times(u, n);
    let m: int = n * (v * w);
    assert((c >= 0 ==> u >= 0) && (c <= 0 ==> u <= 0)) by (nonlinear_arith)
        requires
            w > 0,
            c >= 0 ==> c - u * w < w,
            c <= 0 ==> u * w - c < w,
    ;
    assert(m == v * n * w) by (nonlinear_arith)
        requires
            m == n * (v * w),
    ;
    if c >= 0 {
        assert(0 <= m <= c && c < m + n * w) by (nonlinear_arith)
            requires
                w > 0,
                m == v * n * w,
                0 <= v * n <= u,
                u - v * n <= n - 1,
                0 <= u * w <= c,
                c - u * w < w,
        ;
    }
    if c <= 0 {
        assert(m - n * w < c && c <= m && m <= 0) by (nonlinear_arith)
            requires
                w > 0,
                m == v * n * w,
                u <= v * n <= 0,
                v * n - u <= n - 1,
                c <= u * w <= 0,
                u * w - c < w,
        ;
    }
}

/// How good the exponential is near zero, within half of ln(2): of one plus the
/// number, half its square, a sixth of its cube and a twenty-fourth of its fourth
/// power, it lies within a ninety-sixth of the fifth power and four units and a
/// half.
pub proof fn law_exp_is_close(r: int)
    requires
        -346_573_590_279_972_654 <= r <= 346_573_590_279_972_654,
    ensures
        exp_wad(r) matches Some(power) && {
            let w = 1_000_000_000_000_000_000int;
            let (r2, r3, r4) = (r * r, r * r * r, r * r * r * r);
            let size = if r >= 0 {
                r
            } else {
                -r
            };
            let error = 96 * (w * w * w * w) * (power - w - r) - 48 * (w * w * w * r2) - 16 * (w * w
                * r3) - 4 * (w * r4);
            let slack = 432 * (w * w * w * w) + size * r4;
            -slack <= error <= slack
        },
{
    let w: int = 1_000_000_000_000_000_000;
    let l: int = LN2_WAD as int;
    lemma2_to64();
    let size: int = if r >= 0 { r } else { -r };
    lemma_floor_unique(size + l / 2, l, 0);
    assert(exp_shift(r) == 0 && exp_rest(r) == r);
    let s: int = exp_series(r, 20);
    lemma_exp_series_bounds(r, 20);
    assert(s * pow2(0) == s) by (nonlinear_arith)
        requires
            pow2(0) == 1,
    ;
    lemma_exp_first(r);
    lemma_exp_tail_bound(r, 20);
    let t2: int = exp_term(r, 2);
    let t3: int = exp_term(r, 3);
    let t4: int = exp_term(r, 4);
    let t5: int = exp_term(r, 5);
    assert(t2 == quot(quot(exp_term(r, 1) * r, w), 2));
    assert(t3 == quot(quot(t2 * r, w), 3));
    assert(t4 == quot(quot(t3 * r, w), 4));
    assert(t5 == quot(quot(t4 * r, w), 5));
    assert(exp_series(r, 2) == w + r + t2);
    assert(exp_series(r, 3) == w + r + t2 + t3);
    assert(exp_series(r, 4) == w + r + t2 + t3 + t4);
    lemma_exp_step(r, r, 2, t2);
    lemma_exp_step(t2, r, 3, t3);
    lemma_exp_step(t3, r, 4, t4);
    lemma_exp_step(t4, r, 5, t5);
    let r2: int = r * r;
    let r3: int = r * r * r;
    let r4: int = r * r * r * r;
    assert(r2 >= 0) by (nonlinear_arith)
        requires
            r2 == r * r,
    ;
    let w2: int = w * w;
    let w3: int = w * w * w;
    let w4: int = w * w * w * w;
    // Each term against its exact value.
    let d2: int = 2 * (t2 * w) - r2;
    assert(-2 * w <= d2 <= 0);
    let d3: int = 3 * (t3 * w) - t2 * r;
    assert(-3 * w <= d3 <= 3 * w);
    let d4: int = 4 * (t4 * w) - t3 * r;
    assert(-4 * w <= d4 <= 4 * w);
    let e3: int = 6 * (w2 * t3) - r3;
    assert(e3 == 2 * (w * d3) + d2 * r) by (nonlinear_arith)
        requires
            e3 == 6 * (w2 * t3) - r3,
            d3 == 3 * (t3 * w) - t2 * r,
            d2 == 2 * (t2 * w) - r2,
            r3 == r * r * r,
            r2 == r * r,
            w2 == w * w,
    ;
    assert(-8 * w2 <= e3 <= 8 * w2) by (nonlinear_arith)
        requires
            e3 == 2 * (w * d3) + d2 * r,
            -3 * w <= d3 <= 3 * w,
            -2 * w <= d2 <= 0,
            -w <= r <= w,
            w > 0,
            w2 == w * w,
    ;
    let e4: int = 24 * (w3 * t4) - r4;
    assert(e4 == 6 * (w2 * d4) + e3 * r) by (nonlinear_arith)
        requires
            e4 == 24 * (w3 * t4) - r4,
            d4 == 4 * (t4 * w) - t3 * r,
            e3 == 6 * (w2 * t3) - r3,
            r4 == r * r * r * r,
            r3 == r * r * r,
            w2 == w * w,
            w3 == w * w * w,
    ;
    assert(-32 * w3 <= e4 <= 32 * w3) by (nonlinear_arith)
        requires
            e4 == 6 * (w2 * d4) + e3 * r,
            -4 * w <= d4 <= 4 * w,
            -8 * w2 <= e3 <= 8 * w2,
            -w <= r <= w,
            w > 0,
            w2 == w * w,
            w3 == w * w * w,
    ;
    // The fifth term is no larger than its exact value.
    let a2: int = t2;
    let a3: int = if t3 >= 0 { t3 } else { -t3 };
    let a4: int = if t4 >= 0 { t4 } else { -t4 };
    let a5: int = if t5 >= 0 { t5 } else { -t5 };
    lemma_exp_size(t2, r, 3, t3, a2, size, a3);
    lemma_exp_size(t3, r, 4, t4, a3, size, a4);
    lemma_exp_size(t4, r, 5, t5, a4, size, a5);
    assert(t2 >= 0);
    assert(r4 == r2 * r2 && r4 >= 0 && r2 == size * size) by (nonlinear_arith)
        requires
            r4 == r * r * r * r,
            r2 == r * r,
            size == r || size == -r,
    ;
    assert(6 * (w2 * a3) <= size * r2) by (nonlinear_arith)
        requires
            3 * (a3 * w) <= a2 * size,
            2 * (a2 * w) <= r2,
            size >= 0,
            w > 0,
            w2 == w * w,
    ;
    assert(24 * (w3 * a4) <= r4) by (nonlinear_arith)
        requires
            4 * (a4 * w) <= a3 * size,
            6 * (w2 * a3) <= size * r2,
            size >= 0,
            w > 0,
            w2 == w * w,
            w3 == w * w * w,
            r4 == r2 * r2,
            r2 == size * size,
    ;
    assert(120 * (w4 * a5) <= size * r4) by (nonlinear_arith)
        requires
            5 * (a5 * w) <= a4 * size,
            24 * (w3 * a4) <= r4,
            size >= 0,
            w > 0,
            w3 == w * w * w,
            w4 == w * w * w * w,
    ;
    let tail: int = s - exp_series(r, 4);
    let over: int = s - w - r;
    assert(over == t2 + t3 + t4 + tail);
    assert(7 * tail <= 8 * a5 && -(8 * a5) <= 7 * tail);
    let top: int = size * r4;
    assert(96 * (w4 * tail) <= top && -top <= 96 * (w4 * tail)) by (nonlinear_arith)
        requires
            7 * tail <= 8 * a5,
            -(8 * a5) <= 7 * tail,
            120 * (w4 * a5) <= top,
            w4 >= 0,
            a5 >= 0,
    ;
    let error: int = 96 * w4 * over - 48 * (w3 * r2) - 16 * (w2 * r3) - 4 * (w * r4);
    assert(error == 48 * (w3 * d2) + 16 * (w2 * e3) + 4 * (w * e4) + 96 * (w4 * tail))
        by (nonlinear_arith)
        requires
            error == 96 * w4 * over - 48 * (w3 * r2) - 16 * (w2 * r3) - 4 * (w * r4),
            over == t2 + t3 + t4 + tail,
            d2 == 2 * (t2 * w) - r2,
            e3 == 6 * (w2 * t3) - r3,
            e4 == 24 * (w3 * t4) - r4,
            w2 == w * w,
            w3 == w * w * w,
            w4 == w * w * w * w,
    ;
    assert(-96 * w4 <= 48 * (w3 * d2) <= 0) by (nonlinear_arith)
        requires
            -2 * w <= d2 <= 0,
            w > 0,
            w3 == w * w * w,
            w4 == w * w * w * w,
    ;
    assert(-128 * w4 <= 16 * (w2 * e3) <= 128 * w4) by (nonlinear_arith)
        requires
            -8 * w2 <= e3 <= 8 * w2,
            w2 == w * w,
            w4 == w * w * w * w,
    ;
    assert(-128 * w4 <= 4 * (w * e4) <= 128 * w4) by (nonlinear_arith)
        requires
            -32 * w3 <= e4 <= 32 * w3,
            w > 0,
            w3 == w * w * w,
            w4 == w * w * w * w,
    ;
}

/// The size of a term against that of the one before.
proof fn lemma_exp_size(t: int, r: int, n: int, v: int, at: int, ar: int, av: int)
    requires
        n > 0,
        v == quot(quot(t * r, WAD as int), n),
        at == t && t >= 0 || at == -t && t <= 0,
        ar == r && r >= 0 || ar == -r && r <= 0,
        av == v && v >= 0 || av == -v && v <= 0,
    ensures
        n * (av * WAD) <= at * ar,
{
    lemma_exp_step(t, r, n, v);
    let w: int = WAD as int;
    assert(n * (av * w) <= at * ar) by (nonlinear_arith)
        requires
            n > 0,
            w > 0,
            at == t && t >= 0 || at == -t && t <= 0,
            ar == r && r >= 0 || ar == -r && r <= 0,
            av == v && v >= 0 || av == -v && v <= 0,
            t * r >= 0 ==> 0 <= n * (v * w) <= t * r,
            t * r <= 0 ==> t * r <= n * (v * w) <= 0,
    ;
}

} // verus!
