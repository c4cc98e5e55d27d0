//! The pricing curve: implied rate, exchange rate, and the conversions between
//! SY shares and asset units.

use crate::amm::Error;
use crate::amm_math::{
    checked_add, checked_mul, checked_sub, difference, mul_div_down, mul_div_up, scaled_down,
    scaled_up,
};
use crate::fixed::{fits, lemma_floor, lemma_floor_unique, lemma_quot_times, quot, quotient, WAD};
use crate::log_exp::{exp_wad, exp_wad_checked, lemma_ln_bound, ln_wad, ln_wad_checked};
use vstd::prelude::*;

verus! {

pub const BPS_DENOMINATOR: i128 = 10_000;

/// The year that implied rates are quoted over, in seconds.
pub const IMPLIED_RATE_TIME: u64 = 31_536_000;

/// The largest share of the pool's value that PT may make up.
pub const MAX_MARKET_PROPORTION: i128 = 960_000_000_000_000_000;

/// PT's share of the pool's value once `net` PT have left the pool.
pub open spec fn proportion(pt: int, asset: int, net: int) -> int {
    (pt - net) * WAD / (pt + asset)
}

/// The log-odds of a proportion strictly between zero and one.
pub open spec fn logit(p: int) -> int {
    ln_wad(p * WAD / (WAD - p))
}

/// The curve: PT face per asset unit at a proportion.
pub open spec fn curve_rate(p: int, scalar: int, anchor: int) -> int {
    quot(logit(p) * WAD, scalar) + anchor
}

/// The log-odds of a proportion, where it has any.
pub open spec fn logit_result(p: int) -> Result<i128, Error> {
    if p == WAD {
        Err(Error::MarketProportionTooHigh)
    } else if 0 < p < WAD {
        Ok(logit(p) as i128)
    } else {
        Err(Error::MathOverflow)
    }
}

/// The exchange rate at which a trade of `net` PT out of the pool is priced.
pub open spec fn exchange_rate_result(
    pt: int,
    asset: int,
    scalar: int,
    anchor: int,
    net: int,
) -> Result<i128, Error> {
    let p = proportion(pt, asset, net);
    if !(0 <= pt - net <= i128::MAX) || !(0 < pt + asset <= i128::MAX) || !fits((pt - net) * WAD) {
        Err(Error::MathOverflow)
    } else if p > MAX_MARKET_PROPORTION {
        Err(Error::MarketProportionTooHigh)
    } else if p <= 0 || !fits(curve_rate(p, scalar, anchor)) {
        Err(Error::MathOverflow)
    } else if curve_rate(p, scalar, anchor) < WAD {
        Err(Error::ExchangeRateBelowOne)
    } else {
        Ok(curve_rate(p, scalar, anchor) as i128)
    }
}

/// The exchange rate of such a trade, where the curve has one.
pub open spec fn priced_rate(pt: int, asset: int, scalar: int, anchor: int, net: int) -> Option<i128> {
    let p = proportion(pt, asset, net);
    if 0 < pt - net && fits((pt - net) * WAD) && 0 < pt + asset <= i128::MAX && 0 < p
        <= MAX_MARKET_PROPORTION && WAD <= curve_rate(p, scalar, anchor) <= i128::MAX {
        Some(curve_rate(p, scalar, anchor) as i128)
    } else {
        None
    }
}

/// The curve's steepness for the time left: flatter as maturity nears.
pub open spec fn rate_scalar_result(scalar_root: int, time_to_expiry: int) -> Result<i128, Error> {
    if !fits(scalar_root * IMPLIED_RATE_TIME) {
        Err(Error::MathOverflow)
    } else if quot(scalar_root * IMPLIED_RATE_TIME, time_to_expiry) <= 0 {
        Err(Error::InvalidScalarRoot)
    } else {
        Ok(quot(scalar_root * IMPLIED_RATE_TIME, time_to_expiry) as i128)
    }
}

/// The exchange rate an implied rate stands for with some time left.
pub open spec fn rate_from_implied(ln_implied_rate: int, time_to_expiry: int) -> Result<i128, Error> {
    match scaled_down(ln_implied_rate, time_to_expiry, IMPLIED_RATE_TIME as int) {
        Err(error) => Err(error),
        Ok(rt) => match exp_wad(rt as int) {
            None => Err(Error::MathOverflow),
            Some(rate) => Ok(rate),
        },
    }
}

/// The anchor at which the curve passes through the last implied rate.
pub open spec fn rate_anchor_result(
    pt: int,
    ln_implied_rate: int,
    asset: int,
    scalar: int,
    time_to_expiry: int,
) -> Result<i128, Error> {
    match rate_from_implied(ln_implied_rate, time_to_expiry) {
        Err(error) => Err(error),
        Ok(rate) => if rate < WAD {
            Err(Error::ExchangeRateBelowOne)
        } else if !fits(pt + asset) || !fits(pt * WAD) {
            Err(Error::MathOverflow)
        } else {
            match logit_result(proportion(pt, asset, 0)) {
                Err(error) => Err(error),
                Ok(log) => difference(rate as int, quot(log * WAD, scalar)),
            }
        },
    }
}

/// The implied rate that a pool's reserves express.
pub open spec fn ln_implied_rate_result(
    pt: int,
    asset: int,
    scalar: int,
    anchor: int,
    time_to_expiry: int,
) -> Result<i128, Error> {
    match exchange_rate_result(pt, asset, scalar, anchor, 0) {
        Err(error) => Err(error),
        Ok(rate) => Ok(quot(ln_wad(rate as int) * IMPLIED_RATE_TIME, time_to_expiry) as i128),
    }
}

/// The ratio inside `logit` is a positive `i128`.
pub proof fn lemma_odds(p: int)
    requires
        0 < p < WAD,
    ensures
        0 < p * WAD / (WAD - p) <= i128::MAX,
        0 < p * WAD <= WAD * WAD,
        -64 * WAD <= logit(p) <= 64 * WAD,
{
    let w: int = WAD as int;
    let n: int = p * w;
    let d: int = w - p;
    assert(0 < n <= w * w && n >= d) by (nonlinear_arith)
        requires
            0 < p < w,
            n == p * w,
            d == w - p,
            w == 1_000_000_000_000_000_000,
    ;
    lemma_floor(n, d);
    let q: int = n / d;
    assert(q >= 1) by (nonlinear_arith)
        requires
            n >= d,
            d > 0,
            n < d * q + d,
    ;
    lemma_ln_bound(q);
}

/// The scaled log-odds on the curve stay far inside the range.
proof fn lemma_scaled_logit(log: int, scalar: int)
    requires
        -64 * WAD <= log <= 64 * WAD,
        scalar > 0,
    ensures
        fits(log * WAD),
        fits(quot(log * WAD, scalar)),
        -64_000_000_000_000_000_000_000_000_000_000_000_000 <= quot(log * WAD, scalar)
            <= 64_000_000_000_000_000_000_000_000_000_000_000_000,
{
    assert(-64_000_000_000_000_000_000_000_000_000_000_000_000 <= log * WAD
        <= 64_000_000_000_000_000_000_000_000_000_000_000_000);
    let n: int = log * WAD;
    lemma_quot_times(n, scalar);
    let q: int = quot(n, scalar);
    if n >= 0 {
        assert(0 <= q <= n) by (nonlinear_arith)
            requires
                0 <= q * scalar <= n,
                scalar > 0,
        ;
    } else {
        assert(n <= q <= 0) by (nonlinear_arith)
            requires
                n <= q * scalar <= 0,
                scalar > 0,
        ;
    }
}

pub fn log_proportion(p: i128) -> (result: Result<i128, Error>)
    ensures
        result == logit_result(p as int),
{
    let complement: i128 = checked_sub(WAD, p)?;
    if complement <= 0 {
        return Err(Error::MarketProportionTooHigh);
    }
    proof {
        if p > 0 {
            lemma_odds(p as int);
        } else {
            let n: int = p * WAD;
            assert(n <= 0) by (nonlinear_arith)
                requires
                    n == p * 1_000_000_000_000_000_000,
                    p <= 0,
            ;
            lemma_quot_times(n, complement as int);
            let q: int = quot(n, complement as int);
            assert(q <= 0) by (nonlinear_arith)
                requires
                    q * complement <= 0,
                    complement > 0,
            ;
        }
    }
    let odds: i128 = mul_div_down(p, WAD, complement)?;
    match ln_wad_checked(odds) {
        Some(log) => Ok(log),
        None => Err(Error::MathOverflow),
    }
}

pub fn get_exchange_rate(
    total_pt: i128,
    total_asset: i128,
    rate_scalar: i128,
    rate_anchor: i128,
    net_pt_to_account: i128,
) -> (result: Result<i128, Error>)
    requires
        rate_scalar > 0,
    ensures
        result == exchange_rate_result(
            total_pt as int,
            total_asset as int,
            rate_scalar as int,
            rate_anchor as int,
            net_pt_to_account as int,
        ),
{
    let numerator: i128 = checked_sub(total_pt, net_pt_to_account)?;
    let denominator: i128 = checked_add(total_pt, total_asset)?;
    proof {
        assert(numerator * WAD >= 0) by (nonlinear_arith)
            requires
                numerator >= 0,
        ;
        if denominator < 0 {
            lemma_quot_times(numerator * WAD, denominator as int);
            let q: int = quot(numerator * WAD, denominator as int);
            assert(q <= 0) by (nonlinear_arith)
                requires
                    q * denominator >= 0,
                    denominator < 0,
            ;
        }
    }
    let p: i128 = mul_div_down(numerator, WAD, denominator)?;
    if p > MAX_MARKET_PROPORTION {
        return Err(Error::MarketProportionTooHigh);
    }
    let log: i128 = log_proportion(p)?;
    proof {
        lemma_odds(p as int);
        lemma_scaled_logit(log as int, rate_scalar as int);
    }
    let scaled: i128 = mul_div_down(log, WAD, rate_scalar)?;
    let exchange_rate: i128 = checked_add(scaled, rate_anchor)?;
    if exchange_rate < WAD {
        return Err(Error::ExchangeRateBelowOne);
    }
    Ok(exchange_rate)
}

pub fn try_get_exchange_rate(
    total_pt: i128,
    total_asset: i128,
    rate_scalar: i128,
    rate_anchor: i128,
    net_pt_to_account: i128,
) -> (result: Option<i128>)
    requires
        rate_scalar > 0,
    ensures
        result == priced_rate(
            total_pt as int,
            total_asset as int,
            rate_scalar as int,
            rate_anchor as int,
            net_pt_to_account as int,
        ),
        result == (match exchange_rate_result(
            total_pt as int,
            total_asset as int,
            rate_scalar as int,
            rate_anchor as int,
            net_pt_to_account as int,
        ) {
            Ok(rate) => Some(rate),
            Err(_) => None,
        }),
{
    let numerator: i128 = total_pt.checked_sub(net_pt_to_account)?;
    let denominator: i128 = total_pt.checked_add(total_asset)?;
    if numerator <= 0 || denominator <= 0 {
        proof {
            if numerator == 0 && denominator > 0 {
                lemma_floor(0, total_pt + total_asset);
            }
        }
        return None;
    }
    let product: i128 = numerator.checked_mul(WAD)?;
    proof {
        lemma_floor(product as int, denominator as int);
    }
    let p: i128 = product / denominator;
    if p <= 0 || p > MAX_MARKET_PROPORTION {
        return None;
    }
    proof {
        lemma_odds(p as int);
        lemma_scaled_logit(logit(p as int), rate_scalar as int);
    }
    let odds: i128 = p * WAD / (WAD - p);
    let log: i128 = ln_wad_checked(odds)?;
    let scaled: i128 = quotient(log * WAD, rate_scalar);
    let exchange_rate: i128 = scaled.checked_add(rate_anchor)?;
    if exchange_rate < WAD {
        return None;
    }
    Some(exchange_rate)
}

pub fn get_rate_scalar(scalar_root: i128, time_to_expiry: u64) -> (result: Result<i128, Error>)
    requires
        time_to_expiry > 0,
    ensures
        result == rate_scalar_result(scalar_root as int, time_to_expiry as int),
        result matches Ok(scalar) ==> scalar > 0,
{
    let numerator: i128 = checked_mul(scalar_root, IMPLIED_RATE_TIME as i128)?;
    let rate_scalar: i128 = quotient(numerator, time_to_expiry as i128);
    if rate_scalar <= 0 {
        return Err(Error::InvalidScalarRoot);
    }
    Ok(rate_scalar)
}

pub fn get_exchange_rate_from_implied_rate(
    ln_implied_rate: i128,
    time_to_expiry: u64,
) -> (result: Result<i128, Error>)
    ensures
        result == rate_from_implied(ln_implied_rate as int, time_to_expiry as int),
{
    let rt: i128 = mul_div_down(ln_implied_rate, time_to_expiry as i128, IMPLIED_RATE_TIME as i128)?;
    proof {
        let n: int = ln_implied_rate * time_to_expiry;
        lemma_quot_times(n, IMPLIED_RATE_TIME as int);
    }
    match exp_wad_checked(rt) {
        Some(rate) => Ok(rate),
        None => Err(Error::MathOverflow),
    }
}

pub fn get_rate_anchor(
    total_pt: i128,
    last_ln_implied_rate: i128,
    total_asset: i128,
    rate_scalar: i128,
    time_to_expiry: u64,
) -> (result: Result<i128, Error>)
    requires
        total_pt > 0,
        total_asset >= 0,
        rate_scalar > 0,
    ensures
        result == rate_anchor_result(
            total_pt as int,
            last_ln_implied_rate as int,
            total_asset as int,
            rate_scalar as int,
            time_to_expiry as int,
        ),
{
    let exchange_rate: i128 = get_exchange_rate_from_implied_rate(
        last_ln_implied_rate,
        time_to_expiry,
    )?;
    if exchange_rate < WAD {
        return Err(Error::ExchangeRateBelowOne);
    }
    let denominator: i128 = checked_add(total_pt, total_asset)?;
    proof {
        assert(total_pt * WAD >= 0) by (nonlinear_arith)
            requires
                total_pt >= 0,
        ;
    }
    let p: i128 = mul_div_down(total_pt, WAD, denominator)?;
    let log: i128 = log_proportion(p)?;
    proof {
        lemma_odds(p as int);
        lemma_scaled_logit(log as int, rate_scalar as int);
    }
    let scaled: i128 = mul_div_down(log, WAD, rate_scalar)?;
    checked_sub(exchange_rate, scaled)
}

pub fn get_ln_implied_rate(
    total_pt: i128,
    total_asset: i128,
    rate_scalar: i128,
    rate_anchor: i128,
    time_to_expiry: u64,
) -> (result: Result<i128, Error>)
    requires
        rate_scalar > 0,
        time_to_expiry > 0,
    ensures
        result == ln_implied_rate_result(
            total_pt as int,
            total_asset as int,
            rate_scalar as int,
            rate_anchor as int,
            time_to_expiry as int,
        ),
        result matches Ok(rate) ==> 0 <= rate <= max_ln_implied_rate(),
{
    let exchange_rate: i128 = get_exchange_rate(total_pt, total_asset, rate_scalar, rate_anchor, 0)?;
    proof {
        lemma_ln_bound(exchange_rate as int);
        let n: int = ln_wad(exchange_rate as int) * IMPLIED_RATE_TIME;
        assert(0 <= n <= max_ln_implied_rate());
        lemma_quot_times(n, time_to_expiry as int);
        let q: int = quot(n, time_to_expiry as int);
        assert(0 <= q <= n) by (nonlinear_arith)
            requires
                0 <= q * time_to_expiry <= n,
                time_to_expiry > 0,
        ;
    }
    match ln_wad_checked(exchange_rate) {
        Some(ln_rate) => mul_div_down(ln_rate, IMPLIED_RATE_TIME as i128, time_to_expiry as i128),
        None => Err(Error::MathOverflow),
    }
}

/// No implied rate is above this.
pub open spec fn max_ln_implied_rate() -> int {
    64 * WAD * 31_536_000
}

/// The two ways of asking for an exchange rate agree on every pool and every
/// trade: the one that may be refused gives a rate exactly where the other finds
/// one, and the same. A rate is never below one, and the trade leaves PT a
/// positive share of the pool, within the bound.
pub proof fn law_both_rates_agree(
    total_pt: i128,
    total_asset: i128,
    rate_scalar: i128,
    rate_anchor: i128,
    net_pt_to_account: i128,
)
    requires
        rate_scalar > 0,
    ensures
        ({
            let (pt, asset, net) = (
                total_pt as int,
                total_asset as int,
                net_pt_to_account as int,
            );
            let (scalar, anchor) = (rate_scalar as int, rate_anchor as int);
            &&& priced_rate(pt, asset, scalar, anchor, net) == (match exchange_rate_result(
                pt,
                asset,
                scalar,
                anchor,
                net,
            ) {
                Ok(rate) => Some(rate),
                Err(_) => None::<i128>,
            })
            &&& priced_rate(pt, asset, scalar, anchor, net) matches Some(rate) ==> {
                &&& rate >= WAD
                &&& 1 <= proportion(pt, asset, net) <= MAX_MARKET_PROPORTION
                &&& proportion(pt, asset, net) == quot((pt - net) * WAD, pt + asset)
            }
        }),
{
    let d: int = total_pt + total_asset;
    let n: int = (total_pt - net_pt_to_account) * WAD;
    if d > 0 {
        if n >= 0 {
            lemma_floor(n, d);
        }
        if total_pt == net_pt_to_account {
            lemma_floor(0, d);
        }
    }
    assert(total_pt > net_pt_to_account ==> n > 0) by (nonlinear_arith)
        requires
            n == (total_pt - net_pt_to_account) * WAD,
            WAD > 0,
    ;
}

// ---------------------------------------------------------------------------
// Shares and asset units
// ---------------------------------------------------------------------------

/// Asset-unit value of `shares` SY at `rate`, rounded down: the curve never
/// believes the pool holds more value than it does.
pub fn asset_value_of_shares(shares: i128, rate: i128) -> (result: Result<i128, Error>)
    ensures
        result == scaled_down(shares as int, rate as int, WAD as int),
{
    mul_div_down(shares, rate, WAD)
}

/// SY shares that must be split so that the floored face mint covers `face`.
pub fn shares_in_for_face_up(face: i128, rate: i128) -> (result: Result<i128, Error>)
    requires
        rate > 0,
    ensures
        result == scaled_up(face as int, WAD as int, rate as int),
{
    mul_div_up(face, WAD, rate)
}

/// SY shares that recombining `face` PT and YT returns, rounded down.
pub fn shares_out_for_face_down(face: i128, rate: i128) -> (result: Result<i128, Error>)
    requires
        rate > 0,
    ensures
        result == scaled_down(face as int, WAD as int, rate as int),
{
    mul_div_down(face, WAD, rate)
}

/// An implied rate in basis points, rounded toward zero.
pub fn ln_rate_to_bps(ln_rate: i128) -> (bps: i128)
    requires
        fits(ln_rate * BPS_DENOMINATOR),
    ensures
        bps == quot(ln_rate * BPS_DENOMINATOR, WAD as int),
{
    quotient(ln_rate * BPS_DENOMINATOR, WAD)
}

/// What a trade's exchange rate is. `share` is PT's part of the pool's value once
/// the trade's PT has left, and `odds` the ratio of that part to the rest, each
/// rounded down. The rate is the anchor plus the logarithm of the odds over the
/// scalar, rounded toward zero. There is one exactly where PT is left, makes up
/// some of the pool and no more than ninety-six hundredths, the rate is at least
/// one, and the numbers are in range.
pub proof fn law_exchange_rate_terms(
    total_pt: i128,
    total_asset: i128,
    rate_scalar: i128,
    rate_anchor: i128,
    net: i128,
    share: int,
    odds: int,
)
    requires
        rate_scalar > 0,
        total_pt + total_asset > 0,
        net <= total_pt,
        share * (total_pt + total_asset) <= (total_pt - net) * 1_000_000_000_000_000_000,
        (total_pt - net) * 1_000_000_000_000_000_000 < (share + 1) * (total_pt + total_asset),
        0 < share < 1_000_000_000_000_000_000 ==> odds * (1_000_000_000_000_000_000 - share)
            <= share * 1_000_000_000_000_000_000 < (odds + 1) * (1_000_000_000_000_000_000 - share),
    ensures
        ({
            let w = 1_000_000_000_000_000_000int;
            let result = exchange_rate_result(
                total_pt as int,
                total_asset as int,
                rate_scalar as int,
                rate_anchor as int,
                net as int,
            );
            &&& result matches Ok(rate) ==> {
                let above = rate - rate_anchor;
                &&& 0 < share <= 960_000_000_000_000_000
                &&& rate >= w
                &&& ln_wad(odds) >= 0 ==> 0 <= above && above * rate_scalar <= ln_wad(odds) * w
                    < (above + 1) * rate_scalar
                &&& ln_wad(odds) <= 0 ==> above <= 0 && (above - 1) * rate_scalar < ln_wad(odds)
                    * w <= above * rate_scalar
            }
            &&& result is Err ==> {
                ||| !(0 < share <= 960_000_000_000_000_000)
                ||| total_pt + total_asset > i128::MAX
                ||| (total_pt - net) * w > i128::MAX
                ||| !fits(quot(ln_wad(odds) * w, rate_scalar as int) + rate_anchor)
                ||| quot(ln_wad(odds) * w, rate_scalar as int) + rate_anchor < w
            }
        }),
{
    let w = 1_000_000_000_000_000_000int;
    let d: int = total_pt + total_asset;
    let n: int = (total_pt - net) * w;
    assert(d * share <= n < d * share + d) by (nonlinear_arith)
        requires
            share * d <= n < (share + 1) * d,
    ;
    lemma_floor_unique(n, d, share);
    assert(proportion(total_pt as int, total_asset as int, net as int) == share);
    if 0 < share < w {
        let m: int = share * w;
        let e: int = w - share;
        assert(e * odds <= m < e * odds + e) by (nonlinear_arith)
            requires
                odds * e <= m < (odds + 1) * e,
        ;
        lemma_floor_unique(m, e, odds);
        assert(logit(share) == ln_wad(odds));
        let log: int = ln_wad(odds) * w;
        let scalar: int = rate_scalar as int;
        lemma_quot_times(log, scalar);
        let q: int = quot(log, scalar);
        assert((q + 1) * scalar == q * scalar + scalar && (q - 1) * scalar == q * scalar - scalar)
            by (nonlinear_arith);
        assert((log >= 0 ==> q >= 0) && (log <= 0 ==> q <= 0)) by (nonlinear_arith)
            requires
                scalar > 0,
                log >= 0 ==> log - q * scalar < scalar,
                log <= 0 ==> q * scalar - log < scalar,
        ;
        assert((ln_wad(odds) >= 0 ==> log >= 0) && (ln_wad(odds) <= 0 ==> log <= 0))
            by (nonlinear_arith)
            requires
                log == ln_wad(odds) * w,
                w > 0,
        ;
    }
}

/// What the time left does to the curve and to implied rates. The scalar is the
/// root over the part of a year that is left, rounded down; it must be positive.
/// An implied rate stands for the exponential of its part of the time left. And
/// the rate that reserves imply is the logarithm of their exchange rate, over the
/// part of a year that is left, rounded down.
pub proof fn law_time_terms(
    scalar_root: int,
    ln_implied_rate: int,
    time_to_expiry: int,
    rt: int,
    pt: int,
    asset: int,
    scalar: int,
    anchor: int,
)
    requires
        0 < time_to_expiry <= u64::MAX,
        0 < scalar_root,
        scalar_root * 31_536_000 <= i128::MAX,
        0 <= ln_implied_rate,
        ln_implied_rate * time_to_expiry <= i128::MAX,
        rt * 31_536_000 <= ln_implied_rate * time_to_expiry < (rt + 1) * 31_536_000,
    ensures
        rate_scalar_result(scalar_root, time_to_expiry) is Ok <==> scalar_root * 31_536_000
            >= time_to_expiry,
        rate_scalar_result(scalar_root, time_to_expiry) matches Ok(found) ==> found * time_to_expiry
            <= scalar_root * 31_536_000 < (found + 1) * time_to_expiry,
        rate_from_implied(ln_implied_rate, time_to_expiry) == (match exp_wad(rt) {
            Some(rate) => Ok::<i128, Error>(rate),
            None => Err(Error::MathOverflow),
        }),
        ln_implied_rate_result(pt, asset, scalar, anchor, time_to_expiry) is Ok
            <==> exchange_rate_result(pt, asset, scalar, anchor, 0) is Ok,
        ln_implied_rate_result(pt, asset, scalar, anchor, time_to_expiry) matches Ok(implied) ==> {
            let ln = ln_wad(exchange_rate_result(pt, asset, scalar, anchor, 0)->Ok_0 as int);
            implied * time_to_expiry <= ln * 31_536_000 < (implied + 1) * time_to_expiry
        },
{
    let t: int = time_to_expiry;
    let n: int = scalar_root * 31_536_000;
    lemma_floor(n, t);
    let q: int = n / t;
    assert((q + 1) * t == q * t + t) by (nonlinear_arith);
    assert(q >= 1 <==> n >= t) by (nonlinear_arith)
        requires
            t > 0,
            t * q <= n < t * q + t,
    ;
    let m: int = ln_implied_rate * t;
    assert(m >= 0) by (nonlinear_arith)
        requires
            m == ln_implied_rate * t,
            ln_implied_rate >= 0,
            t > 0,
    ;
    lemma_floor_unique(m, 31_536_000, rt);
    lemma_floor(m, 31_536_000);
    if exchange_rate_result(pt, asset, scalar, anchor, 0) is Ok {
        let rate: int = exchange_rate_result(pt, asset, scalar, anchor, 0)->Ok_0 as int;
        lemma_ln_bound(rate);
        let l: int = ln_wad(rate) * 31_536_000;
        lemma_floor(l, t);
        let i: int = l / t;
        assert((i + 1) * t == i * t + t) by (nonlinear_arith);
    }
}

/// Where the curve is anchored, with `share` PT's part of the pool's value and
/// `odds` its ratio to the rest, each rounded down: below the exchange rate that
/// the implied rate stands for, by the logarithm of the odds over the scalar,
/// rounded toward zero. It is refused exactly where that rate is below one or there
/// is none, PT makes up nothing or all of the pool, the anchor is negative, or a
/// number is out of range.
pub proof fn law_anchor_terms(
    total_pt: i128,
    ln_implied_rate: i128,
    total_asset: i128,
    rate_scalar: i128,
    time_to_expiry: u64,
    share: int,
    odds: int,
)
    requires
        total_pt > 0,
        total_asset >= 0,
        rate_scalar > 0,
        share * (total_pt + total_asset) <= total_pt * 1_000_000_000_000_000_000,
        total_pt * 1_000_000_000_000_000_000 < (share + 1) * (total_pt + total_asset),
        0 < share < 1_000_000_000_000_000_000 ==> odds * (1_000_000_000_000_000_000 - share)
            <= share * 1_000_000_000_000_000_000 < (odds + 1) * (1_000_000_000_000_000_000 - share),
    ensures
        ({
            let w = 1_000_000_000_000_000_000int;
            let implied = rate_from_implied(ln_implied_rate as int, time_to_expiry as int);
            let below = quot(ln_wad(odds) * w, rate_scalar as int);
            let result = rate_anchor_result(
                total_pt as int,
                ln_implied_rate as int,
                total_asset as int,
                rate_scalar as int,
                time_to_expiry as int,
            );
            &&& result is Ok <==> {
                &&& implied is Ok && implied->Ok_0 >= w
                &&& total_pt + total_asset <= i128::MAX
                &&& total_pt * w <= i128::MAX
                &&& 0 < share < w
                &&& 0 <= implied->Ok_0 - below <= i128::MAX
            }
            &&& result matches Ok(anchor) ==> {
                let drop = implied->Ok_0 - anchor;
                &&& ln_wad(odds) >= 0 ==> 0 <= drop && drop * rate_scalar <= ln_wad(odds) * w
                    < (drop + 1) * rate_scalar
                &&& ln_wad(odds) <= 0 ==> drop <= 0 && (drop - 1) * rate_scalar < ln_wad(odds) * w
                    <= drop * rate_scalar
            }
        }),
{
    let w = 1_000_000_000_000_000_000int;
    let d: int = total_pt + total_asset;
    let n: int = (total_pt - 0) * w;
    assert(d * share <= n < d * share + d) by (nonlinear_arith)
        requires
            share * d <= n < (share + 1) * d,
    ;
    lemma_floor_unique(n, d, share);
    assert(share >= 0 && share <= w) by (nonlinear_arith)
        requires
            d * share <= n < d * share + d,
            d >= total_pt,
            total_pt > 0,
            n == total_pt * w,
            w > 0,
    ;
    if 0 < share < w {
        let m: int = share * w;
        let e: int = w - share;
        assert(e * odds <= m < e * odds + e) by (nonlinear_arith)
            requires
                odds * e <= m < (odds + 1) * e,
        ;
        lemma_floor_unique(m, e, odds);
        lemma_odds(share);
        let log: int = ln_wad(odds) * w;
        let scalar: int = rate_scalar as int;
        lemma_quot_times(log, scalar);
        let q: int = quot(log, scalar);
        assert((q + 1) * scalar == q * scalar + scalar && (q - 1) * scalar == q * scalar - scalar)
            by (nonlinear_arith);
        assert((log >= 0 ==> q >= 0) && (log <= 0 ==> q <= 0)) by (nonlinear_arith)
            requires
                scalar > 0,
                log >= 0 ==> log - q * scalar < scalar,
                log <= 0 ==> q * scalar - log < scalar,
        ;
        assert((ln_wad(odds) >= 0 ==> log >= 0) && (ln_wad(odds) <= 0 ==> log <= 0))
            by (nonlinear_arith)
            requires
                log == ln_wad(odds) * w,
                w > 0,
        ;
    }
}

} // verus!
