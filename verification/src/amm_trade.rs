//! Pricing one trade: selling PT, buying PT, and buying YT through a split.

use crate::amm::{Config, Error, Precompute, State};
use crate::amm_curve::{
    asset_value_of_shares, exchange_rate_result, get_exchange_rate, get_ln_implied_rate,
    ln_implied_rate_result, shares_in_for_face_up, shares_out_for_face_down, try_get_exchange_rate,
    BPS_DENOMINATOR,
};
use crate::amm_math::{
    bounded_sum, checked_add, checked_bounded_reserve_add, in_range, law_scaled_terms, mul_div_down,
    mul_div_up, scaled_down, scaled_up,
};
use crate::fixed::{fits, lemma_ceil, lemma_floor, quot, WAD};
use vstd::prelude::*;

verus! {

// ---------------------------------------------------------------------------
// What a trade is worth
// ---------------------------------------------------------------------------

/// Whether the reserves a trade would leave behind still price on the curve.
pub open spec fn representable(comp: Precompute, post_pt: int, post_sy: int) -> Result<bool, Error> {
    if post_pt <= 0 || post_sy <= 0 {
        Ok(false)
    } else {
        match scaled_down(post_sy, comp.sy_rate as int, WAD as int) {
            Err(error) => Err(error),
            Ok(asset) => Ok(
                asset > 0 && exchange_rate_result(
                    post_pt,
                    asset as int,
                    comp.rate_scalar as int,
                    comp.rate_anchor as int,
                    0,
                ) is Ok,
            ),
        }
    }
}

/// SY shares the curve pays for `face` PT at `rate`: the asset value rounded
/// down, less a fee rounded up, back to shares rounded down.
pub open spec fn sale_leg(config: Config, comp: Precompute, face: int, rate: int) -> Result<i128, Error> {
    match scaled_down(face, WAD as int, rate) {
        Err(error) => Err(error),
        Ok(gross) => match scaled_up(gross as int, config.fee_bps as int, BPS_DENOMINATOR as int) {
            Err(error) => Err(error),
            Ok(fee) => scaled_down(gross - fee, WAD as int, comp.sy_rate as int),
        },
    }
}

/// SY shares the pool charges for `face` PT at `rate`, each step rounded up.
pub open spec fn purchase_leg(config: Config, comp: Precompute, face: int, rate: int) -> Result<
    i128,
    Error,
> {
    match scaled_up(face, WAD as int, rate) {
        Err(error) => Err(error),
        Ok(net) => match scaled_up(net as int, config.fee_bps as int, BPS_DENOMINATOR as int) {
            Err(error) => Err(error),
            Ok(fee) => match in_range(net + fee) {
                Err(error) => Err(error),
                Ok(gross) => scaled_up(gross as int, WAD as int, comp.sy_rate as int),
            },
        },
    }
}

/// SY shares out for selling `pt_in` PT to the pool.
pub open spec fn sale(config: Config, state: State, comp: Precompute, pt_in: int) -> Result<i128, Error> {
    match exchange_rate_result(
        state.total_pt as int,
        comp.total_asset as int,
        comp.rate_scalar as int,
        comp.rate_anchor as int,
        -pt_in,
    ) {
        Err(error) => Err(error),
        Ok(rate) => match sale_leg(config, comp, pt_in, rate as int) {
            Err(error) => Err(error),
            Ok(sy_out) => if sy_out <= 0 || sy_out >= state.total_sy {
                Err(Error::InsufficientLiquidity)
            } else if !fits(state.total_pt + pt_in) {
                Err(Error::MathOverflow)
            } else {
                match representable(comp, state.total_pt + pt_in, state.total_sy - sy_out) {
                    Err(error) => Err(error),
                    Ok(true) => Ok(sy_out),
                    Ok(false) => Err(Error::InsufficientLiquidity),
                }
            },
        },
    }
}

/// SY shares in for buying `pt_out` PT from the pool, where the pool can sell
/// that many.
pub open spec fn purchase(config: Config, state: State, comp: Precompute, pt_out: int) -> Result<
    Option<i128>,
    Error,
> {
    if pt_out <= 0 || pt_out >= state.total_pt {
        Ok(None)
    } else {
        match exchange_rate_result(
            state.total_pt as int,
            comp.total_asset as int,
            comp.rate_scalar as int,
            comp.rate_anchor as int,
            pt_out,
        ) {
            Err(_) => Ok(None),
            Ok(rate) => match purchase_leg(config, comp, pt_out, rate as int) {
                Err(error) => Err(error),
                Ok(sy_in) => if !fits(state.total_sy + sy_in) {
                    Err(Error::MathOverflow)
                } else {
                    match representable(comp, state.total_pt - pt_out, state.total_sy + sy_in) {
                        Err(error) => Err(error),
                        Ok(true) => Ok(Some(sy_in)),
                        Ok(false) => Ok(None),
                    }
                },
            },
        }
    }
}

/// `purchase` as a quote: a size the pool cannot sell is no trade.
pub open spec fn purchase_quote(config: Config, state: State, comp: Precompute, pt_out: int) -> Result<
    i128,
    Error,
> {
    match purchase(config, state, comp, pt_out) {
        Err(error) => Err(error),
        Ok(Some(sy_in)) => Ok(sy_in),
        Ok(None) => Err(Error::TradeNotFound),
    }
}

/// The state once `pt_in` PT were sold for `sy_out` SY, priced on the curve the
/// trade was quoted on.
pub open spec fn after_sale(state: State, comp: Precompute, pt_in: int, sy_out: int) -> Result<
    State,
    Error,
> {
    match bounded_sum(state.total_pt as int, pt_in) {
        Err(error) => Err(error),
        Ok(total_pt) => match implied_after(comp, total_pt as int, state.total_sy - sy_out) {
            Err(error) => Err(error),
            Ok(last_ln_implied_rate) => Ok(
                State {
                    total_pt,
                    total_sy: (state.total_sy - sy_out) as i128,
                    last_ln_implied_rate,
                    ..state
                },
            ),
        },
    }
}

/// The state once `pt_out` PT were bought for `sy_in` SY.
pub open spec fn after_purchase(state: State, comp: Precompute, pt_out: int, sy_in: int) -> Result<
    State,
    Error,
> {
    match bounded_sum(state.total_sy as int, sy_in) {
        Err(error) => Err(error),
        Ok(total_sy) => match implied_after(comp, state.total_pt - pt_out, total_sy as int) {
            Err(error) => Err(error),
            Ok(last_ln_implied_rate) => Ok(
                State {
                    total_pt: (state.total_pt - pt_out) as i128,
                    total_sy,
                    last_ln_implied_rate,
                    ..state
                },
            ),
        },
    }
}

/// The implied rate of given reserves on the curve a trade was quoted on.
pub open spec fn implied_after(comp: Precompute, pt: int, sy: int) -> Result<i128, Error> {
    match scaled_down(sy, comp.sy_rate as int, WAD as int) {
        Err(error) => Err(error),
        Ok(asset) => ln_implied_rate_result(
            pt,
            asset as int,
            comp.rate_scalar as int,
            comp.rate_anchor as int,
            comp.time_to_expiry as int,
        ),
    }
}

// ---------------------------------------------------------------------------
// Rounding facts
// ---------------------------------------------------------------------------

/// Both scalings of nonnegative amounts, as floor and ceiling.
pub proof fn lemma_scaled(lhs: int, rhs: int, d: int)
    requires
        lhs >= 0,
        rhs >= 0,
        d > 0,
    ensures
        lhs * rhs >= 0,
        quot(lhs * rhs, d) == lhs * rhs / d,
        scaled_down(lhs, rhs, d) matches Ok(v) ==> v == lhs * rhs / d && 0 <= v <= lhs * rhs,
        scaled_up(lhs, rhs, d) matches Ok(v) ==> v == crate::fixed::ceil_div(lhs * rhs, d) && 0 <= v
            && lhs * rhs / d <= v <= lhs * rhs,
{
    assert(lhs * rhs >= 0) by (nonlinear_arith)
        requires
            lhs >= 0,
            rhs >= 0,
    ;
    let n: int = lhs * rhs;
    lemma_floor(n, d);
    lemma_ceil(n, d);
    crate::fixed::lemma_ceil_from_floor(n, d);
    crate::fixed::lemma_floor_le_ceil(n, d);
    vstd::arithmetic::mul::lemma_mul_is_commutative(d, n / d);
}

/// A fee below the whole never exceeds the amount it is taken from.
pub proof fn lemma_fee(amount: int, fee_bps: int)
    requires
        amount >= 0,
        0 <= fee_bps < BPS_DENOMINATOR,
    ensures
        scaled_up(amount, fee_bps, BPS_DENOMINATOR as int) matches Ok(fee) ==> 0 <= fee <= amount,
{
    lemma_scaled(amount, fee_bps, BPS_DENOMINATOR as int);
    let n: int = amount * fee_bps;
    lemma_ceil(n, 10_000);
    let c: int = crate::fixed::ceil_div(n, 10_000);
    assert(c <= amount) by (nonlinear_arith)
        requires
            n == amount * fee_bps,
            0 <= fee_bps < 10_000,
            amount >= 0,
            10_000 * c - 10_000 < n,
    ;
}

// ---------------------------------------------------------------------------
// Pricing
// ---------------------------------------------------------------------------

pub fn post_trade_rate_is_representable(comp: &Precompute, post_pt: i128, post_sy_shares: i128) -> (result: Result<
    bool,
    Error,
>)
    requires
        comp.valid(),
    ensures
        result == representable(*comp, post_pt as int, post_sy_shares as int),
{
    if post_pt <= 0 || post_sy_shares <= 0 {
        return Ok(false);
    }
    let post_asset: i128 = asset_value_of_shares(post_sy_shares, comp.sy_rate)?;
    if post_asset <= 0 {
        return Ok(false);
    }
    Ok(
        try_get_exchange_rate(
            post_pt,
            post_asset,
            comp.rate_scalar,
            comp.rate_anchor,
            0,
        ).is_some(),
    )
}

/// The curve leg of a PT sale at a rate already resolved.
pub fn price_sale_leg(config: &Config, comp: &Precompute, face: i128, rate: i128) -> (result: Result<
    i128,
    Error,
>)
    requires
        config.valid(),
        comp.valid(),
        face >= 0,
        rate > 0,
    ensures
        result == sale_leg(*config, *comp, face as int, rate as int),
        result matches Ok(sy_out) ==> sy_out >= 0,
{
    proof {
        lemma_scaled(face as int, WAD as int, rate as int);
    }
    let gross: i128 = mul_div_down(face, WAD, rate)?;
    let fee: i128 = mul_div_up(gross, config.fee_bps, BPS_DENOMINATOR)?;
    proof {
        lemma_fee(gross as int, config.fee_bps as int);
        lemma_scaled(gross - fee, WAD as int, comp.sy_rate as int);
    }
    shares_out_for_face_down(gross - fee, comp.sy_rate)
}

pub fn exact_pt_in_sy_out(config: &Config, state: &State, comp: &Precompute, pt_in: i128) -> (result: Result<
    i128,
    Error,
>)
    requires
        config.valid(),
        state.seeded(),
        comp.valid(),
        pt_in > 0,
    ensures
        result == sale(*config, *state, *comp, pt_in as int),
        result matches Ok(sy_out) ==> 0 < sy_out < state.total_sy,
{
    let exchange_rate: i128 = get_exchange_rate(
        state.total_pt,
        comp.total_asset,
        comp.rate_scalar,
        comp.rate_anchor,
        -pt_in,
    )?;
    let sy_out: i128 = price_sale_leg(config, comp, pt_in, exchange_rate)?;
    if sy_out <= 0 || sy_out >= state.total_sy {
        return Err(Error::InsufficientLiquidity);
    }
    let post_pt: i128 = checked_add(state.total_pt, pt_in)?;
    if !post_trade_rate_is_representable(comp, post_pt, state.total_sy - sy_out)? {
        return Err(Error::InsufficientLiquidity);
    }
    Ok(sy_out)
}

/// Sells `pt_in` PT to the pool for at least `min_sy_out` SY, and gives the
/// proceeds with the state the trade leaves.
pub fn apply_exact_pt_in_trade(
    config: &Config,
    state: &State,
    comp: &Precompute,
    pt_in: i128,
    min_sy_out: i128,
) -> (result: Result<(i128, State), Error>)
    requires
        config.valid(),
        state.seeded(),
        comp.valid(),
        pt_in > 0,
    ensures
        result == (match sale(*config, *state, *comp, pt_in as int) {
            Err(error) => Err(error),
            Ok(sy_out) => if sy_out < min_sy_out {
                Err(Error::SlippageExceeded)
            } else {
                match after_sale(*state, *comp, pt_in as int, sy_out as int) {
                    Err(error) => Err(error),
                    Ok(after) => Ok((sy_out, after)),
                }
            },
        }),
        result matches Ok(done) ==> 0 < done.0 < state.total_sy && done.1.seeded() && 0
            <= done.1.last_ln_implied_rate <= crate::amm_curve::max_ln_implied_rate(),
{
    let sy_out: i128 = exact_pt_in_sy_out(config, state, comp, pt_in)?;
    if sy_out < min_sy_out {
        return Err(Error::SlippageExceeded);
    }
    let total_pt: i128 = checked_bounded_reserve_add(state.total_pt, pt_in)?;
    let total_sy: i128 = state.total_sy - sy_out;
    proof {
        lemma_scaled(total_sy as int, comp.sy_rate as int, WAD as int);
    }
    let asset: i128 = asset_value_of_shares(total_sy, comp.sy_rate)?;
    let last_ln_implied_rate: i128 = get_ln_implied_rate(
        total_pt,
        asset,
        comp.rate_scalar,
        comp.rate_anchor,
        comp.time_to_expiry,
    )?;
    Ok((sy_out, State { total_pt, total_sy, last_ln_implied_rate, ..*state }))
}

pub fn try_exact_pt_out_sy_in(config: &Config, state: &State, comp: &Precompute, pt_out: i128) -> (result: Result<
    Option<i128>,
    Error,
>)
    requires
        config.valid(),
        state.seeded(),
        comp.valid(),
    ensures
        result == purchase(*config, *state, *comp, pt_out as int),
        result matches Ok(Some(sy_in)) ==> 0 < pt_out < state.total_pt && sy_in >= 0 && state.total_sy
            + sy_in <= i128::MAX,
{
    if pt_out <= 0 || pt_out >= state.total_pt {
        return Ok(None);
    }
    let exchange_rate: i128 = match try_get_exchange_rate(
        state.total_pt,
        comp.total_asset,
        comp.rate_scalar,
        comp.rate_anchor,
        pt_out,
    ) {
        Some(rate) => rate,
        None => {
            return Ok(None);
        },
    };
    proof {
        lemma_scaled(pt_out as int, WAD as int, exchange_rate as int);
    }
    let net: i128 = mul_div_up(pt_out, WAD, exchange_rate)?;
    let fee: i128 = mul_div_up(net, config.fee_bps, BPS_DENOMINATOR)?;
    proof {
        lemma_fee(net as int, config.fee_bps as int);
    }
    let gross: i128 = checked_add(net, fee)?;
    proof {
        lemma_scaled(gross as int, WAD as int, comp.sy_rate as int);
    }
    let sy_in: i128 = shares_in_for_face_up(gross, comp.sy_rate)?;
    let post_sy: i128 = checked_add(state.total_sy, sy_in)?;
    if !post_trade_rate_is_representable(comp, state.total_pt - pt_out, post_sy)? {
        return Ok(None);
    }
    Ok(Some(sy_in))
}

pub fn exact_pt_out_sy_in(config: &Config, state: &State, comp: &Precompute, pt_out: i128) -> (result: Result<
    i128,
    Error,
>)
    requires
        config.valid(),
        state.seeded(),
        comp.valid(),
    ensures
        result == purchase_quote(*config, *state, *comp, pt_out as int),
        result matches Ok(sy_in) ==> 0 < pt_out < state.total_pt && sy_in >= 0 && state.total_sy
            + sy_in <= i128::MAX,
{
    match try_exact_pt_out_sy_in(config, state, comp, pt_out)? {
        Some(sy_in) => Ok(sy_in),
        None => Err(Error::TradeNotFound),
    }
}

/// Buys `pt_out` PT out of a budget of `sy_in` SY, and gives the SY actually
/// charged with the state the trade leaves. What the budget holds beyond the
/// charge is never taken.
pub fn apply_exact_sy_in_trade(
    config: &Config,
    state: &State,
    comp: &Precompute,
    sy_in: i128,
    pt_out: i128,
) -> (result: Result<(i128, State), Error>)
    requires
        config.valid(),
        state.seeded(),
        comp.valid(),
    ensures
        result == (match purchase_quote(*config, *state, *comp, pt_out as int) {
            Err(error) => Err(error),
            Ok(required_sy) => if required_sy > sy_in {
                Err(Error::SlippageExceeded)
            } else {
                match after_purchase(*state, *comp, pt_out as int, required_sy as int) {
                    Err(error) => Err(error),
                    Ok(after) => Ok((required_sy, after)),
                }
            },
        }),
        result matches Ok(done) ==> 0 <= done.0 <= sy_in && done.1.seeded() && 0
            <= done.1.last_ln_implied_rate <= crate::amm_curve::max_ln_implied_rate(),
{
    let required_sy: i128 = exact_pt_out_sy_in(config, state, comp, pt_out)?;
    if required_sy > sy_in {
        return Err(Error::SlippageExceeded);
    }
    let total_pt: i128 = state.total_pt - pt_out;
    let total_sy: i128 = checked_bounded_reserve_add(state.total_sy, required_sy)?;
    proof {
        lemma_scaled(total_sy as int, comp.sy_rate as int, WAD as int);
    }
    let asset: i128 = asset_value_of_shares(total_sy, comp.sy_rate)?;
    let last_ln_implied_rate: i128 = get_ln_implied_rate(
        total_pt,
        asset,
        comp.rate_scalar,
        comp.rate_anchor,
        comp.time_to_expiry,
    )?;
    Ok((required_sy, State { total_pt, total_sy, last_ln_implied_rate, ..*state }))
}

/// What the pool pays for PT. `gross` is the face at the exchange rate, rounded
/// down, and `fee` the market's rate of it, rounded up. The seller gets what is
/// left in shares, rounded down: something, and less than the pool holds.
pub proof fn law_sale_terms(
    config: Config,
    state: State,
    comp: Precompute,
    pt_in: int,
    gross: int,
    fee: int,
)
    requires
        config.valid(),
        comp.valid(),
        pt_in > 0,
        sale(config, state, comp, pt_in) is Ok,
        ({
            let rate = exchange_rate_result(
                state.total_pt as int,
                comp.total_asset as int,
                comp.rate_scalar as int,
                comp.rate_anchor as int,
                -pt_in,
            )->Ok_0;
            gross * rate <= pt_in * 1_000_000_000_000_000_000 < (gross + 1) * rate
        }),
        (fee - 1) * 10_000 < gross * config.fee_bps <= fee * 10_000,
    ensures
        ({
            let sy_out = sale(config, state, comp, pt_in)->Ok_0;
            let net = (gross - fee) * 1_000_000_000_000_000_000;
            &&& exchange_rate_result(
                state.total_pt as int,
                comp.total_asset as int,
                comp.rate_scalar as int,
                comp.rate_anchor as int,
                -pt_in,
            ) is Ok
            &&& 0 < sy_out < state.total_sy
            &&& sy_out * comp.sy_rate <= net < (sy_out + 1) * comp.sy_rate
        }),
{
    let w: int = WAD as int;
    let rate: int = exchange_rate_result(
        state.total_pt as int,
        comp.total_asset as int,
        comp.rate_scalar as int,
        comp.rate_anchor as int,
        -pt_in,
    )->Ok_0 as int;
    law_scaled_terms(pt_in, w, rate);
    let g: int = scaled_down(pt_in, w, rate)->Ok_0 as int;
    assert(g == gross) by (nonlinear_arith)
        requires
            rate > 0,
            gross * rate <= pt_in * w < (gross + 1) * rate,
            g * rate <= pt_in * w < (g + 1) * rate,
    ;
    law_scaled_terms(gross, config.fee_bps as int, 10_000);
    lemma_fee(gross, config.fee_bps as int);
    assert(scaled_up(gross, config.fee_bps as int, 10_000)->Ok_0 == fee);
    law_scaled_terms(gross - fee, w, comp.sy_rate as int);
}

/// What PT costs. `net` is the face at the exchange rate, `fee` the market's rate
/// of it and `cost` the two in shares, each rounded up. That is what a buyer pays,
/// exactly where less is bought than the pool holds and what would be left, `asset`
/// being the grown SY reserve's value rounded down, still prices.
pub proof fn law_purchase_terms(
    config: Config,
    state: State,
    comp: Precompute,
    pt_out: int,
    net: int,
    fee: int,
    cost: int,
    asset: int,
)
    requires
        config.valid(),
        comp.valid(),
        state.seeded(),
        0 < pt_out,
        exchange_rate_result(
            state.total_pt as int,
            comp.total_asset as int,
            comp.rate_scalar as int,
            comp.rate_anchor as int,
            pt_out,
        ) matches Ok(rate) && (net - 1) * rate < pt_out * 1_000_000_000_000_000_000 <= net * rate,
        (fee - 1) * 10_000 < net * config.fee_bps <= fee * 10_000,
        (cost - 1) * comp.sy_rate < (net + fee) * 1_000_000_000_000_000_000 <= cost * comp.sy_rate,
        pt_out * 1_000_000_000_000_000_000 <= i128::MAX,
        net * config.fee_bps <= i128::MAX,
        (net + fee) * 1_000_000_000_000_000_000 <= i128::MAX,
        state.total_sy + cost <= i128::MAX,
        (state.total_sy + cost) * comp.sy_rate <= i128::MAX,
        asset * 1_000_000_000_000_000_000 <= (state.total_sy + cost) * comp.sy_rate,
        (state.total_sy + cost) * comp.sy_rate < (asset + 1) * 1_000_000_000_000_000_000,
    ensures
        purchase(config, state, comp, pt_out) == Ok::<Option<i128>, Error>(
            if pt_out < state.total_pt && asset > 0 && exchange_rate_result(
                state.total_pt - pt_out,
                asset,
                comp.rate_scalar as int,
                comp.rate_anchor as int,
                0,
            ) is Ok {
                Some(cost as i128)
            } else {
                None
            },
        ),
{
    let w: int = WAD as int;
    let s: int = comp.sy_rate as int;
    let rate: int = exchange_rate_result(
        state.total_pt as int,
        comp.total_asset as int,
        comp.rate_scalar as int,
        comp.rate_anchor as int,
        pt_out,
    )->Ok_0 as int;
    law_scaled_terms(pt_out, w, rate);
    let n: int = scaled_up(pt_out, w, rate)->Ok_0 as int;
    assert(n == net) by (nonlinear_arith)
        requires
            rate > 0,
            (net - 1) * rate < pt_out * w <= net * rate,
            (n - 1) * rate < pt_out * w <= n * rate,
    ;
    law_scaled_terms(net, config.fee_bps as int, 10_000);
    lemma_fee(net, config.fee_bps as int);
    assert(scaled_up(net, config.fee_bps as int, 10_000)->Ok_0 == fee);
    law_scaled_terms(net + fee, w, s);
    let c: int = scaled_up(net + fee, w, s)->Ok_0 as int;
    assert(c == cost) by (nonlinear_arith)
        requires
            s > 0,
            (cost - 1) * s < (net + fee) * w <= cost * s,
            (c - 1) * s < (net + fee) * w <= c * s,
    ;
    assert(net + fee <= (net + fee) * w) by (nonlinear_arith)
        requires
            net + fee >= 0,
            w >= 1,
    ;
    law_scaled_terms(state.total_sy + cost, s, w);
    assert(scaled_down(state.total_sy + cost, s, w)->Ok_0 == asset);
}

/// What a trade leaves: the reserves it moved, and the rate they imply on the
/// curve it was quoted on, the SY reserve valued at the SY rate, rounded down.
/// Shares outstanding and observations stay.
pub proof fn law_trade_leaves(
    state: State,
    comp: Precompute,
    pt: int,
    sy: int,
    asset: int,
)
    requires
        comp.valid(),
        state.seeded(),
        pt > 0,
        sy > 0,
    ensures
        after_sale(state, comp, pt, sy) matches Ok(after) ==> {
            &&& after.total_pt == state.total_pt + pt
            &&& state.total_pt + pt <= 1_000_000_000_000_000_000
            &&& sy < state.total_sy ==> after.total_sy == state.total_sy - sy
            &&& sy < state.total_sy && asset * 1_000_000_000_000_000_000 <= after.total_sy
                * comp.sy_rate < (asset + 1) * 1_000_000_000_000_000_000 ==> ln_implied_rate_result(
                after.total_pt as int,
                asset,
                comp.rate_scalar as int,
                comp.rate_anchor as int,
                comp.time_to_expiry as int,
            ) == Ok::<i128, Error>(after.last_ln_implied_rate)
            &&& after.total_lp == state.total_lp
            &&& after.twap_ln_implied_rate == state.twap_ln_implied_rate
            &&& after.last_observation == state.last_observation
            &&& after.warmup_until == state.warmup_until
        },
        after_purchase(state, comp, pt, sy) matches Ok(after) ==> {
            &&& after.total_sy == state.total_sy + sy
            &&& state.total_sy + sy <= 1_000_000_000_000_000_000
            &&& pt < state.total_pt ==> after.total_pt == state.total_pt - pt
            &&& pt < state.total_pt && asset * 1_000_000_000_000_000_000 <= after.total_sy
                * comp.sy_rate < (asset + 1) * 1_000_000_000_000_000_000 ==> ln_implied_rate_result(
                after.total_pt as int,
                asset,
                comp.rate_scalar as int,
                comp.rate_anchor as int,
                comp.time_to_expiry as int,
            ) == Ok::<i128, Error>(after.last_ln_implied_rate)
            &&& after.total_lp == state.total_lp
            &&& after.twap_ln_implied_rate == state.twap_ln_implied_rate
            &&& after.last_observation == state.last_observation
            &&& after.warmup_until == state.warmup_until
        },
{
    let w: int = WAD as int;
    if sy < state.total_sy {
        law_scaled_terms(state.total_sy - sy, comp.sy_rate as int, w);
    }
    law_scaled_terms(state.total_sy + sy, comp.sy_rate as int, w);
}

} // verus!
