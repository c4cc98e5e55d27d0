//! Sizing a trade to a budget: the largest PT purchase and the YT purchase a
//! given number of SY shares pays for.

use crate::amm::{Config, Error, Precompute, State};
use crate::amm_curve::{
    curve_rate, exchange_rate_result, logit, proportion, shares_in_for_face_up,
    try_get_exchange_rate, BPS_DENOMINATOR, MAX_MARKET_PROPORTION,
};
use crate::amm_math::{
    checked_add, law_scaled_terms, mul_div_down, scaled_down, scaled_up, MAX_RESERVE_UNITS,
};
use crate::amm_trade::{
    lemma_fee, lemma_scaled, post_trade_rate_is_representable, price_sale_leg, purchase,
    purchase_leg, representable, sale, sale_leg, try_exact_pt_out_sy_in,
};
use crate::fixed::{
    ceil_div, fits, lemma_ceil, lemma_div_antitone, lemma_div_monotone, lemma_floor,
    lemma_quot_monotone, min_of, WAD,
};
use crate::log_exp::law_ln_never_falls;
use vstd::prelude::*;

verus! {

// ---------------------------------------------------------------------------
// Buying PT
// ---------------------------------------------------------------------------

/// Whether the pool can sell `pt_out` PT for at most `budget` SY.
pub open spec fn affordable(
    config: Config,
    state: State,
    comp: Precompute,
    budget: int,
    pt_out: int,
) -> bool {
    purchase(config, state, comp, pt_out) matches Ok(Some(cost)) && cost <= budget
}

/// Bisection over the sizes `low..=high`, with `best` the last size afforded.
pub open spec fn purchase_search(
    config: Config,
    state: State,
    comp: Precompute,
    budget: int,
    low: int,
    high: int,
    best: int,
) -> Result<int, Error>
    decreases high - low + 1,
{
    if low > high {
        Ok(best)
    } else {
        let mid = low + (high - low) / 2;
        match purchase(config, state, comp, mid) {
            Err(error) => Err(error),
            Ok(_) => if affordable(config, state, comp, budget, mid) {
                purchase_search(config, state, comp, budget, mid + 1, high, mid)
            } else {
                purchase_search(config, state, comp, budget, low, mid - 1, best)
            },
        }
    }
}

/// The PT a budget of SY buys.
pub open spec fn purchase_for_budget(
    config: Config,
    state: State,
    comp: Precompute,
    budget: int,
) -> Result<i128, Error> {
    match purchase_search(config, state, comp, budget, 1, state.total_pt - 1, 0) {
        Err(error) => Err(error),
        Ok(best) => if best <= 0 {
            Err(Error::TradeNotFound)
        } else {
            Ok(best as i128)
        },
    }
}

pub fn exact_sy_in_pt_out(config: &Config, state: &State, comp: &Precompute, sy_in: i128) -> (result: Result<
    i128,
    Error,
>)
    requires
        config.valid(),
        state.seeded(),
        comp.valid(),
    ensures
        result == purchase_for_budget(*config, *state, *comp, sy_in as int),
        result matches Ok(pt_out) ==> 0 < pt_out < state.total_pt && affordable(
            *config,
            *state,
            *comp,
            sy_in as int,
            pt_out as int,
        ),
{
    let mut low: i128 = 1;
    let mut high: i128 = state.total_pt - 1;
    let mut best: i128 = 0;
    while low <= high
        invariant
            config.valid(),
            state.seeded(),
            comp.valid(),
            1 <= low <= high + 1,
            high < state.total_pt,
            0 <= best < low,
            best > 0 ==> affordable(*config, *state, *comp, sy_in as int, best as int),
            purchase_search(*config, *state, *comp, sy_in as int, 1, state.total_pt - 1, 0)
                == purchase_search(
                *config,
                *state,
                *comp,
                sy_in as int,
                low as int,
                high as int,
                best as int,
            ),
        decreases high - low + 1,
    {
        let mid: i128 = low + (high - low) / 2;
        match try_exact_pt_out_sy_in(config, state, comp, mid)? {
            Some(required_sy) if required_sy <= sy_in => {
                best = mid;
                low = mid + 1;
            },
            _ => {
                high = mid - 1;
            },
        }
    }
    if best <= 0 {
        return Err(Error::TradeNotFound);
    }
    Ok(best)
}

// ---------------------------------------------------------------------------
// The purchase found is the largest one
// ---------------------------------------------------------------------------

/// The curve rises with the proportion of PT.
proof fn lemma_curve_monotone(p: int, q: int, scalar: int, anchor: int)
    requires
        0 < p <= q < WAD,
        scalar > 0,
    ensures
        logit(p) <= logit(q),
        curve_rate(p, scalar, anchor) <= curve_rate(q, scalar, anchor),
{
    let w: int = WAD as int;
    let a: int = p * w;
    let b: int = q * w;
    assert(0 < a <= b && b <= w * w && a >= w - p) by (nonlinear_arith)
        requires
            0 < p <= q < w,
            a == p * w,
            b == q * w,
            w == 1_000_000_000_000_000_000,
    ;
    lemma_div_antitone(a, w - q, w - p);
    lemma_div_monotone(a, b, w - q);
    lemma_floor(a, w - p);
    lemma_floor(b, w - q);
    let x: int = a / (w - p);
    let y: int = b / (w - q);
    assert(x >= 1) by (nonlinear_arith)
        requires
            a >= w - p,
            w - p > 0,
            a < (w - p) * x + (w - p),
    ;
    law_ln_never_falls(x, y);
    lemma_quot_monotone(logit(p) * w, logit(q) * w, scalar);
}

/// A pool with more PT and no more SY has a higher proportion of PT.
proof fn lemma_proportion_order(a1: int, b1: int, a2: int, b2: int)
    requires
        0 < a2 <= a1,
        0 <= b1 <= b2,
    ensures
        proportion(a2, b2, 0) <= proportion(a1, b1, 0),
{
    let w: int = WAD as int;
    let q: int = a2 * w / (a2 + b2);
    lemma_floor(a2 * w, a2 + b2);
    assert(0 <= q <= w) by (nonlinear_arith)
        requires
            w > 0,
            a2 > 0,
            b2 >= 0,
            (a2 + b2) * q <= a2 * w,
            a2 * w < (a2 + b2) * q + (a2 + b2),
    ;
    assert(q * b1 <= q * b2 && q * a2 + q * b2 <= a2 * w && a2 * (w - q) <= a1 * (w - q)) by (nonlinear_arith)
        requires
            0 <= q <= w,
            0 < a2 <= a1,
            0 <= b1 <= b2,
            (a2 + b2) * q <= a2 * w,
    ;
    assert((a1 + b1) * q <= a1 * w) by (nonlinear_arith)
        requires
            q * b1 <= q * b2,
            q * a2 + q * b2 <= a2 * w,
            a2 * (w - q) <= a1 * (w - q),
    ;
    lemma_floor(a1 * w, a1 + b1);
    let r: int = a1 * w / (a1 + b1);
    assert(q <= r) by (nonlinear_arith)
        requires
            a1 + b1 > 0,
            (a1 + b1) * q <= a1 * w,
            a1 * w < (a1 + b1) * r + (a1 + b1),
    ;
}

/// Taking less PT out of a pool that prices on the curve prices too, at no
/// lower a rate.
proof fn lemma_rate_order(pt: int, asset: int, scalar: int, anchor: int, n1: int, n2: int)
    requires
        pt > 0,
        asset >= 0,
        scalar > 0,
        0 <= n1 <= n2 < pt,
        exchange_rate_result(pt, asset, scalar, anchor, 0) is Ok,
        exchange_rate_result(pt, asset, scalar, anchor, n2) is Ok,
    ensures
        exchange_rate_result(pt, asset, scalar, anchor, n1) is Ok,
        exchange_rate_result(pt, asset, scalar, anchor, n1)->Ok_0 >= exchange_rate_result(
            pt,
            asset,
            scalar,
            anchor,
            n2,
        )->Ok_0,
{
    let w: int = WAD as int;
    assert(0 <= (pt - n2) * w <= (pt - n1) * w && (pt - n1) * w <= (pt - 0) * w) by (nonlinear_arith)
        requires
            0 <= n1 <= n2 < pt,
            w > 0,
    ;
    lemma_div_monotone((pt - n2) * w, (pt - n1) * w, pt + asset);
    lemma_div_monotone((pt - n1) * w, (pt - 0) * w, pt + asset);
    lemma_curve_monotone(
        proportion(pt, asset, n2),
        proportion(pt, asset, n1),
        scalar,
        anchor,
    );
    lemma_curve_monotone(
        proportion(pt, asset, n1),
        proportion(pt, asset, 0),
        scalar,
        anchor,
    );
}

/// Charging for less face at no lower a rate costs no more.
proof fn lemma_leg_order(config: Config, comp: Precompute, f1: int, r1: int, f2: int, r2: int)
    requires
        config.valid(),
        comp.valid(),
        0 <= f1 <= f2,
        0 < r2 <= r1,
        purchase_leg(config, comp, f1, r1) is Ok,
        purchase_leg(config, comp, f2, r2) is Ok,
    ensures
        0 <= purchase_leg(config, comp, f1, r1)->Ok_0 <= purchase_leg(config, comp, f2, r2)->Ok_0,
{
    let w: int = WAD as int;
    let bps: int = BPS_DENOMINATOR as int;
    let fee: int = config.fee_bps as int;
    lemma_scaled(f1, w, r1);
    lemma_scaled(f2, w, r2);
    let n1: int = scaled_up(f1, w, r1)->Ok_0 as int;
    let n2: int = scaled_up(f2, w, r2)->Ok_0 as int;
    assert(f1 * w <= f2 * w) by (nonlinear_arith)
        requires
            0 <= f1 <= f2,
            w > 0,
    ;
    lemma_div_antitone(f1 * w, r2, r1);
    lemma_div_monotone(f1 * w, f2 * w, r2);
    assert(n1 <= n2);
    lemma_scaled(n1, fee, bps);
    lemma_scaled(n2, fee, bps);
    assert(n1 * fee <= n2 * fee) by (nonlinear_arith)
        requires
            0 <= n1 <= n2,
            fee >= 0,
    ;
    lemma_div_monotone(n1 * fee, n2 * fee, bps);
    let g1: int = n1 + scaled_up(n1, fee, bps)->Ok_0;
    let g2: int = n2 + scaled_up(n2, fee, bps)->Ok_0;
    assert(0 <= g1 <= g2);
    lemma_scaled(g1, w, comp.sy_rate as int);
    lemma_scaled(g2, w, comp.sy_rate as int);
    assert(g1 * w <= g2 * w) by (nonlinear_arith)
        requires
            0 <= g1 <= g2,
            w > 0,
    ;
    lemma_div_monotone(g1 * w, g2 * w, comp.sy_rate as int);
}

/// A smaller purchase leaves a pool that prices wherever a larger one does.
proof fn lemma_representable_order(
    state: State,
    comp: Precompute,
    q1: int,
    c1: int,
    q2: int,
    c2: int,
)
    requires
        comp.valid(),
        state.seeded(),
        0 < q1 <= q2 < state.total_pt,
        0 <= c1 <= c2,
        anchored(state, comp),
        representable(comp, state.total_pt - q1, state.total_sy + c1) is Ok,
        representable(comp, state.total_pt - q2, state.total_sy + c2) == Ok::<bool, Error>(true),
    ensures
        representable(comp, state.total_pt - q1, state.total_sy + c1) == Ok::<bool, Error>(true),
{
    let w: int = WAD as int;
    let rate: int = comp.sy_rate as int;
    let s0: int = state.total_sy as int;
    let s1: int = s0 + c1;
    let s2: int = s0 + c2;
    let a1: int = state.total_pt - q1;
    let a2: int = state.total_pt - q2;
    lemma_scaled(s0, rate, w);
    lemma_scaled(s1, rate, w);
    lemma_scaled(s2, rate, w);
    assert(s0 * rate <= s1 * rate && s1 * rate <= s2 * rate) by (nonlinear_arith)
        requires
            0 <= s0 <= s1 <= s2,
            rate > 0,
    ;
    lemma_div_monotone(s0 * rate, s1 * rate, w);
    lemma_div_monotone(s1 * rate, s2 * rate, w);
    let b0: int = comp.total_asset as int;
    let b1: int = scaled_down(s1, rate, w)->Ok_0 as int;
    let b2: int = scaled_down(s2, rate, w)->Ok_0 as int;
    assert(0 < b0 <= b1 <= b2);
    lemma_proportion_order(a1, b1, a2, b2);
    lemma_proportion_order(state.total_pt as int, b0, a1, b1);
    let p1: int = proportion(a1, b1, 0);
    let p2: int = proportion(a2, b2, 0);
    let p0: int = proportion(state.total_pt as int, b0, 0);
    lemma_curve_monotone(p2, p1, comp.rate_scalar as int, comp.rate_anchor as int);
    lemma_curve_monotone(p1, p0, comp.rate_scalar as int, comp.rate_anchor as int);
    assert(0 <= (a1 - 0) * w <= (state.total_pt - 0) * w) by (nonlinear_arith)
        requires
            0 <= a1 <= state.total_pt,
            w > 0,
    ;
    lemma_floor((a2 - 0) * w, a2 + b2);
    assert(a2 + b2 <= w * a2) by (nonlinear_arith)
        requires
            p2 >= 1,
            (a2 + b2) * p2 <= a2 * w,
            a2 + b2 > 0,
    ;
    assert(b1 <= a1 * w);
    assert(fits(a1 + b1));
}

/// Whatever the pool can sell, it can sell less of for no more.
pub proof fn lemma_purchase_order(
    config: Config,
    state: State,
    comp: Precompute,
    q1: int,
    q2: int,
)
    requires
        config.valid(),
        state.seeded(),
        comp.valid(),
        anchored(state, comp),
        0 < q1 <= q2,
        purchase(config, state, comp, q1) is Ok,
        purchase(config, state, comp, q2) matches Ok(Some(_)),
    ensures
        purchase(config, state, comp, q1) matches Ok(Some(c1)) && c1 <= purchase(
            config,
            state,
            comp,
            q2,
        )->Ok_0->Some_0,
{
    let pt: int = state.total_pt as int;
    let asset: int = comp.total_asset as int;
    let scalar: int = comp.rate_scalar as int;
    let anchor: int = comp.rate_anchor as int;
    lemma_rate_order(pt, asset, scalar, anchor, q1, q2);
    let r1: int = exchange_rate_result(pt, asset, scalar, anchor, q1)->Ok_0 as int;
    let r2: int = exchange_rate_result(pt, asset, scalar, anchor, q2)->Ok_0 as int;
    lemma_leg_order(config, comp, q1, r1, q2, r2);
    let c1: int = purchase_leg(config, comp, q1, r1)->Ok_0 as int;
    let c2: int = purchase_leg(config, comp, q2, r2)->Ok_0 as int;
    lemma_representable_order(state, comp, q1, c1, q2, c2);
}

/// What the bisection rests on: `best` is affordable, everything just above
/// `high` is not, and the answer keeps both.
proof fn lemma_search(
    config: Config,
    state: State,
    comp: Precompute,
    budget: int,
    low: int,
    high: int,
    best: int,
)
    requires
        config.valid(),
        state.seeded(),
        comp.valid(),
        1 <= low <= high + 1,
        high < state.total_pt,
        best == low - 1,
        high + 1 < state.total_pt ==> purchase(config, state, comp, high + 1) is Ok && !affordable(
            config,
            state,
            comp,
            budget,
            high + 1,
        ),
        purchase_search(config, state, comp, budget, low, high, best) is Ok,
    ensures
        ({
            let found = purchase_search(config, state, comp, budget, low, high, best)->Ok_0;
            &&& low - 1 <= found <= high
            &&& found + 1 < state.total_pt ==> purchase(config, state, comp, found + 1) is Ok
                && !affordable(config, state, comp, budget, found + 1)
        }),
    decreases high - low + 1,
{
    if low <= high {
        let mid: int = low + (high - low) / 2;
        if affordable(config, state, comp, budget, mid) {
            lemma_search(config, state, comp, budget, mid + 1, high, mid);
        } else {
            lemma_search(config, state, comp, budget, low, mid - 1, best);
        }
    }
}

/// Whether curve inputs belong to a state: the SY reserve is valued at the SY
/// rate, and the reserves as they stand price on the curve.
pub open spec fn anchored(state: State, comp: Precompute) -> bool {
    &&& scaled_down(state.total_sy as int, comp.sy_rate as int, WAD as int) == Ok::<i128, Error>(
        comp.total_asset,
    )
    &&& exchange_rate_result(
        state.total_pt as int,
        comp.total_asset as int,
        comp.rate_scalar as int,
        comp.rate_anchor as int,
        0,
    ) is Ok
}

/// The size a search returns is one it found affordable.
proof fn lemma_search_affords(
    config: Config,
    state: State,
    comp: Precompute,
    budget: int,
    low: int,
    high: int,
    best: int,
)
    requires
        1 <= low,
        best < low,
        best <= 0 || affordable(config, state, comp, budget, best),
        purchase_search(config, state, comp, budget, low, high, best) is Ok,
    ensures
        ({
            let found = purchase_search(config, state, comp, budget, low, high, best)->Ok_0;
            found <= 0 || affordable(config, state, comp, budget, found)
        }),
    decreases high - low + 1,
{
    if low <= high {
        let mid: int = low + (high - low) / 2;
        if affordable(config, state, comp, budget, mid) {
            lemma_search_affords(config, state, comp, budget, mid + 1, high, mid);
        } else {
            lemma_search_affords(config, state, comp, budget, low, mid - 1, best);
        }
    }
}

/// The purchase a budget finds is one it affords.
pub proof fn law_budget_affords_its_purchase(
    config: Config,
    state: State,
    comp: Precompute,
    budget: int,
)
    requires
        purchase_for_budget(config, state, comp, budget) is Ok,
    ensures
        ({
            let found = purchase_for_budget(config, state, comp, budget)->Ok_0;
            &&& 0 < found < state.total_pt
            &&& affordable(config, state, comp, budget, found as int)
        }),
{
    lemma_search_affords(config, state, comp, budget, 1, state.total_pt - 1, 0);
}

/// The only thing that stops a search is a product out of range.
proof fn lemma_search_error(
    config: Config,
    state: State,
    comp: Precompute,
    budget: int,
    low: int,
    high: int,
    best: int,
)
    ensures
        purchase_search(config, state, comp, budget, low, high, best) matches Err(error) ==> error
            == Error::MathOverflow,
    decreases high - low + 1,
{
    if low <= high {
        let mid: int = low + (high - low) / 2;
        lemma_search_error(config, state, comp, budget, mid + 1, high, mid);
        lemma_search_error(config, state, comp, budget, low, mid - 1, best);
    }
}

/// A budget buys the largest purchase it can afford: no size above the one
/// found is affordable, as long as the pool's own reserves price on the curve.
/// Where some size is affordable a size is found, unless a product on the way
/// leaves the range.
pub proof fn law_budget_buys_the_most(
    config: Config,
    state: State,
    comp: Precompute,
    budget: int,
    pt_out: int,
)
    requires
        config.valid(),
        state.seeded(),
        comp.valid(),
        anchored(state, comp),
        affordable(config, state, comp, budget, pt_out),
    ensures
        match purchase_for_budget(config, state, comp, budget) {
            Ok(found) => pt_out <= found,
            Err(error) => error == Error::MathOverflow,
        },
{
    let search = purchase_search(config, state, comp, budget, 1, state.total_pt - 1, 0);
    if search is Ok {
        lemma_search(config, state, comp, budget, 1, state.total_pt - 1, 0);
        let found: int = search->Ok_0;
        if pt_out > found {
            lemma_purchase_order(config, state, comp, found + 1, pt_out);
        }
    } else {
        lemma_search_error(config, state, comp, budget, 1, state.total_pt - 1, 0);
    }
}

// ---------------------------------------------------------------------------
// Buying YT
// ---------------------------------------------------------------------------

/// Where a candidate YT size sits relative to a buyer's budget.
#[derive(Clone, Copy, Debug, PartialEq, Eq, Structural)]
pub enum YtBuyProbe {
    /// The split's face is too small for the curve leg to return anything the
    /// pool can account for, or the curve would fund the whole split.
    TooSmall,
    /// The buyer's net SY cost for this face.
    Affordable(i128),
    /// Over budget, or past what the pool can take.
    TooLarge,
}

/// Prices one candidate YT size: the pool splits enough shares to mint `face`,
/// sells itself the PT, and the buyer covers the difference.
pub open spec fn yt_probe(
    config: Config,
    state: State,
    comp: Precompute,
    face: int,
    budget: int,
) -> Result<YtBuyProbe, Error> {
    if face <= 0 {
        Ok(YtBuyProbe::TooSmall)
    } else {
        match exchange_rate_result(
            state.total_pt as int,
            comp.total_asset as int,
            comp.rate_scalar as int,
            comp.rate_anchor as int,
            -face,
        ) {
            Err(_) => Ok(YtBuyProbe::TooLarge),
            Ok(rate) => match sale_leg(config, comp, face, rate as int) {
                Err(error) => Err(error),
                Ok(paid) => if paid <= 0 {
                    Ok(YtBuyProbe::TooSmall)
                } else if paid >= state.total_sy {
                    Ok(YtBuyProbe::TooLarge)
                } else if !fits(state.total_pt + face) {
                    Err(Error::MathOverflow)
                } else {
                    match representable(comp, state.total_pt + face, state.total_sy - paid) {
                        Err(error) => Err(error),
                        Ok(false) => Ok(YtBuyProbe::TooLarge),
                        Ok(true) => match scaled_up(face, WAD as int, comp.sy_rate as int) {
                            Err(error) => Err(error),
                            Ok(needed) => if needed <= paid {
                                Ok(YtBuyProbe::TooSmall)
                            } else if needed - paid > budget {
                                Ok(YtBuyProbe::TooLarge)
                            } else {
                                Ok(YtBuyProbe::Affordable((needed - paid) as i128))
                            },
                        },
                    }
                },
            },
        }
    }
}

/// Bisection over the YT sizes `low..=high`, with `best` the last size afforded
/// and `cost` its cost.
pub open spec fn yt_search(
    config: Config,
    state: State,
    comp: Precompute,
    budget: int,
    low: int,
    high: int,
    best: int,
    cost: int,
) -> Result<(int, int), Error>
    decreases high - low + 1,
{
    if low > high {
        Ok((best, cost))
    } else {
        let mid = low + (high - low) / 2;
        match yt_probe(config, state, comp, mid, budget) {
            Err(error) => Err(error),
            Ok(YtBuyProbe::Affordable(price)) => yt_search(
                config,
                state,
                comp,
                budget,
                mid + 1,
                high,
                mid,
                price as int,
            ),
            Ok(YtBuyProbe::TooSmall) => yt_search(
                config,
                state,
                comp,
                budget,
                mid + 1,
                high,
                best,
                cost,
            ),
            Ok(YtBuyProbe::TooLarge) => yt_search(
                config,
                state,
                comp,
                budget,
                low,
                mid - 1,
                best,
                cost,
            ),
        }
    }
}

/// The largest face any split could mint from the budget and the whole SY
/// reserve together, capped at the reserve bound.
pub open spec fn yt_ceiling(state: State, comp: Precompute, budget: int) -> Result<i128, Error> {
    if !fits(budget + state.total_sy) {
        Err(Error::MathOverflow)
    } else {
        match scaled_down(budget + state.total_sy, comp.sy_rate as int, WAD as int) {
            Err(error) => Err(error),
            Ok(face) => Ok(min_of(face as int, MAX_RESERVE_UNITS as int) as i128),
        }
    }
}

/// The YT face a budget buys, and the SY shares that takes.
pub open spec fn yt_for_budget(
    config: Config,
    state: State,
    comp: Precompute,
    budget: int,
) -> Result<(i128, i128), Error> {
    match yt_ceiling(state, comp, budget) {
        Err(error) => Err(error),
        Ok(high) => match yt_search(config, state, comp, budget, 1, high as int, 0, 0) {
            Err(error) => Err(error),
            Ok(found) => if found.0 <= 0 {
                Err(Error::TradeNotFound)
            } else {
                Ok((found.0 as i128, found.1 as i128))
            },
        },
    }
}

pub fn probe_yt_buy(
    config: &Config,
    state: &State,
    comp: &Precompute,
    face: i128,
    sy_in: i128,
) -> (result: Result<YtBuyProbe, Error>)
    requires
        config.valid(),
        state.seeded(),
        comp.valid(),
    ensures
        result == yt_probe(*config, *state, *comp, face as int, sy_in as int),
{
    if face <= 0 {
        return Ok(YtBuyProbe::TooSmall);
    }
    let exchange_rate: i128 = match try_get_exchange_rate(
        state.total_pt,
        comp.total_asset,
        comp.rate_scalar,
        comp.rate_anchor,
        -face,
    ) {
        Some(rate) => rate,
        None => {
            return Ok(YtBuyProbe::TooLarge);
        },
    };
    let sy_paid: i128 = price_sale_leg(config, comp, face, exchange_rate)?;
    if sy_paid <= 0 {
        return Ok(YtBuyProbe::TooSmall);
    }
    if sy_paid >= state.total_sy {
        return Ok(YtBuyProbe::TooLarge);
    }
    let post_pt: i128 = checked_add(state.total_pt, face)?;
    if !post_trade_rate_is_representable(comp, post_pt, state.total_sy - sy_paid)? {
        return Ok(YtBuyProbe::TooLarge);
    }
    let shares_needed: i128 = shares_in_for_face_up(face, comp.sy_rate)?;
    if shares_needed <= sy_paid {
        return Ok(YtBuyProbe::TooSmall);
    }
    let cost: i128 = shares_needed - sy_paid;
    if cost > sy_in {
        Ok(YtBuyProbe::TooLarge)
    } else {
        Ok(YtBuyProbe::Affordable(cost))
    }
}

pub fn solve_yt_out_for_sy_in(config: &Config, state: &State, comp: &Precompute, sy_in: i128) -> (result: Result<
    (i128, i128),
    Error,
>)
    requires
        config.valid(),
        state.seeded(),
        comp.valid(),
    ensures
        result == yt_for_budget(*config, *state, *comp, sy_in as int),
        result matches Ok(found) ==> 0 < found.0 <= MAX_RESERVE_UNITS && 0 < found.1 <= sy_in
            && yt_probe(*config, *state, *comp, found.0 as int, sy_in as int) == Ok::<
            YtBuyProbe,
            Error,
        >(YtBuyProbe::Affordable(found.1)),
{
    let max_shares: i128 = checked_add(sy_in, state.total_sy)?;
    let max_face: i128 = mul_div_down(max_shares, comp.sy_rate, WAD)?;
    let mut low: i128 = 1;
    let mut high: i128 = if max_face <= MAX_RESERVE_UNITS {
        max_face
    } else {
        MAX_RESERVE_UNITS
    };
    let mut best: i128 = 0;
    let mut best_cost: i128 = 0;
    let ghost ceiling: int = high as int;
    while low <= high
        invariant
            config.valid(),
            state.seeded(),
            comp.valid(),
            1 <= low,
            high <= ceiling <= MAX_RESERVE_UNITS,
            fits(ceiling),
            yt_ceiling(*state, *comp, sy_in as int) == Ok::<i128, Error>(ceiling as i128),
            best >= 0,
            best > 0 ==> best <= MAX_RESERVE_UNITS && 0 < best_cost <= sy_in && yt_probe(
                *config,
                *state,
                *comp,
                best as int,
                sy_in as int,
            ) == Ok::<YtBuyProbe, Error>(YtBuyProbe::Affordable(best_cost)),
            yt_search(*config, *state, *comp, sy_in as int, 1, ceiling, 0, 0) == yt_search(
                *config,
                *state,
                *comp,
                sy_in as int,
                low as int,
                high as int,
                best as int,
                best_cost as int,
            ),
        decreases high - low + 1,
    {
        let mid: i128 = low + (high - low) / 2;
        match probe_yt_buy(config, state, comp, mid, sy_in)? {
            YtBuyProbe::Affordable(cost) => {
                best = mid;
                best_cost = cost;
                low = mid + 1;
            },
            YtBuyProbe::TooSmall => {
                low = mid + 1;
            },
            YtBuyProbe::TooLarge => {
                high = mid - 1;
            },
        }
    }
    if best <= 0 {
        return Err(Error::TradeNotFound);
    }
    Ok((best, best_cost))
}

/// The buy solver and the sale it executes price one leg: what an affordable
/// size costs is exactly what the split needs beyond the sale's proceeds.
pub proof fn law_yt_quote_is_execution(
    config: Config,
    state: State,
    comp: Precompute,
    face: int,
    budget: int,
)
    requires
        yt_probe(config, state, comp, face, budget) matches Ok(YtBuyProbe::Affordable(_)),
    ensures
        ({
            let cost = yt_probe(config, state, comp, face, budget)->Ok_0->Affordable_0;
            &&& 0 < cost <= budget
            &&& sale(config, state, comp, face) is Ok
            &&& scaled_up(face, WAD as int, comp.sy_rate as int) is Ok
            &&& scaled_up(face, WAD as int, comp.sy_rate as int)->Ok_0 == cost + sale(
                config,
                state,
                comp,
                face,
            )->Ok_0
        }),
{
}

/// Where the YT bisection stops: every size it stepped down from was too large,
/// and every size it stepped up from was affordable or too small.
#[verifier::spinoff_prover]
#[verifier::rlimit(60)]
proof fn lemma_yt_search(
    config: Config,
    state: State,
    comp: Precompute,
    budget: int,
    low: int,
    high: int,
    best: int,
    cost: int,
    ceiling: int,
) -> (stop: int)
    requires
        1 <= low <= high + 1,
        high <= ceiling,
        high < ceiling ==> yt_probe(config, state, comp, high + 1, budget) == Ok::<
            YtBuyProbe,
            Error,
        >(YtBuyProbe::TooLarge),
        0 <= best < low,
        low == 1 || best == low - 1 || yt_probe(config, state, comp, low - 1, budget) == Ok::<
            YtBuyProbe,
            Error,
        >(YtBuyProbe::TooSmall),
        yt_search(config, state, comp, budget, low, high, best, cost) is Ok,
    ensures
        ({
            let found = yt_search(config, state, comp, budget, low, high, best, cost)->Ok_0.0;
            &&& found <= stop <= ceiling
            &&& stop < ceiling ==> yt_probe(config, state, comp, stop + 1, budget) == Ok::<
                YtBuyProbe,
                Error,
            >(YtBuyProbe::TooLarge)
            &&& stop == 0 || stop == found || yt_probe(config, state, comp, stop, budget) == Ok::<
                YtBuyProbe,
                Error,
            >(YtBuyProbe::TooSmall)
        }),
    decreases high - low + 1,
{
    if low > high {
        high
    } else {
        let mid: int = low + (high - low) / 2;
        match yt_probe(config, state, comp, mid, budget) {
            Ok(YtBuyProbe::Affordable(price)) => lemma_yt_search(
                config,
                state,
                comp,
                budget,
                mid + 1,
                high,
                mid,
                price as int,
                ceiling,
            ),
            Ok(YtBuyProbe::TooSmall) => lemma_yt_search(
                config,
                state,
                comp,
                budget,
                mid + 1,
                high,
                best,
                cost,
                ceiling,
            ),
            _ => lemma_yt_search(
                config,
                state,
                comp,
                budget,
                low,
                mid - 1,
                best,
                cost,
                ceiling,
            ),
        }
    }
}

/// A YT budget is searched to the edge: at the size where the search stops, the
/// next one up is too large (or past the ceiling), and the stopping size is the
/// one returned unless it is itself too small.
pub proof fn law_yt_budget_is_searched_to_the_edge(
    config: Config,
    state: State,
    comp: Precompute,
    budget: int,
) -> (stop: int)
    requires
        yt_for_budget(config, state, comp, budget) is Ok,
    ensures
        ({
            let found = yt_for_budget(config, state, comp, budget)->Ok_0.0;
            let ceiling = yt_ceiling(state, comp, budget)->Ok_0;
            &&& found <= stop <= ceiling
            &&& stop == ceiling || yt_probe(config, state, comp, stop + 1, budget) == Ok::<
                YtBuyProbe,
                Error,
            >(YtBuyProbe::TooLarge)
            &&& stop == found || yt_probe(config, state, comp, stop, budget) == Ok::<
                YtBuyProbe,
                Error,
            >(YtBuyProbe::TooSmall)
        }),
{
    let ceiling: int = yt_ceiling(state, comp, budget)->Ok_0 as int;
    lemma_yt_search(config, state, comp, budget, 1, ceiling, 0, 0, ceiling)
}

/// The size a YT search returns is one it found affordable, at the cost returned.
proof fn lemma_yt_search_affords(
    config: Config,
    state: State,
    comp: Precompute,
    budget: int,
    low: int,
    high: int,
    best: int,
    cost: int,
)
    requires
        1 <= low,
        fits(cost),
        best <= 0 || yt_probe(config, state, comp, best, budget) == Ok::<YtBuyProbe, Error>(
            YtBuyProbe::Affordable(cost as i128),
        ),
        yt_search(config, state, comp, budget, low, high, best, cost) is Ok,
    ensures
        ({
            let found = yt_search(config, state, comp, budget, low, high, best, cost)->Ok_0;
            &&& found.0 <= high || found.0 == best
            &&& fits(found.1)
            &&& found.0 <= 0 || yt_probe(config, state, comp, found.0, budget) == Ok::<
                YtBuyProbe,
                Error,
            >(YtBuyProbe::Affordable(found.1 as i128))
        }),
    decreases high - low + 1,
{
    if low <= high {
        let mid: int = low + (high - low) / 2;
        match yt_probe(config, state, comp, mid, budget) {
            Ok(YtBuyProbe::Affordable(price)) => lemma_yt_search_affords(
                config,
                state,
                comp,
                budget,
                mid + 1,
                high,
                mid,
                price as int,
            ),
            Ok(YtBuyProbe::TooSmall) => lemma_yt_search_affords(
                config,
                state,
                comp,
                budget,
                mid + 1,
                high,
                best,
                cost,
            ),
            _ => lemma_yt_search_affords(
                config,
                state,
                comp,
                budget,
                low,
                mid - 1,
                best,
                cost,
            ),
        }
    }
}

/// The YT that a budget finds is a size it affords, at the cost found.
pub proof fn law_budget_affords_its_yt(
    config: Config,
    state: State,
    comp: Precompute,
    budget: int,
)
    requires
        yt_for_budget(config, state, comp, budget) is Ok,
    ensures
        ({
            let (found, cost) = yt_for_budget(config, state, comp, budget)->Ok_0;
            &&& 0 < found <= yt_ceiling(state, comp, budget)->Ok_0 <= MAX_RESERVE_UNITS
            &&& 0 < cost <= budget
            &&& yt_probe(config, state, comp, found as int, budget) == Ok::<YtBuyProbe, Error>(
                YtBuyProbe::Affordable(cost),
            )
        }),
{
    let ceiling: int = yt_ceiling(state, comp, budget)->Ok_0 as int;
    lemma_yt_search_affords(config, state, comp, budget, 1, ceiling, 0, 0);
}

/// What the buyer of `face` YT covers: the shares the split takes beyond what the
/// pool pays for the PT.
pub open spec fn yt_cost(config: Config, state: State, comp: Precompute, face: int) -> int {
    scaled_up(face, WAD as int, comp.sy_rate as int)->Ok_0 - sale(config, state, comp, face)->Ok_0
}

/// A larger sale's proceeds, before they become shares, grow by no more than the
/// face does.
proof fn lemma_proceeds_order(face: int, more: int, r1: int, r2: int, fee_bps: int)
    requires
        0 < face <= more,
        WAD <= r1 <= r2,
        0 <= fee_bps < BPS_DENOMINATOR,
    ensures
        ({
            let g1 = face * WAD / r1;
            let g2 = more * WAD / r2;
            &&& 0 <= g1 && 0 <= g2
            &&& (g2 - ceil_div(g2 * fee_bps, 10_000)) - (g1 - ceil_div(g1 * fee_bps, 10_000)) <= more
                - face
        }),
{
    let w: int = WAD as int;
    let d: int = more - face;
    assert(0 <= face * w && 0 <= more * w) by (nonlinear_arith)
        requires
            0 < face <= more,
            w > 0,
    ;
    lemma_div_antitone(more * w, r1, r2);
    lemma_floor(face * w, r1);
    lemma_floor(more * w, r1);
    lemma_floor(more * w, r2);
    let g1: int = face * w / r1;
    let g: int = more * w / r1;
    let g2: int = more * w / r2;
    assert(g <= g1 + d) by (nonlinear_arith)
        requires
            r1 * g <= more * w,
            face * w < r1 * g1 + r1,
            more == face + d,
            d >= 0,
            0 < w <= r1,
    ;
    let n1: int = g1 * fee_bps;
    let n2: int = g2 * fee_bps;
    let c1: int = ceil_div(n1, 10_000);
    let c2: int = ceil_div(n2, 10_000);
    lemma_ceil(n1, 10_000);
    lemma_ceil(n2, 10_000);
    if g1 <= g2 {
        assert(n1 <= n2) by (nonlinear_arith)
            requires
                n1 == g1 * fee_bps,
                n2 == g2 * fee_bps,
                g1 <= g2,
                fee_bps >= 0,
        ;
        lemma_div_monotone(n1, n2, 10_000);
    } else {
        let gap: int = g1 - g2;
        assert(n1 - n2 == gap * fee_bps) by (nonlinear_arith)
            requires
                n1 == g1 * fee_bps,
                n2 == g2 * fee_bps,
                gap == g1 - g2,
        ;
        assert(n1 - n2 <= 10_000 * gap) by (nonlinear_arith)
            requires
                n1 - n2 == gap * fee_bps,
                gap >= 0,
                fee_bps <= 10_000,
        ;
    }
}

/// More YT never costs less, to the one share that rounding may give back.
pub proof fn law_more_yt_costs_no_less(
    config: Config,
    state: State,
    comp: Precompute,
    face: int,
    more: int,
)
    requires
        config.valid(),
        state.seeded(),
        comp.valid(),
        0 < face <= more,
        sale(config, state, comp, face) is Ok,
        sale(config, state, comp, more) is Ok,
        scaled_up(face, WAD as int, comp.sy_rate as int) is Ok,
        scaled_up(more, WAD as int, comp.sy_rate as int) is Ok,
    ensures
        yt_cost(config, state, comp, more) >= yt_cost(config, state, comp, face) - 1,
{
    let w: int = WAD as int;
    let s: int = comp.sy_rate as int;
    let pt: int = state.total_pt as int;
    let asset: int = comp.total_asset as int;
    let scalar: int = comp.rate_scalar as int;
    let anchor: int = comp.rate_anchor as int;
    let fee: int = config.fee_bps as int;
    let bps: int = BPS_DENOMINATOR as int;
    let r1: int = exchange_rate_result(pt, asset, scalar, anchor, -face)->Ok_0 as int;
    let r2: int = exchange_rate_result(pt, asset, scalar, anchor, -more)->Ok_0 as int;
    assert((pt - (-face)) * w <= (pt - (-more)) * w) by (nonlinear_arith)
        requires
            face <= more,
            w > 0,
    ;
    lemma_div_monotone((pt - (-face)) * w, (pt - (-more)) * w, pt + asset);
    lemma_curve_monotone(
        proportion(pt, asset, -face),
        proportion(pt, asset, -more),
        scalar,
        anchor,
    );
    lemma_proceeds_order(face, more, r1, r2, fee);
    lemma_scaled(face, w, r1);
    lemma_scaled(more, w, r2);
    let g1: int = face * w / r1;
    let g2: int = more * w / r2;
    lemma_scaled(g1, fee, bps);
    lemma_scaled(g2, fee, bps);
    lemma_fee(g1, fee);
    lemma_fee(g2, fee);
    let n1: int = g1 - ceil_div(g1 * fee, 10_000);
    let n2: int = g2 - ceil_div(g2 * fee, 10_000);
    lemma_scaled(n1, w, s);
    lemma_scaled(n2, w, s);
    lemma_floor(n1 * w, s);
    lemma_floor(n2 * w, s);
    lemma_scaled(face, w, s);
    lemma_scaled(more, w, s);
    lemma_ceil(face * w, s);
    lemma_ceil(more * w, s);
    let q1: int = ceil_div(face * w, s);
    let q2: int = ceil_div(more * w, s);
    let p1: int = n1 * w / s;
    let p2: int = n2 * w / s;
    assert(q2 - p2 >= q1 - p1 - 1) by (nonlinear_arith)
        requires
            more * w <= s * q2,
            s * q1 - s < face * w,
            s * p2 <= n2 * w,
            n1 * w < s * p1 + s,
            n2 - n1 <= more - face,
            w > 0,
            s > 0,
    ;
}

/// The sizes a budget affords are an interval, but for that share: beyond a size
/// that is over budget, one that is within it takes the whole budget.
pub proof fn law_yt_beyond_the_budget_takes_all_of_it(
    config: Config,
    state: State,
    comp: Precompute,
    budget: int,
    over: int,
    face: int,
)
    requires
        config.valid(),
        state.seeded(),
        comp.valid(),
        0 < over <= face,
        sale(config, state, comp, over) is Ok,
        yt_probe(config, state, comp, over, budget) == Ok::<YtBuyProbe, Error>(YtBuyProbe::TooLarge),
        yt_probe(config, state, comp, face, budget) matches Ok(YtBuyProbe::Affordable(_)),
    ensures
        yt_probe(config, state, comp, face, budget)->Ok_0->Affordable_0 == budget,
{
    law_yt_quote_is_execution(config, state, comp, face, budget);
    law_more_yt_costs_no_less(config, state, comp, over, face);
}

/// Selling PT never pays more shares than the PT's face is worth, and pays fewer
/// where the market charges a fee: PT cannot be minted and sold at a profit.
pub proof fn law_sale_pays_at_most_face(
    config: Config,
    state: State,
    comp: Precompute,
    pt_in: int,
)
    requires
        config.valid(),
        comp.valid(),
        pt_in > 0,
        sale(config, state, comp, pt_in) is Ok,
    ensures
        sale(config, state, comp, pt_in)->Ok_0 * comp.sy_rate <= pt_in * WAD,
        config.fee_bps > 0 ==> sale(config, state, comp, pt_in)->Ok_0 * comp.sy_rate < pt_in * WAD,
{
    let w: int = WAD as int;
    let rate: int = exchange_rate_result(
        state.total_pt as int,
        comp.total_asset as int,
        comp.rate_scalar as int,
        comp.rate_anchor as int,
        -pt_in,
    )->Ok_0 as int;
    lemma_scaled(pt_in, w, rate);
    let gross: int = scaled_down(pt_in, w, rate)->Ok_0 as int;
    lemma_floor(pt_in * w, rate);
    assert(gross <= pt_in) by (nonlinear_arith)
        requires
            rate >= w,
            w > 0,
            gross >= 0,
            rate * gross <= pt_in * w,
    ;
    lemma_fee(gross, config.fee_bps as int);
    let fee: int = scaled_up(gross, config.fee_bps as int, BPS_DENOMINATOR as int)->Ok_0 as int;
    lemma_scaled(gross - fee, w, comp.sy_rate as int);
    lemma_floor((gross - fee) * w, comp.sy_rate as int);
    assert((gross - fee) * w <= pt_in * w) by (nonlinear_arith)
        requires
            gross - fee <= pt_in,
            w > 0,
    ;
    if config.fee_bps > 0 {
        let n: int = gross * config.fee_bps;
        lemma_scaled(gross, config.fee_bps as int, BPS_DENOMINATOR as int);
        lemma_ceil(n, 10_000);
        assert(gross > 0) by {
            if gross == 0 {
                assert((gross - fee) * w == 0) by (nonlinear_arith)
                    requires
                        gross - fee == 0,
                ;
            }
        }
        assert(n > 0) by (nonlinear_arith)
            requires
                n == gross * config.fee_bps,
                gross > 0,
                config.fee_bps > 0,
        ;
        assert((gross - fee) * w < pt_in * w) by (nonlinear_arith)
            requires
                gross - fee < pt_in,
                w > 0,
        ;
    }
}

/// Whether the curve prices a sale of `face` PT, but at less than a share.
pub open spec fn sells_for_nothing(config: Config, state: State, comp: Precompute, face: int) -> bool {
    exchange_rate_result(
        state.total_pt as int,
        comp.total_asset as int,
        comp.rate_scalar as int,
        comp.rate_anchor as int,
        -face,
    ) matches Ok(rate) && (sale_leg(config, comp, face, rate as int) matches Ok(paid) && paid <= 0)
}

/// No size past the face of all shares within reach is affordable.
proof fn lemma_past_the_ceiling(
    config: Config,
    state: State,
    comp: Precompute,
    budget: int,
    face: int,
)
    requires
        comp.valid(),
        state.total_sy > 0,
        yt_ceiling(state, comp, budget) matches Ok(ceiling) && ceiling < face && ceiling
            < MAX_RESERVE_UNITS,
    ensures
        !(yt_probe(config, state, comp, face, budget) matches Ok(YtBuyProbe::Affordable(_))),
{
    if yt_probe(config, state, comp, face, budget) matches Ok(YtBuyProbe::Affordable(_)) {
        let w: int = WAD as int;
        let r: int = comp.sy_rate as int;
        let shares: int = budget + state.total_sy;
        let needed: int = scaled_up(face, w, r)->Ok_0 as int;
        lemma_scaled(face, w, r);
        lemma_ceil(face * w, r);
        lemma_scaled(shares, r, w);
        lemma_floor(shares * r, w);
        let ceiling: int = shares * r / w;
        assert(needed < shares);
        assert(false) by (nonlinear_arith)
            requires
                face >= ceiling + 1,
                shares * r < w * ceiling + w,
                face * w <= r * needed,
                needed < shares,
                r > 0,
                w > 0,
        ;
    }
}

/// A size above an affordable one is too small only where it sells for nothing,
/// or where a market without a fee charged a single share.
proof fn lemma_funded_by_the_curve(
    config: Config,
    state: State,
    comp: Precompute,
    budget: int,
    face: int,
    more: int,
)
    requires
        config.valid(),
        state.seeded(),
        comp.valid(),
        0 < face < more,
        yt_probe(config, state, comp, face, budget) matches Ok(YtBuyProbe::Affordable(_)),
        yt_probe(config, state, comp, more, budget) == Ok::<YtBuyProbe, Error>(YtBuyProbe::TooSmall),
        !sells_for_nothing(config, state, comp, more),
    ensures
        config.fee_bps == 0,
        yt_probe(config, state, comp, face, budget)->Ok_0->Affordable_0 == 1,
{
    law_yt_quote_is_execution(config, state, comp, face, budget);
    law_more_yt_costs_no_less(config, state, comp, face, more);
    lemma_fee_costs(config, state, comp, more);
}

/// A YT budget buys the most it can: one more unit of YT does not fit it, but for
/// three ways the search can miss one. The size found may be the most any trade
/// can name; a market without a fee may have charged a single share; or the pool
/// may pay less than a share for some larger size.
pub proof fn law_one_more_yt_does_not_fit(
    config: Config,
    state: State,
    comp: Precompute,
    budget: int,
)
    requires
        config.valid(),
        state.seeded(),
        comp.valid(),
        yt_for_budget(config, state, comp, budget) is Ok,
    ensures
        ({
            let (found, cost) = yt_for_budget(config, state, comp, budget)->Ok_0;
            let ceiling = yt_ceiling(state, comp, budget)->Ok_0;
            yt_probe(config, state, comp, found + 1, budget) matches Ok(YtBuyProbe::Affordable(_))
                ==> {
                ||| found == MAX_RESERVE_UNITS
                ||| cost == 1 && config.fee_bps == 0
                ||| exists|size: int|
                    found + 1 < size <= ceiling && #[trigger] sells_for_nothing(
                        config,
                        state,
                        comp,
                        size,
                    )
            }
        }),
{
    let found: int = yt_for_budget(config, state, comp, budget)->Ok_0.0 as int;
    let cost: int = yt_for_budget(config, state, comp, budget)->Ok_0.1 as int;
    let ceiling: int = yt_ceiling(state, comp, budget)->Ok_0 as int;
    law_budget_affords_its_yt(config, state, comp, budget);
    let stop: int = law_yt_budget_is_searched_to_the_edge(config, state, comp, budget);
    if yt_probe(config, state, comp, found + 1, budget) matches Ok(YtBuyProbe::Affordable(_)) {
        if stop == found {
            if ceiling < MAX_RESERVE_UNITS {
                lemma_past_the_ceiling(config, state, comp, budget, ceiling + 1);
            }
        } else if !sells_for_nothing(config, state, comp, stop) {
            lemma_funded_by_the_curve(config, state, comp, budget, found, stop);
        }
    }
}

/// The highest rate the curve has: that of the largest share PT may make up.
pub open spec fn worst_rate(comp: Precompute) -> int {
    curve_rate(
        MAX_MARKET_PROPORTION as int,
        comp.rate_scalar as int,
        comp.rate_anchor as int,
    )
}

/// Selling more, at no higher a rate, pays no less.
proof fn lemma_sale_leg_order(config: Config, comp: Precompute, f1: int, r1: int, f2: int, r2: int)
    requires
        config.valid(),
        comp.valid(),
        0 <= f1 <= f2,
        0 < r2 <= r1,
        sale_leg(config, comp, f1, r1) is Ok,
        sale_leg(config, comp, f2, r2) is Ok,
    ensures
        sale_leg(config, comp, f1, r1)->Ok_0 <= sale_leg(config, comp, f2, r2)->Ok_0,
{
    let w: int = WAD as int;
    let bps: int = BPS_DENOMINATOR as int;
    let fee: int = config.fee_bps as int;
    let s: int = comp.sy_rate as int;
    lemma_scaled(f1, w, r1);
    lemma_scaled(f2, w, r2);
    assert(f1 * w <= f2 * w) by (nonlinear_arith)
        requires
            f1 <= f2,
            w > 0,
    ;
    lemma_div_antitone(f1 * w, r2, r1);
    lemma_div_monotone(f1 * w, f2 * w, r2);
    let g1: int = f1 * w / r1;
    let g2: int = f2 * w / r2;
    lemma_scaled(g1, fee, bps);
    lemma_scaled(g2, fee, bps);
    lemma_fee(g1, fee);
    lemma_fee(g2, fee);
    lemma_ceil(g1 * fee, bps);
    lemma_ceil(g2 * fee, bps);
    let c1: int = ceil_div(g1 * fee, bps);
    let c2: int = ceil_div(g2 * fee, bps);
    let n1: int = g1 - c1;
    let n2: int = g2 - c2;
    let gap: int = g2 - g1;
    assert(g2 * fee - g1 * fee <= gap * bps) by (nonlinear_arith)
        requires
            gap == g2 - g1,
            gap >= 0,
            fee <= bps,
    ;
    assert(n1 <= n2);
    lemma_scaled(n1, w, s);
    lemma_scaled(n2, w, s);
    assert(n1 * w <= n2 * w) by (nonlinear_arith)
        requires
            n1 <= n2,
            w > 0,
    ;
    lemma_div_monotone(n1 * w, n2 * w, s);
}

/// Where a size pays a share even at the worst rate the curve has, so does every
/// larger one.
pub proof fn law_larger_sales_pay(
    config: Config,
    state: State,
    comp: Precompute,
    face: int,
    more: int,
)
    requires
        config.valid(),
        state.seeded(),
        comp.valid(),
        0 < face <= more,
        sale_leg(config, comp, face, worst_rate(comp)) matches Ok(paid) && paid > 0,
    ensures
        !sells_for_nothing(config, state, comp, more),
{
    if sells_for_nothing(config, state, comp, more) {
        let pt: int = state.total_pt as int;
        let asset: int = comp.total_asset as int;
        let scalar: int = comp.rate_scalar as int;
        let anchor: int = comp.rate_anchor as int;
        let rate: int = exchange_rate_result(pt, asset, scalar, anchor, -more)->Ok_0 as int;
        let worst: int = MAX_MARKET_PROPORTION as int;
        lemma_curve_monotone(proportion(pt, asset, -more), worst, scalar, anchor);
        lemma_sale_leg_order(config, comp, face, worst_rate(comp), more, rate);
    }
}

/// Where the size found would pay a share at the worst rate the curve has, and
/// costs more than one (or the market charges a fee), the search stops at it: it
/// is the ceiling, or the next size up is too large.
proof fn lemma_stops_at_found(config: Config, state: State, comp: Precompute, budget: int)
    requires
        config.valid(),
        state.seeded(),
        comp.valid(),
        yt_for_budget(config, state, comp, budget) matches Ok((found, cost)) && {
            &&& cost > 1 || config.fee_bps > 0
            &&& sale_leg(config, comp, found as int, worst_rate(comp)) matches Ok(paid) && paid > 0
        },
    ensures
        ({
            let (found, cost) = yt_for_budget(config, state, comp, budget)->Ok_0;
            &&& yt_probe(config, state, comp, found as int, budget) == Ok::<YtBuyProbe, Error>(
                YtBuyProbe::Affordable(cost),
            )
            &&& found == yt_ceiling(state, comp, budget)->Ok_0 || yt_probe(
                config,
                state,
                comp,
                found + 1,
                budget,
            ) == Ok::<YtBuyProbe, Error>(YtBuyProbe::TooLarge)
        }),
{
    let found: int = yt_for_budget(config, state, comp, budget)->Ok_0.0 as int;
    law_budget_affords_its_yt(config, state, comp, budget);
    let stop: int = law_yt_budget_is_searched_to_the_edge(config, state, comp, budget);
    if stop != found {
        law_larger_sales_pay(config, state, comp, found, stop);
        lemma_funded_by_the_curve(config, state, comp, budget, found, stop);
    }
}

/// The largest affordable YT: where the size found would pay a share at the worst
/// rate the curve has, and costs more than one (or the market charges a fee), one
/// more unit does not fit the budget.
pub proof fn law_yt_budget_buys_the_most(
    config: Config,
    state: State,
    comp: Precompute,
    budget: int,
)
    requires
        config.valid(),
        state.seeded(),
        comp.valid(),
        yt_for_budget(config, state, comp, budget) matches Ok((found, cost)) && {
            &&& found < MAX_RESERVE_UNITS
            &&& cost > 1 || config.fee_bps > 0
            &&& sale_leg(config, comp, found as int, worst_rate(comp)) matches Ok(paid) && paid > 0
        },
    ensures
        ({
            let (found, cost) = yt_for_budget(config, state, comp, budget)->Ok_0;
            &&& yt_probe(config, state, comp, found as int, budget) == Ok::<YtBuyProbe, Error>(
                YtBuyProbe::Affordable(cost),
            )
            &&& !(yt_probe(config, state, comp, found + 1, budget) matches Ok(
                YtBuyProbe::Affordable(_),
            ))
        }),
{
    let found: int = yt_for_budget(config, state, comp, budget)->Ok_0.0 as int;
    lemma_stops_at_found(config, state, comp, budget);
    if found == yt_ceiling(state, comp, budget)->Ok_0 {
        lemma_past_the_ceiling(config, state, comp, budget, found + 1);
    }
}

/// Selling less PT to a pool that prices a larger sale prices too, at no higher a
/// rate.
proof fn lemma_smaller_sale_prices(state: State, comp: Precompute, face: int, more: int)
    requires
        state.seeded(),
        comp.valid(),
        anchored(state, comp),
        0 <= face <= more,
        exchange_rate_result(
            state.total_pt as int,
            comp.total_asset as int,
            comp.rate_scalar as int,
            comp.rate_anchor as int,
            -more,
        ) is Ok,
    ensures
        exchange_rate_result(
            state.total_pt as int,
            comp.total_asset as int,
            comp.rate_scalar as int,
            comp.rate_anchor as int,
            -face,
        ) is Ok,
{
    let w: int = WAD as int;
    let pt: int = state.total_pt as int;
    let asset: int = comp.total_asset as int;
    let scalar: int = comp.rate_scalar as int;
    let anchor: int = comp.rate_anchor as int;
    assert(0 <= (pt - 0) * w <= (pt - (-face)) * w && (pt - (-face)) * w <= (pt - (-more)) * w)
        by (nonlinear_arith)
        requires
            0 <= face <= more,
            pt > 0,
            w > 0,
    ;
    lemma_div_monotone((pt - 0) * w, (pt - (-face)) * w, pt + asset);
    lemma_div_monotone((pt - (-face)) * w, (pt - (-more)) * w, pt + asset);
    lemma_curve_monotone(proportion(pt, asset, 0), proportion(pt, asset, -face), scalar, anchor);
    lemma_curve_monotone(
        proportion(pt, asset, -face),
        proportion(pt, asset, -more),
        scalar,
        anchor,
    );
}

/// Selling a size that a trade may name overflows nothing, and pays no more than
/// the face is worth.
proof fn lemma_sale_leg_fits(config: Config, comp: Precompute, face: int, rate: int)
    requires
        config.valid(),
        comp.valid(),
        0 < face <= MAX_RESERVE_UNITS,
        rate >= WAD,
    ensures
        sale_leg(config, comp, face, rate) matches Ok(paid) && {
            &&& paid >= 0
            &&& exists|net: int|
                0 <= net <= face && paid == #[trigger] (net * WAD) / (comp.sy_rate as int)
        },
        scaled_up(face, WAD as int, comp.sy_rate as int) is Ok,
{
    let w: int = WAD as int;
    let fee: int = config.fee_bps as int;
    let bps: int = BPS_DENOMINATOR as int;
    let s: int = comp.sy_rate as int;
    lemma_scaled(face, w, rate);
    lemma_floor(face * w, rate);
    let gross: int = face * w / rate;
    assert(face * w <= w * w && gross <= face) by (nonlinear_arith)
        requires
            0 < face <= w,
            w > 0,
            rate >= w,
            gross >= 0,
            rate * gross <= face * w,
    ;
    lemma_scaled(gross, fee, bps);
    assert(gross * fee <= w * 10_000) by (nonlinear_arith)
        requires
            0 <= gross <= w,
            0 <= fee <= 10_000,
    ;
    lemma_fee(gross, fee);
    let net: int = gross - scaled_up(gross, fee, bps)->Ok_0;
    assert(net * w <= w * w) by (nonlinear_arith)
        requires
            net <= w,
            w > 0,
    ;
    lemma_scaled(net, w, s);
    assert(0 <= net <= face);
    lemma_scaled(face, w, s);
}

/// In a market whose own reserves price, whatever the curve prices the pool can
/// pay, and the reserves it leaves price too.
proof fn lemma_priced_sale_is_paid(config: Config, state: State, comp: Precompute, face: int)
    requires
        config.valid(),
        state.seeded(),
        comp.valid(),
        anchored(state, comp),
        0 < face <= MAX_RESERVE_UNITS,
        exchange_rate_result(
            state.total_pt as int,
            comp.total_asset as int,
            comp.rate_scalar as int,
            comp.rate_anchor as int,
            -face,
        ) is Ok,
    ensures
        ({
            let rate = exchange_rate_result(
                state.total_pt as int,
                comp.total_asset as int,
                comp.rate_scalar as int,
                comp.rate_anchor as int,
                -face,
            )->Ok_0;
            &&& scaled_up(face, WAD as int, comp.sy_rate as int) is Ok
            &&& sale_leg(config, comp, face, rate as int) matches Ok(paid) && {
                &&& 0 <= paid < state.total_sy
                &&& paid > 0 ==> sale(config, state, comp, face) == Ok::<i128, Error>(paid)
            }
        }),
{
    let w: int = WAD as int;
    let pt: int = state.total_pt as int;
    let sy: int = state.total_sy as int;
    let asset: int = comp.total_asset as int;
    let scalar: int = comp.rate_scalar as int;
    let anchor: int = comp.rate_anchor as int;
    let s: int = comp.sy_rate as int;
    let rate: int = exchange_rate_result(pt, asset, scalar, anchor, -face)->Ok_0 as int;
    lemma_sale_leg_fits(config, comp, face, rate);
    let paid: int = sale_leg(config, comp, face, rate)->Ok_0 as int;
    let net: int = choose|net: int| 0 <= net <= face && paid == #[trigger] (net * WAD) / s;
    lemma_floor(net * w, s);
    lemma_scaled(sy, s, w);
    lemma_floor(sy * s, w);
    let share: int = proportion(pt, asset, -face);
    lemma_floor((pt - (-face)) * w, pt + asset);
    // PT is short of the whole pool's value, so the face is short of the assets.
    assert(face < asset) by (nonlinear_arith)
        requires
            share <= 960_000_000_000_000_000,
            w == 1_000_000_000_000_000_000,
            (pt + face) * w < (pt + asset) * share + (pt + asset),
            pt + asset > 0,
    ;
    assert(paid < sy) by (nonlinear_arith)
        requires
            s * paid <= net * w,
            net <= face,
            face < asset,
            w * asset <= sy * s,
            w > 0,
            s > 0,
    ;
    let left: int = sy - paid;
    assert(0 <= left * s <= sy * s && left * s >= w * (asset - net)) by (nonlinear_arith)
        requires
            left == sy - paid,
            paid >= 0,
            paid < sy,
            s > 0,
            s * paid <= net * w,
            w * asset <= sy * s,
    ;
    lemma_scaled(left, s, w);
    lemma_div_monotone(left * s, sy * s, w);
    lemma_floor(left * s, w);
    let worth: int = left * s / w;
    assert(worth >= asset - net) by (nonlinear_arith)
        requires
            left * s >= w * (asset - net),
            left * s < w * worth + w,
            w > 0,
    ;
    assert(0 < worth <= asset);
    // The reserves left behind lie between those there were and the trade itself.
    let all: int = pt + face;
    lemma_proportion_order(all, worth, pt, asset);
    assert(0 <= (all - 0) * w);
    lemma_div_antitone((all - 0) * w, pt + asset, all + worth);
    assert(asset <= sy * s);
    assert(fits(all * w));
    assert(all <= i128::MAX / 4) by (nonlinear_arith)
        requires
            all * w <= 0x7fff_ffff_ffff_ffff_ffff_ffff_ffff_ffffint,
            w == 1_000_000_000_000_000_000,
            i128::MAX == 0x7fff_ffff_ffff_ffff_ffff_ffff_ffff_ffffint,
    ;
    assert(asset <= i128::MAX / 4) by (nonlinear_arith)
        requires
            w * asset <= 0x7fff_ffff_ffff_ffff_ffff_ffff_ffff_ffffint,
            w == 1_000_000_000_000_000_000,
            i128::MAX == 0x7fff_ffff_ffff_ffff_ffff_ffff_ffff_ffffint,
    ;
    lemma_curve_monotone(
        proportion(pt, asset, 0),
        proportion(all, worth, 0),
        scalar,
        anchor,
    );
    lemma_curve_monotone(proportion(all, worth, 0), share, scalar, anchor);
    assert(representable(comp, all, left) == Ok::<bool, Error>(true));
}

/// No larger YT is a better buy: any face a budget affords is at most the one
/// found, or takes the whole budget to the last share. This holds where the size
/// found would pay a share at the worst rate the curve has, and costs more than
/// one (or the market charges a fee).
pub proof fn law_larger_yt_takes_the_whole_budget(
    config: Config,
    state: State,
    comp: Precompute,
    budget: int,
    face: int,
)
    requires
        config.valid(),
        state.seeded(),
        comp.valid(),
        anchored(state, comp),
        yt_for_budget(config, state, comp, budget) matches Ok((found, cost)) && {
            &&& found < MAX_RESERVE_UNITS || face <= MAX_RESERVE_UNITS
            &&& cost > 1 || config.fee_bps > 0
            &&& sale_leg(config, comp, found as int, worst_rate(comp)) matches Ok(paid) && paid > 0
        },
        yt_probe(config, state, comp, face, budget) matches Ok(YtBuyProbe::Affordable(_)),
    ensures
        face <= yt_for_budget(config, state, comp, budget)->Ok_0.0 || yt_probe(
            config,
            state,
            comp,
            face,
            budget,
        )->Ok_0->Affordable_0 == budget,
{
    let found: int = yt_for_budget(config, state, comp, budget)->Ok_0.0 as int;
    law_budget_affords_its_yt(config, state, comp, budget);
    lemma_stops_at_found(config, state, comp, budget);
    if face > found {
        if found == yt_ceiling(state, comp, budget)->Ok_0 {
            if found < MAX_RESERVE_UNITS {
                lemma_past_the_ceiling(config, state, comp, budget, face);
            }
        } else {
            let over: int = found + 1;
            lemma_smaller_sale_prices(state, comp, over, face);
            lemma_priced_sale_is_paid(config, state, comp, over);
            law_larger_sales_pay(config, state, comp, found, over);
            law_yt_beyond_the_budget_takes_all_of_it(config, state, comp, budget, over, face);
        }
    }
}

/// A search goes at least as far as a size it affords, where no smaller one is
/// too large and no larger one too small.
proof fn lemma_yt_search_reaches(
    config: Config,
    state: State,
    comp: Precompute,
    budget: int,
    low: int,
    high: int,
    best: int,
    cost: int,
    ceiling: int,
    goal: int,
)
    requires
        1 <= low <= high + 1,
        goal <= high <= ceiling,
        low <= goal || best >= goal,
        yt_probe(config, state, comp, goal, budget) matches Ok(YtBuyProbe::Affordable(_)),
        forall|size: int|
            0 < size <= ceiling ==> {
                &&& #[trigger] yt_probe(config, state, comp, size, budget) is Ok
                &&& size <= goal ==> yt_probe(config, state, comp, size, budget)->Ok_0
                    != YtBuyProbe::TooLarge
                &&& size >= goal ==> yt_probe(config, state, comp, size, budget)->Ok_0
                    != YtBuyProbe::TooSmall
            },
    ensures
        yt_search(config, state, comp, budget, low, high, best, cost) matches Ok(found) && found.0
            >= goal,
    decreases high - low + 1,
{
    if low <= high {
        let mid: int = low + (high - low) / 2;
        assert(yt_probe(config, state, comp, mid, budget) is Ok);
        match yt_probe(config, state, comp, mid, budget) {
            Ok(YtBuyProbe::Affordable(price)) => lemma_yt_search_reaches(
                config,
                state,
                comp,
                budget,
                mid + 1,
                high,
                mid,
                price as int,
                ceiling,
                goal,
            ),
            Ok(YtBuyProbe::TooSmall) => lemma_yt_search_reaches(
                config,
                state,
                comp,
                budget,
                mid + 1,
                high,
                best,
                cost,
                ceiling,
                goal,
            ),
            _ => lemma_yt_search_reaches(
                config,
                state,
                comp,
                budget,
                low,
                mid - 1,
                best,
                cost,
                ceiling,
                goal,
            ),
        }
    }
}

/// Buying YT is leveraged: where an SY share is worth at least one unit and the
/// curve prices a sale of one PT more than the budget has shares, at a share or
/// more even at its worst rate, the budget buys more YT than it has shares. It
/// is charged what that costs and no more than it holds, and where the market
/// charges a fee one more unit does not fit.
pub proof fn law_yt_is_leveraged(config: Config, state: State, comp: Precompute, budget: int)
    requires
        config.valid(),
        state.seeded(),
        comp.valid(),
        anchored(state, comp),
        comp.sy_rate >= WAD,
        0 < budget < MAX_RESERVE_UNITS,
        yt_ceiling(state, comp, budget) is Ok,
        exchange_rate_result(
            state.total_pt as int,
            comp.total_asset as int,
            comp.rate_scalar as int,
            comp.rate_anchor as int,
            -(budget + 1),
        ) is Ok,
        sale_leg(config, comp, budget + 1, worst_rate(comp)) matches Ok(paid) && paid > 0,
        config.fee_bps > 0 || yt_cost(config, state, comp, budget + 1) > 1,
    ensures
        yt_for_budget(config, state, comp, budget) matches Ok((found, cost)) && {
            &&& budget < found <= MAX_RESERVE_UNITS
            &&& 0 < cost <= budget
            &&& yt_probe(config, state, comp, found as int, budget) == Ok::<YtBuyProbe, Error>(
                YtBuyProbe::Affordable(cost),
            )
            &&& found < MAX_RESERVE_UNITS && (config.fee_bps > 0 || cost > 1) ==> !(yt_probe(
                config,
                state,
                comp,
                found + 1,
                budget,
            ) matches Ok(YtBuyProbe::Affordable(_)))
        },
{
    let w: int = WAD as int;
    let s: int = comp.sy_rate as int;
    let goal: int = budget + 1;
    let pt: int = state.total_pt as int;
    let asset: int = comp.total_asset as int;
    let scalar: int = comp.rate_scalar as int;
    let anchor: int = comp.rate_anchor as int;
    let ceiling: int = yt_ceiling(state, comp, budget)->Ok_0 as int;
    let shares: int = budget + state.total_sy;
    lemma_scaled(shares, s, w);
    lemma_floor(shares * s, w);
    let reach: int = shares * s / w;
    assert(reach >= goal) by (nonlinear_arith)
        requires
            shares * s < w * reach + w,
            shares >= goal,
            s >= w,
            goal > 0,
            w > 0,
    ;
    assert(goal <= ceiling);
    law_larger_sales_pay(config, state, comp, goal, goal);
    lemma_priced_sale_is_paid(config, state, comp, goal);
    assert forall|size: int| 0 < size <= ceiling implies {
        &&& #[trigger] yt_probe(config, state, comp, size, budget) is Ok
        &&& size <= goal ==> yt_probe(config, state, comp, size, budget)->Ok_0
            != YtBuyProbe::TooLarge
        &&& size >= goal ==> yt_probe(config, state, comp, size, budget)->Ok_0
            != YtBuyProbe::TooSmall
    } by {
        if size <= goal {
            lemma_smaller_sale_prices(state, comp, size, goal);
        }
        if exchange_rate_result(pt, asset, scalar, anchor, -size) is Ok {
            lemma_priced_sale_is_paid(config, state, comp, size);
            lemma_split_needs(size, s);
            if size >= goal {
                law_larger_sales_pay(config, state, comp, goal, size);
                law_more_yt_costs_no_less(config, state, comp, goal, size);
                lemma_fee_costs(config, state, comp, size);
            }
        }
    }
    lemma_fee_costs(config, state, comp, goal);
    lemma_split_needs(goal, s);
    lemma_yt_search_reaches(config, state, comp, budget, 1, ceiling, 0, 0, ceiling, goal);
    lemma_yt_search_affords(config, state, comp, budget, 1, ceiling, 0, 0);
    let (found, cost) = yt_for_budget(config, state, comp, budget)->Ok_0;
    law_budget_affords_its_yt(config, state, comp, budget);
    let worst: int = worst_rate(comp);
    lemma_curve_monotone(
        proportion(pt, asset, -goal),
        MAX_MARKET_PROPORTION as int,
        scalar,
        anchor,
    );
    lemma_sale_leg_fits(config, comp, found as int, worst);
    lemma_sale_leg_order(config, comp, goal, worst, found as int, worst);
    if found < MAX_RESERVE_UNITS && (config.fee_bps > 0 || cost > 1) {
        law_yt_budget_buys_the_most(config, state, comp, budget);
    }
}

/// At a rate of one or more, splitting into a face takes no more shares than it
/// has units.
proof fn lemma_split_needs(face: int, sy_rate: int)
    requires
        face > 0,
        sy_rate >= WAD,
    ensures
        scaled_up(face, WAD as int, sy_rate) matches Ok(needed) ==> needed <= face,
{
    let w: int = WAD as int;
    lemma_scaled(face, w, sy_rate);
    lemma_ceil(face * w, sy_rate);
    let needed: int = ceil_div(face * w, sy_rate);
    assert(needed <= face) by (nonlinear_arith)
        requires
            sy_rate * needed - sy_rate < face * w,
            sy_rate >= w,
            face > 0,
            w > 0,
    ;
}

/// Where the market charges a fee, YT is never free.
proof fn lemma_fee_costs(config: Config, state: State, comp: Precompute, face: int)
    requires
        config.valid(),
        comp.valid(),
        face > 0,
        sale(config, state, comp, face) is Ok,
        scaled_up(face, WAD as int, comp.sy_rate as int) is Ok,
    ensures
        config.fee_bps > 0 ==> yt_cost(config, state, comp, face) > 0,
{
    let w: int = WAD as int;
    let r: int = comp.sy_rate as int;
    let needed: int = scaled_up(face, w, r)->Ok_0 as int;
    let paid: int = sale(config, state, comp, face)->Ok_0 as int;
    law_sale_pays_at_most_face(config, state, comp, face);
    lemma_scaled(face, w, r);
    lemma_ceil(face * w, r);
    if config.fee_bps > 0 {
        assert(needed > paid) by (nonlinear_arith)
            requires
                face * w <= r * needed,
                paid * r < face * w,
                r > 0,
        ;
    }
}

/// Buying PT never costs less than the curve's price for it, each conversion
/// rounded against the buyer, and never nothing.
pub proof fn law_purchase_costs_at_least_the_curve(
    config: Config,
    state: State,
    comp: Precompute,
    pt_out: int,
)
    requires
        config.valid(),
        comp.valid(),
        purchase(config, state, comp, pt_out) matches Ok(Some(_)),
    ensures
        ({
            let cost = purchase(config, state, comp, pt_out)->Ok_0->0 as int;
            let rate = exchange_rate_result(
                state.total_pt as int,
                comp.total_asset as int,
                comp.rate_scalar as int,
                comp.rate_anchor as int,
                pt_out,
            )->Ok_0 as int;
            &&& cost > 0
            &&& (cost * comp.sy_rate) * rate >= (pt_out * WAD) * WAD
        }),
{
    let w: int = WAD as int;
    let rate: int = exchange_rate_result(
        state.total_pt as int,
        comp.total_asset as int,
        comp.rate_scalar as int,
        comp.rate_anchor as int,
        pt_out,
    )->Ok_0 as int;
    lemma_scaled(pt_out, w, rate);
    lemma_ceil(pt_out * w, rate);
    let net: int = scaled_up(pt_out, w, rate)->Ok_0 as int;
    lemma_fee(net, config.fee_bps as int);
    let fee: int = scaled_up(net, config.fee_bps as int, BPS_DENOMINATOR as int)->Ok_0 as int;
    let gross: int = net + fee;
    lemma_scaled(gross, w, comp.sy_rate as int);
    lemma_ceil(gross * w, comp.sy_rate as int);
    let cost: int = scaled_up(gross, w, comp.sy_rate as int)->Ok_0 as int;
    assert((cost * comp.sy_rate) * rate >= (pt_out * w) * w) by (nonlinear_arith)
        requires
            comp.sy_rate * cost >= gross * w,
            rate * net >= pt_out * w,
            gross >= net,
            net >= 0,
            w > 0,
            rate > 0,
    ;
    assert(cost > 0) by (nonlinear_arith)
        requires
            (cost * comp.sy_rate) * rate >= (pt_out * w) * w,
            pt_out > 0,
            w > 0,
            rate > 0,
            comp.sy_rate > 0,
    ;
}

/// Whether some size in a range cannot be priced for an overflow.
pub open spec fn unpriced_purchase(
    config: Config,
    state: State,
    comp: Precompute,
    low: int,
    high: int,
) -> bool {
    exists|size: int| low <= size <= high && #[trigger] purchase(config, state, comp, size) is Err
}

proof fn lemma_search_fails(
    config: Config,
    state: State,
    comp: Precompute,
    budget: int,
    low: int,
    high: int,
    best: int,
)
    ensures
        purchase_search(config, state, comp, budget, low, high, best) is Err ==> unpriced_purchase(
            config,
            state,
            comp,
            low,
            high,
        ),
    decreases high - low + 1,
{
    if low <= high {
        let mid: int = low + (high - low) / 2;
        if purchase(config, state, comp, mid) is Ok {
            lemma_search_fails(config, state, comp, budget, mid + 1, high, mid);
            lemma_search_fails(config, state, comp, budget, low, mid - 1, best);
        }
    }
}

/// A budget is refused only for a reason: no size the pool could sell is within
/// it, or some size cannot be priced for an overflow.
pub proof fn law_budget_is_refused_for_a_reason(
    config: Config,
    state: State,
    comp: Precompute,
    budget: int,
    pt_out: int,
)
    requires
        config.valid(),
        state.seeded(),
        comp.valid(),
        anchored(state, comp),
        purchase_for_budget(config, state, comp, budget) is Err,
    ensures
        unpriced_purchase(config, state, comp, 1, state.total_pt - 1) || (purchase(
            config,
            state,
            comp,
            pt_out,
        ) matches Ok(Some(cost)) ==> cost > budget),
{
    let search = purchase_search(config, state, comp, budget, 1, state.total_pt - 1, 0);
    if search is Err {
        lemma_search_fails(config, state, comp, budget, 1, state.total_pt - 1, 0);
    } else if affordable(config, state, comp, budget, pt_out) {
        law_budget_buys_the_most(config, state, comp, budget, pt_out);
    }
}

/// What one YT size is: `needed` being the shares that a split into it takes,
/// rounded up, it costs what the pool's payment for the PT leaves of them. It is
/// too large where the curve prices no such sale, the pool cannot pay it, what is
/// left would not price, or the cost is over budget; and too small where the sale
/// comes to nothing or pays for the whole split.
pub proof fn law_yt_probe_terms(
    config: Config,
    state: State,
    comp: Precompute,
    face: int,
    budget: int,
    needed: int,
)
    requires
        config.valid(),
        state.seeded(),
        comp.valid(),
        anchored(state, comp),
        0 < face <= 1_000_000_000_000_000_000,
        (needed - 1) * comp.sy_rate < face * 1_000_000_000_000_000_000 <= needed * comp.sy_rate,
    ensures
        ({
            let rate = exchange_rate_result(
                state.total_pt as int,
                comp.total_asset as int,
                comp.rate_scalar as int,
                comp.rate_anchor as int,
                -face,
            );
            let sold = sale(config, state, comp, face);
            let probe = yt_probe(config, state, comp, face, budget);
            &&& rate is Err ==> probe == Ok::<YtBuyProbe, Error>(YtBuyProbe::TooLarge)
            &&& rate is Ok && sold is Err ==> probe == Ok::<YtBuyProbe, Error>(YtBuyProbe::TooSmall)
            &&& sold matches Ok(paid) ==> probe == Ok::<YtBuyProbe, Error>(
                if needed <= paid {
                    YtBuyProbe::TooSmall
                } else if needed - paid > budget {
                    YtBuyProbe::TooLarge
                } else {
                    YtBuyProbe::Affordable((needed - paid) as i128)
                },
            )
        }),
{
    let w: int = WAD as int;
    let s: int = comp.sy_rate as int;
    if exchange_rate_result(
        state.total_pt as int,
        comp.total_asset as int,
        comp.rate_scalar as int,
        comp.rate_anchor as int,
        -face,
    ) is Ok {
        lemma_priced_sale_is_paid(config, state, comp, face);
        lemma_scaled(face, w, s);
        assert(s * needed - s < face * w <= s * needed) by (nonlinear_arith)
            requires
                (needed - 1) * s < face * w <= needed * s,
        ;
        crate::fixed::lemma_ceil_unique(face * w, s, needed);
    }
}

/// What a budget buys: a size that the pool sells for no more than the budget, and
/// every other size the pool sells for no more than the budget is no larger. Where
/// there is such a size, one is found, unless some size cannot be priced for an
/// overflow.
pub proof fn law_budget_terms(
    config: Config,
    state: State,
    comp: Precompute,
    budget: int,
    pt_out: int,
)
    requires
        config.valid(),
        state.seeded(),
        comp.valid(),
        anchored(state, comp),
    ensures
        ({
            let other = purchase(config, state, comp, pt_out);
            match purchase_for_budget(config, state, comp, budget) {
                Ok(found) => {
                    &&& 0 < found < state.total_pt
                    &&& purchase(config, state, comp, found as int) matches Ok(Some(cost)) && cost
                        <= budget
                    &&& other matches Ok(Some(cost)) ==> cost <= budget ==> pt_out <= found
                },
                Err(_) => unpriced_purchase(config, state, comp, 1, state.total_pt - 1) || (
                other matches Ok(Some(cost)) ==> cost > budget),
            }
        }),
{
    if purchase_for_budget(config, state, comp, budget) is Ok {
        law_budget_affords_its_purchase(config, state, comp, budget);
        if affordable(config, state, comp, budget, pt_out) {
            law_budget_buys_the_most(config, state, comp, budget, pt_out);
        }
    } else {
        law_budget_is_refused_for_a_reason(config, state, comp, budget, pt_out);
    }
}

/// When a sale is owed: in a market whose own reserves price, wherever the curve
/// prices it and, `gross` being the face at that rate, rounded down, and `fee` the
/// market's rate of it, rounded up, what is left comes to a share.
pub proof fn law_sale_is_owed(
    config: Config,
    state: State,
    comp: Precompute,
    pt_in: int,
    gross: int,
    fee: int,
)
    requires
        config.valid(),
        state.seeded(),
        comp.valid(),
        anchored(state, comp),
        0 < pt_in <= 1_000_000_000_000_000_000,
        exchange_rate_result(
            state.total_pt as int,
            comp.total_asset as int,
            comp.rate_scalar as int,
            comp.rate_anchor as int,
            -pt_in,
        ) matches Ok(rate) && gross * rate <= pt_in * 1_000_000_000_000_000_000 < (gross + 1) * rate,
        (fee - 1) * 10_000 < gross * config.fee_bps <= fee * 10_000,
        (gross - fee) * 1_000_000_000_000_000_000 >= comp.sy_rate,
    ensures
        sale(config, state, comp, pt_in) matches Ok(sy_out) && sy_out * comp.sy_rate <= (gross - fee)
            * 1_000_000_000_000_000_000 < (sy_out + 1) * comp.sy_rate,
{
    let w: int = WAD as int;
    let s: int = comp.sy_rate as int;
    let rate: int = exchange_rate_result(
        state.total_pt as int,
        comp.total_asset as int,
        comp.rate_scalar as int,
        comp.rate_anchor as int,
        -pt_in,
    )->Ok_0 as int;
    lemma_priced_sale_is_paid(config, state, comp, pt_in);
    law_scaled_terms(pt_in, w, rate);
    let g: int = scaled_down(pt_in, w, rate)->Ok_0 as int;
    assert(g == gross) by (nonlinear_arith)
        requires
            rate > 0,
            gross * rate <= pt_in * w < (gross + 1) * rate,
            g * rate <= pt_in * w < (g + 1) * rate,
    ;
    law_scaled_terms(gross, config.fee_bps as int, 10_000);
    assert(scaled_up(gross, config.fee_bps as int, 10_000)->Ok_0 == fee);
    lemma_fee(gross, config.fee_bps as int);
    law_scaled_terms(gross - fee, w, s);
    let paid: int = scaled_down(gross - fee, w, s)->Ok_0 as int;
    assert(paid > 0) by (nonlinear_arith)
        requires
            s > 0,
            (gross - fee) * w >= s,
            (gross - fee) * w < (paid + 1) * s,
    ;
}

/// How far a YT budget is searched: to the face of the budget and the whole SY
/// reserve together at the SY rate, rounded down, or to the most a trade may name
/// where that is less. There is a limit wherever the sum and the product are in
/// range.
pub proof fn law_yt_ceiling_terms(state: State, comp: Precompute, budget: int, face: int)
    requires
        comp.valid(),
        state.total_sy >= 0,
        budget >= 0,
        face * 1_000_000_000_000_000_000 <= (budget + state.total_sy) * comp.sy_rate,
        (budget + state.total_sy) * comp.sy_rate < (face + 1) * 1_000_000_000_000_000_000,
    ensures
        yt_ceiling(state, comp, budget) is Ok <==> budget + state.total_sy <= i128::MAX && (budget
            + state.total_sy) * comp.sy_rate <= i128::MAX,
        yt_ceiling(state, comp, budget) matches Ok(most) ==> most == (if face
            <= 1_000_000_000_000_000_000 {
            face
        } else {
            1_000_000_000_000_000_000
        }),
{
    law_scaled_terms(budget + state.total_sy, comp.sy_rate as int, WAD as int);
}

} // verus!
