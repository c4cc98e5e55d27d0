//! The PT/SY market: configuration, quotes, swaps, liquidity, and the price
//! observations.
//!
//! The market decides; it moves no tokens itself. A swap or a liquidity change
//! is first planned against the recorded state, then, once the tokens have
//! moved, recorded with the balances the pool really holds.

use crate::amm_curve::{
    asset_value_of_shares, get_ln_implied_rate, get_rate_anchor, get_rate_scalar,
    ln_implied_rate_result, ln_rate_to_bps, max_ln_implied_rate, rate_anchor_result,
    rate_scalar_result, shares_out_for_face_down, BPS_DENOMINATOR,
};
use crate::amm_math::{
    bounded_sum, checked_add, checked_bounded_reserve_add, checked_mul, in_range, integer_sqrt,
    isqrt, law_scaled_terms, mul_div_down, mul_div_up, scaled_down, scaled_up, MAX_RESERVE_UNITS,
};
use crate::amm_search::{
    exact_sy_in_pt_out, purchase_for_budget, solve_yt_out_for_sy_in, yt_for_budget,
};
use crate::amm_trade::{exact_pt_in_sy_out, exact_pt_out_sy_in, lemma_scaled, purchase_quote, sale};
use crate::fixed::{fits, lemma_floor, lemma_floor_unique, min_of, quot, WAD};
use crate::ledger::{amount, total, Ledger};
use vstd::prelude::*;

verus! {

/// The steepest curve a market may be opened with.
pub const MAX_SCALAR_ROOT: i128 = 10_000_000_000_000_000_000;

/// The highest anchor a market may be opened with.
pub const MAX_ANCHOR: i128 = 2_000_000_000_000_000_000;

/// LP units the first deposit locks away for good.
pub const MINIMUM_LIQUIDITY: i128 = 1_000;

/// Why a market call is refused.
#[derive(Clone, Copy, Debug, PartialEq, Eq, Structural)]
pub enum Error {
    AlreadyInitialized,
    NotInitialized,
    InvalidMaturity,
    InvalidAmount,
    InvalidScalarRoot,
    InvalidAnchor,
    InvalidFee,
    InvalidTwapWindow,
    MarketNotSeeded,
    MarketMatured,
    SlippageExceeded,
    InsufficientLiquidity,
    MathOverflow,
    MarketProportionTooHigh,
    ExchangeRateBelowOne,
    UnsupportedRoute,
    TradeNotFound,
    InputOutOfBounds,
    InvalidSyRate,
}

/// A market's fixed parameters. Accounts and contracts are named by number.
#[derive(Clone, Copy, Debug, PartialEq, Eq, Structural)]
pub struct Config {
    pub admin: u64,
    pub pt_token: u64,
    pub sy_token: u64,
    pub yt_token: u64,
    pub tokenizer: u64,
    pub maturity: u64,
    pub scalar_root: i128,
    pub initial_anchor: i128,
    pub fee_bps: i128,
    pub twap_window: u64,
}

/// A market's reserves and price observations.
#[derive(Clone, Copy, Debug, PartialEq, Eq, Structural)]
pub struct State {
    pub total_pt: i128,
    pub total_sy: i128,
    pub total_lp: i128,
    pub last_ln_implied_rate: i128,
    pub twap_ln_implied_rate: i128,
    pub last_observation: u64,
    pub warmup_until: u64,
}

/// Everything the curve needs for one invocation, resolved once.
///
/// `total_asset` is the SY reserve valued in asset units, not SY shares: the
/// curve prices PT face, and PT face is asset-denominated.
#[derive(Clone, Copy, Debug, PartialEq, Eq, Structural)]
pub struct Precompute {
    pub rate_scalar: i128,
    pub total_asset: i128,
    pub rate_anchor: i128,
    pub time_to_expiry: u64,
    pub sy_rate: i128,
}

impl Config {
    /// What `initialize` accepts.
    pub open spec fn valid(self) -> bool {
        &&& 0 < self.scalar_root <= MAX_SCALAR_ROOT
        &&& WAD <= self.initial_anchor <= MAX_ANCHOR
        &&& 0 <= self.fee_bps < BPS_DENOMINATOR
        &&& self.twap_window > 0
    }
}

impl State {
    /// Whether there is liquidity to trade against.
    pub open spec fn seeded(self) -> bool {
        self.total_lp > 0 && self.total_pt > 0 && self.total_sy > 0
    }
}

impl Precompute {
    /// What resolving a market guarantees.
    pub open spec fn valid(self) -> bool {
        &&& self.rate_scalar > 0
        &&& self.total_asset > 0
        &&& self.time_to_expiry > 0
        &&& self.sy_rate > 0
    }
}

/// A market: its configuration and state once initialized, and the LP balances.
#[derive(Clone, Debug)]
pub struct AmmMarket {
    pub settings: Option<Config>,
    pub book: Option<State>,
    pub lp: Ledger,
}

/// A planned PT/SY swap.
#[derive(Clone, Copy, Debug, PartialEq, Eq, Structural)]
pub struct Swap {
    /// Tokens the pool takes from the trader.
    pub amount_in: i128,
    /// Tokens the pool gives the trader.
    pub amount_out: i128,
    /// The state the trade leaves, before reserves are reconciled.
    pub state: State,
    /// The implied rate that prevailed until this trade.
    pub prevailing_ln_rate: i128,
}

/// A planned YT purchase: the buyer pays `buyer_cost`, the pool splits
/// `shares_to_split`, keeps the PT and hands over `yt_out`.
#[derive(Clone, Copy, Debug, PartialEq, Eq, Structural)]
pub struct YtPurchase {
    pub yt_out: i128,
    pub buyer_cost: i128,
    pub shares_to_split: i128,
    pub state: State,
    pub prevailing_ln_rate: i128,
}

/// A planned YT sale: the pool recombines `yt_in` with its own PT, must receive
/// `sy_value` for it, and pays the seller `sy_out`.
#[derive(Clone, Copy, Debug, PartialEq, Eq, Structural)]
pub struct YtSale {
    pub yt_in: i128,
    pub sy_value: i128,
    pub sy_out: i128,
    pub state: State,
    pub prevailing_ln_rate: i128,
}

/// A planned deposit of liquidity.
#[derive(Clone, Copy, Debug, PartialEq, Eq, Structural)]
pub struct LiquidityAdded {
    pub provider: u64,
    pub pt_used: i128,
    pub sy_used: i128,
    pub lp_out: i128,
    pub provider_lp: i128,
    pub state: State,
}

/// A planned withdrawal of liquidity.
#[derive(Clone, Copy, Debug, PartialEq, Eq, Structural)]
pub struct LiquidityRemoved {
    pub provider: u64,
    pub pt_out: i128,
    pub sy_out: i128,
    pub provider_lp: i128,
    pub state: State,
}

impl State {
    /// What every recorded state keeps: nothing negative, and implied rates
    /// within what the curve can express.
    pub open spec fn valid(self) -> bool {
        &&& self.total_pt >= 0
        &&& self.total_sy >= 0
        &&& self.total_lp >= 0
        &&& 0 <= self.last_ln_implied_rate <= max_ln_implied_rate()
        &&& 0 <= self.twap_ln_implied_rate <= max_ln_implied_rate()
    }
}

/// Refusals of an amount: it must be positive and within the reserve bound.
pub open spec fn amount_refused(amount: int) -> Option<Error> {
    if amount <= 0 {
        Some(Error::InvalidAmount)
    } else if amount > MAX_RESERVE_UNITS {
        Some(Error::InputOutOfBounds)
    } else {
        None
    }
}

/// The curve inputs for a live, seeded market at an SY rate.
pub open spec fn precomputed(config: Config, state: State, now: u64, sy_rate: int) -> Result<
    Precompute,
    Error,
> {
    let left = config.maturity - now;
    match rate_scalar_result(config.scalar_root as int, left) {
        Err(error) => Err(error),
        Ok(rate_scalar) => if sy_rate <= 0 {
            Err(Error::InvalidSyRate)
        } else {
            match scaled_down(state.total_sy as int, sy_rate, WAD as int) {
                Err(error) => Err(error),
                Ok(total_asset) => if total_asset <= 0 {
                    Err(Error::MarketNotSeeded)
                } else {
                    match rate_anchor_result(
                        state.total_pt as int,
                        state.last_ln_implied_rate as int,
                        total_asset as int,
                        rate_scalar as int,
                        left,
                    ) {
                        Err(error) => Err(error),
                        Ok(rate_anchor) => Ok(
                            Precompute {
                                rate_scalar,
                                total_asset,
                                rate_anchor,
                                time_to_expiry: left as u64,
                                sy_rate: sy_rate as i128,
                            },
                        ),
                    }
                },
            }
        },
    }
}

/// The state after an interval during which `prevailing` was the implied rate.
pub open spec fn observed(config: Config, state: State, now: u64, prevailing: int) -> Result<State, Error> {
    let elapsed = now - state.last_observation;
    let weight = elapsed * WAD / (config.twap_window as int);
    if elapsed <= 0 {
        Ok(state)
    } else if elapsed >= config.twap_window {
        Ok(
            State {
                twap_ln_implied_rate: prevailing as i128,
                warmup_until: (now + config.twap_window) as u64,
                last_observation: now,
                ..state
            },
        )
    } else if !fits(state.twap_ln_implied_rate * (WAD - weight)) || !fits(prevailing * weight) {
        Err(Error::MathOverflow)
    } else {
        Ok(
            State {
                twap_ln_implied_rate: (state.twap_ln_implied_rate * (WAD - weight) / (WAD as int)
                    + prevailing * weight / (WAD as int)) as i128,
                last_observation: now,
                ..state
            },
        )
    }
}

/// Whether the warm-up that an observation after a whole window starts ends
/// before time does.
pub open spec fn warmup_fits(config: Config, state: State, now: u64) -> bool {
    now > state.last_observation && now - state.last_observation >= config.twap_window ==> now
        + config.twap_window <= u64::MAX
}

/// A state with its reserves set to the balances the pool holds.
pub open spec fn reconciled(state: State, pt_balance: i128, sy_balance: i128) -> State {
    State { total_pt: pt_balance, total_sy: sy_balance, ..state }
}

// ---------------------------------------------------------------------------
// Checks
// ---------------------------------------------------------------------------

pub fn require_positive_amount_result(amount: i128) -> (result: Result<(), Error>)
    ensures
        result == (if amount <= 0 {
            Err::<(), Error>(Error::InvalidAmount)
        } else {
            Ok(())
        }),
{
    if amount <= 0 {
        return Err(Error::InvalidAmount);
    }
    Ok(())
}

pub fn require_bounded_amount_result(amount: i128) -> (result: Result<(), Error>)
    ensures
        result == (match amount_refused(amount as int) {
            Some(error) => Err::<(), Error>(error),
            None => Ok(()),
        }),
{
    require_positive_amount_result(amount)?;
    if amount > MAX_RESERVE_UNITS {
        return Err(Error::InputOutOfBounds);
    }
    Ok(())
}

pub fn require_seeded_result(state: &State) -> (result: Result<(), Error>)
    ensures
        result == (if state.seeded() {
            Ok::<(), Error>(())
        } else {
            Err(Error::MarketNotSeeded)
        }),
{
    if state.total_lp <= 0 || state.total_pt <= 0 || state.total_sy <= 0 {
        return Err(Error::MarketNotSeeded);
    }
    Ok(())
}

/// Resolves the curve inputs of a live, seeded market.
pub fn precompute(config: &Config, state: &State, now: u64, sy_rate: i128) -> (result: Result<
    Precompute,
    Error,
>)
    requires
        now < config.maturity,
        state.seeded(),
    ensures
        result == precomputed(*config, *state, now, sy_rate as int),
        result matches Ok(comp) ==> comp.valid() && comp.time_to_expiry == config.maturity - now,
{
    let time_to_expiry: u64 = config.maturity - now;
    let rate_scalar: i128 = get_rate_scalar(config.scalar_root, time_to_expiry)?;
    if sy_rate <= 0 {
        return Err(Error::InvalidSyRate);
    }
    let total_asset: i128 = asset_value_of_shares(state.total_sy, sy_rate)?;
    if total_asset <= 0 {
        return Err(Error::MarketNotSeeded);
    }
    let rate_anchor: i128 = get_rate_anchor(
        state.total_pt,
        state.last_ln_implied_rate,
        total_asset,
        rate_scalar,
        time_to_expiry,
    )?;
    Ok(Precompute { rate_scalar, total_asset, rate_anchor, time_to_expiry, sy_rate })
}

/// A weighted mean of two nonnegative rates, each part rounded down, lies
/// between the smaller less one and the larger.
pub proof fn lemma_blend(a: int, b: int, weight: int)
    requires
        a >= 0,
        b >= 0,
        0 <= weight <= WAD,
    ensures
        0 <= a * (WAD - weight),
        0 <= b * weight,
        0 <= a * (WAD - weight) / (WAD as int),
        0 <= b * weight / (WAD as int),
        a * (WAD - weight) / (WAD as int) + b * weight / (WAD as int) <= (if a >= b { a } else { b }),
        a * (WAD - weight) / (WAD as int) + b * weight / (WAD as int) >= (if a <= b { a } else { b }) - 1,
{
    let w: int = WAD as int;
    let x: int = a * (w - weight);
    let y: int = b * weight;
    let hi: int = if a >= b { a } else { b };
    let lo: int = if a <= b { a } else { b };
    assert(0 <= x && 0 <= y && w * lo <= x + y && x + y <= w * hi) by (nonlinear_arith)
        requires
            x == a * (w - weight),
            y == b * weight,
            0 <= weight <= w,
            0 <= lo <= a <= hi,
            lo <= b <= hi,
    ;
    lemma_floor(x, w);
    lemma_floor(y, w);
    let p: int = x / w;
    let q: int = y / w;
    assert(p + q <= hi && p + q >= lo - 1) by (nonlinear_arith)
        requires
            w > 0,
            w * p <= x < w * p + w,
            w * q <= y < w * q + w,
            w * lo <= x + y <= w * hi,
    ;
}

/// Accumulates the rate that prevailed over the interval that just closed.
pub fn sync_twap(config: &Config, state: &State, now: u64, prevailing_ln_rate: i128) -> (result: Result<
    State,
    Error,
>)
    requires
        state.twap_ln_implied_rate >= 0,
        prevailing_ln_rate >= 0,
        warmup_fits(*config, *state, now),
    ensures
        result == observed(*config, *state, now, prevailing_ln_rate as int),
        result matches Ok(after) ==> 0 <= after.twap_ln_implied_rate && (after.twap_ln_implied_rate
            <= state.twap_ln_implied_rate || after.twap_ln_implied_rate <= prevailing_ln_rate),
{
    if now <= state.last_observation {
        return Ok(*state);
    }
    let elapsed: u64 = now - state.last_observation;
    if elapsed >= config.twap_window {
        return Ok(
            State {
                twap_ln_implied_rate: prevailing_ln_rate,
                warmup_until: now + config.twap_window,
                last_observation: now,
                ..*state
            },
        );
    }
    let window: i128 = config.twap_window as i128;
    proof {
        let n: int = elapsed * WAD;
        lemma_floor(n, window as int);
        let q: int = n / (window as int);
        assert(0 <= n <= u64::MAX * WAD && q <= WAD) by (nonlinear_arith)
            requires
                n == elapsed * 1_000_000_000_000_000_000,
                0 < elapsed < window,
                window <= u64::MAX,
                WAD == 1_000_000_000_000_000_000,
                window * q <= n,
        ;
    }
    let weight: i128 = elapsed as i128 * WAD / window;
    proof {
        lemma_blend(state.twap_ln_implied_rate as int, prevailing_ln_rate as int, weight as int);
    }
    let carried: i128 = mul_div_down(state.twap_ln_implied_rate, WAD - weight, WAD)?;
    let fresh: i128 = mul_div_down(prevailing_ln_rate, weight, WAD)?;
    Ok(State { twap_ln_implied_rate: carried + fresh, last_observation: now, ..*state })
}

// ---------------------------------------------------------------------------
// Liquidity
// ---------------------------------------------------------------------------

/// What a deposit takes, what it mints, and the state it leaves.
#[derive(Clone, Copy, Debug, PartialEq, Eq, Structural)]
pub struct Deposit {
    pub pt_used: i128,
    pub sy_used: i128,
    pub lp_out: i128,
    pub state: State,
}

/// Opening a market: the reserves are taken as offered, the LP supply is their
/// geometric mean, and a fixed part of it is locked.
pub open spec fn seeding(
    config: Config,
    state: State,
    now: u64,
    sy_rate: int,
    pt_in: int,
    sy_in: int,
) -> Result<Deposit, Error> {
    let gross = isqrt(pt_in * sy_in);
    let left = config.maturity - now;
    if gross <= MINIMUM_LIQUIDITY {
        Err(Error::InsufficientLiquidity)
    } else {
        match rate_scalar_result(config.scalar_root as int, left) {
            Err(error) => Err(error),
            Ok(rate_scalar) => if sy_rate <= 0 {
                Err(Error::InvalidSyRate)
            } else {
                match scaled_down(sy_in, sy_rate, WAD as int) {
                    Err(error) => Err(error),
                    Ok(asset) => match ln_implied_rate_result(
                        pt_in,
                        asset as int,
                        rate_scalar as int,
                        config.initial_anchor as int,
                        left,
                    ) {
                        Err(error) => Err(error),
                        Ok(ln_rate) => Ok(
                            Deposit {
                                pt_used: pt_in as i128,
                                sy_used: sy_in as i128,
                                lp_out: (gross - MINIMUM_LIQUIDITY) as i128,
                                state: State {
                                    total_pt: pt_in as i128,
                                    total_sy: sy_in as i128,
                                    total_lp: gross as i128,
                                    last_ln_implied_rate: ln_rate,
                                    twap_ln_implied_rate: ln_rate,
                                    last_observation: now,
                                    ..state
                                },
                            },
                        ),
                    },
                }
            },
        }
    }
}

/// Adding to an open market: LP is minted against the scarcer side, rounded
/// down, and both reserves are charged for it, rounded up.
pub open spec fn topping_up(state: State, pt_in: int, sy_in: int) -> Result<Deposit, Error> {
    let lp = state.total_lp as int;
    match scaled_down(pt_in, lp, state.total_pt as int) {
        Err(error) => Err(error),
        Ok(by_pt) => match scaled_down(sy_in, lp, state.total_sy as int) {
            Err(error) => Err(error),
            Ok(by_sy) => {
                let lp_out = min_of(by_pt as int, by_sy as int);
                if lp_out <= 0 {
                    Err(Error::InsufficientLiquidity)
                } else {
                    match scaled_up(state.total_pt as int, lp_out, lp) {
                        Err(error) => Err(error),
                        Ok(pt_used) => match scaled_up(state.total_sy as int, lp_out, lp) {
                            Err(error) => Err(error),
                            Ok(sy_used) => match bounded_sum(state.total_pt as int, pt_used as int) {
                                Err(error) => Err(error),
                                Ok(total_pt) => match bounded_sum(
                                    state.total_sy as int,
                                    sy_used as int,
                                ) {
                                    Err(error) => Err(error),
                                    Ok(total_sy) => match in_range(lp + lp_out) {
                                        Err(error) => Err(error),
                                        Ok(total_lp) => Ok(
                                            Deposit {
                                                pt_used,
                                                sy_used,
                                                lp_out: lp_out as i128,
                                                state: State {
                                                    total_pt,
                                                    total_sy,
                                                    total_lp,
                                                    ..state
                                                },
                                            },
                                        ),
                                    },
                                },
                            },
                        },
                    }
                }
            },
        },
    }
}

pub(crate) fn seed(config: &Config, state: &State, now: u64, sy_rate: i128, pt_in: i128, sy_in: i128) -> (result: Result<
    Deposit,
    Error,
>)
    requires
        config.valid(),
        state.valid(),
        now < config.maturity,
        0 < pt_in <= MAX_RESERVE_UNITS,
        0 < sy_in <= MAX_RESERVE_UNITS,
    ensures
        result == seeding(*config, *state, now, sy_rate as int, pt_in as int, sy_in as int),
        result matches Ok(deposit) ==> deposit.state.valid() && deposit.lp_out > 0,
{
    proof {
        assert(0 < pt_in * sy_in <= WAD * WAD) by (nonlinear_arith)
            requires
                0 < pt_in <= WAD,
                0 < sy_in <= WAD,
        ;
    }
    let gross_lp: i128 = integer_sqrt(checked_mul(pt_in, sy_in)?)?;
    if gross_lp <= MINIMUM_LIQUIDITY {
        return Err(Error::InsufficientLiquidity);
    }
    let time_to_expiry: u64 = config.maturity - now;
    let rate_scalar: i128 = get_rate_scalar(config.scalar_root, time_to_expiry)?;
    if sy_rate <= 0 {
        return Err(Error::InvalidSyRate);
    }
    proof {
        lemma_scaled(sy_in as int, sy_rate as int, WAD as int);
    }
    let asset: i128 = asset_value_of_shares(sy_in, sy_rate)?;
    let ln_rate: i128 = get_ln_implied_rate(
        pt_in,
        asset,
        rate_scalar,
        config.initial_anchor,
        time_to_expiry,
    )?;
    Ok(
        Deposit {
            pt_used: pt_in,
            sy_used: sy_in,
            lp_out: gross_lp - MINIMUM_LIQUIDITY,
            state: State {
                total_pt: pt_in,
                total_sy: sy_in,
                total_lp: gross_lp,
                last_ln_implied_rate: ln_rate,
                twap_ln_implied_rate: ln_rate,
                last_observation: now,
                ..*state
            },
        },
    )
}

pub(crate) fn top_up(state: &State, pt_in: i128, sy_in: i128) -> (result: Result<Deposit, Error>)
    requires
        state.valid(),
        0 < pt_in <= MAX_RESERVE_UNITS,
        0 < sy_in <= MAX_RESERVE_UNITS,
    ensures
        result == topping_up(*state, pt_in as int, sy_in as int),
        result matches Ok(deposit) ==> deposit.state.valid() && deposit.lp_out > 0,
{
    let by_pt: i128 = mul_div_down(pt_in, state.total_lp, state.total_pt)?;
    let by_sy: i128 = mul_div_down(sy_in, state.total_lp, state.total_sy)?;
    let lp_out: i128 = if by_pt <= by_sy {
        by_pt
    } else {
        by_sy
    };
    if lp_out <= 0 {
        return Err(Error::InsufficientLiquidity);
    }
    let pt_used: i128 = mul_div_up(state.total_pt, lp_out, state.total_lp)?;
    let sy_used: i128 = mul_div_up(state.total_sy, lp_out, state.total_lp)?;
    proof {
        lemma_scaled(state.total_pt as int, lp_out as int, state.total_lp as int);
        lemma_scaled(state.total_sy as int, lp_out as int, state.total_lp as int);
    }
    let total_pt: i128 = checked_bounded_reserve_add(state.total_pt, pt_used)?;
    let total_sy: i128 = checked_bounded_reserve_add(state.total_sy, sy_used)?;
    let total_lp: i128 = checked_add(state.total_lp, lp_out)?;
    Ok(
        Deposit {
            pt_used,
            sy_used,
            lp_out,
            state: State { total_pt, total_sy, total_lp, ..*state },
        },
    )
}

// ---------------------------------------------------------------------------
// The market
// ---------------------------------------------------------------------------

impl AmmMarket {
    /// What every operation keeps.
    pub open spec fn valid(self) -> bool {
        &&& self.settings is Some <==> self.book is Some
        &&& self.settings matches Some(config) ==> config.valid()
        &&& self.book matches Some(state) ==> state.valid()
    }

    /// Every LP unit but the locked minimum belongs to some account.
    pub open spec fn lp_accounted(self) -> bool {
        match self.book {
            None => total(self.lp@) == 0,
            Some(state) => state.total_lp == total(self.lp@) + (if state.total_lp == 0 {
                0int
            } else {
                MINIMUM_LIQUIDITY as int
            }),
        }
    }

    /// A live, seeded market and its curve inputs.
    pub open spec fn loaded(self, now: u64, sy_rate: int, amount_in: int) -> Result<
        (Config, State, Precompute),
        Error,
    > {
        match self.live(now, amount_in) {
            Err(error) => Err(error),
            Ok(market) => match precomputed(market.0, market.1, now, sy_rate) {
                Err(error) => Err(error),
                Ok(comp) => Ok((market.0, market.1, comp)),
            },
        }
    }

    /// A live, seeded market, for an acceptable amount.
    pub open spec fn live(self, now: u64, amount_in: int) -> Result<(Config, State), Error> {
        match amount_refused(amount_in) {
            Some(error) => Err(error),
            None => match (self.settings, self.book) {
                (Some(config), Some(state)) => if now >= config.maturity {
                    Err(Error::MarketMatured)
                } else if !state.seeded() {
                    Err(Error::MarketNotSeeded)
                } else {
                    Ok((config, state))
                },
                _ => Err(Error::NotInitialized),
            },
        }
    }

    /// A market that is not initialized yet.
    pub fn new() -> (market: Self)
        ensures
            market.settings is None,
            market.book is None,
            market.lp@ == Map::<u64, i128>::empty(),
            market.valid(),
            market.lp_accounted(),
    {
        AmmMarket { settings: None, book: None, lp: Ledger::new() }
    }

    /// Whether a market can be opened on given terms, or why not.
    pub open spec fn terms(
        self,
        now: u64,
        maturity: u64,
        scalar_root: i128,
        initial_anchor: i128,
        fee_bps: i128,
        twap_window: u64,
    ) -> Result<(), Error> {
        if self.settings is Some {
            Err(Error::AlreadyInitialized)
        } else if maturity <= now {
            Err(Error::InvalidMaturity)
        } else if scalar_root <= 0 {
            Err(Error::InvalidScalarRoot)
        } else if scalar_root > MAX_SCALAR_ROOT {
            Err(Error::InputOutOfBounds)
        } else if initial_anchor < WAD {
            Err(Error::InvalidAnchor)
        } else if initial_anchor > MAX_ANCHOR {
            Err(Error::InputOutOfBounds)
        } else if !(0 <= fee_bps < BPS_DENOMINATOR) {
            Err(Error::InvalidFee)
        } else if twap_window == 0 {
            Err(Error::InvalidTwapWindow)
        } else {
            Ok(())
        }
    }

    /// The checks made before a market is opened.
    pub fn check_terms(
        &self,
        now: u64,
        maturity: u64,
        scalar_root: i128,
        initial_anchor: i128,
        fee_bps: i128,
        twap_window: u64,
    ) -> (result: Result<(), Error>)
        ensures
            result == self.terms(now, maturity, scalar_root, initial_anchor, fee_bps, twap_window),
    {
        if self.settings.is_some() {
            return Err(Error::AlreadyInitialized);
        }
        if maturity <= now {
            return Err(Error::InvalidMaturity);
        }
        if scalar_root <= 0 {
            return Err(Error::InvalidScalarRoot);
        }
        if scalar_root > MAX_SCALAR_ROOT {
            return Err(Error::InputOutOfBounds);
        }
        if initial_anchor < WAD {
            return Err(Error::InvalidAnchor);
        }
        if initial_anchor > MAX_ANCHOR {
            return Err(Error::InputOutOfBounds);
        }
        if fee_bps < 0 || fee_bps >= BPS_DENOMINATOR {
            return Err(Error::InvalidFee);
        }
        if twap_window == 0 {
            return Err(Error::InvalidTwapWindow);
        }
        Ok(())
    }

    /// Opens a market. Its first warm-up must end before time does.
    pub fn initialize(
        &mut self,
        now: u64,
        admin: u64,
        pt_token: u64,
        sy_token: u64,
        yt_token: u64,
        tokenizer: u64,
        maturity: u64,
        scalar_root: i128,
        initial_anchor: i128,
        fee_bps: i128,
        twap_window: u64,
    ) -> (result: Result<(), Error>)
        requires
            old(self).valid(),
            old(self).terms(now, maturity, scalar_root, initial_anchor, fee_bps, twap_window) is Ok
                ==> now + twap_window <= u64::MAX,
        ensures
            final(self).valid(),
            old(self).lp_accounted() ==> final(self).lp_accounted(),
            final(self).lp@ == old(self).lp@,
            result == old(self).terms(
                now,
                maturity,
                scalar_root,
                initial_anchor,
                fee_bps,
                twap_window,
            ),
            result is Err ==> final(self).settings == old(self).settings && final(self).book == old(self).book,
            result is Ok ==> final(self).settings == Some(
                (Config {
                    admin,
                    pt_token,
                    sy_token,
                    yt_token,
                    tokenizer,
                    maturity,
                    scalar_root,
                    initial_anchor,
                    fee_bps,
                    twap_window,
                }),
            ) && final(self).book == Some(
                (State {
                    total_pt: 0,
                    total_sy: 0,
                    total_lp: 0,
                    last_ln_implied_rate: 0,
                    twap_ln_implied_rate: 0,
                    last_observation: now,
                    warmup_until: (now + twap_window) as u64,
                }),
            ),
    {
        self.check_terms(now, maturity, scalar_root, initial_anchor, fee_bps, twap_window)?;
        self.settings = Some(
            Config {
                admin,
                pt_token,
                sy_token,
                yt_token,
                tokenizer,
                maturity,
                scalar_root,
                initial_anchor,
                fee_bps,
                twap_window,
            },
        );
        self.book = Some(
            State {
                total_pt: 0,
                total_sy: 0,
                total_lp: 0,
                last_ln_implied_rate: 0,
                twap_ln_implied_rate: 0,
                last_observation: now,
                warmup_until: now + twap_window,
            },
        );
        Ok(())
    }

    pub fn config(&self) -> (result: Result<Config, Error>)
        ensures
            result == (match self.settings {
                Some(config) => Ok::<Config, Error>(config),
                None => Err(Error::NotInitialized),
            }),
    {
        match self.settings {
            Some(config) => Ok(config),
            None => Err(Error::NotInitialized),
        }
    }

    pub fn state(&self) -> (result: Result<State, Error>)
        ensures
            result == (match self.book {
                Some(state) => Ok::<State, Error>(state),
                None => Err(Error::NotInitialized),
            }),
    {
        match self.book {
            Some(state) => Ok(state),
            None => Err(Error::NotInitialized),
        }
    }

    pub fn total_lp(&self) -> (result: Result<i128, Error>)
        ensures
            result == (match self.book {
                Some(state) => Ok::<i128, Error>(state.total_lp),
                None => Err(Error::NotInitialized),
            }),
    {
        let state: State = self.state()?;
        Ok(state.total_lp)
    }

    pub fn lp_balance(&self, holder: u64) -> (result: Result<i128, Error>)
        ensures
            result == (if self.settings is Some {
                Ok::<i128, Error>(amount(self.lp@, holder))
            } else {
                Err(Error::NotInitialized)
            }),
    {
        self.config()?;
        Ok(self.lp.get(holder))
    }

    pub fn maturity(&self) -> (result: Result<u64, Error>)
        ensures
            result == (match self.settings {
                Some(config) => Ok::<u64, Error>(config.maturity),
                None => Err(Error::NotInitialized),
            }),
    {
        let config: Config = self.config()?;
        Ok(config.maturity)
    }

    /// The checks made before the SY rate is read.
    pub fn require_live(&self, now: u64, amount_in: i128) -> (result: Result<(Config, State), Error>)
        requires
            self.valid(),
        ensures
            result == self.live(now, amount_in as int),
            result matches Ok(market) ==> market.0.valid() && market.1.valid() && market.1.seeded()
                && now < market.0.maturity && 0 < amount_in <= MAX_RESERVE_UNITS,
    {
        require_bounded_amount_result(amount_in)?;
        let config: Config = self.config()?;
        if now >= config.maturity {
            return Err(Error::MarketMatured);
        }
        let state: State = self.state()?;
        require_seeded_result(&state)?;
        Ok((config, state))
    }

    pub fn load_live_market(&self, now: u64, sy_rate: i128, amount_in: i128) -> (result: Result<
        (Config, State, Precompute),
        Error,
    >)
        requires
            self.valid(),
        ensures
            result == self.loaded(now, sy_rate as int, amount_in as int),
            result matches Ok(market) ==> market.0.valid() && market.1.valid() && market.1.seeded()
                && market.2.valid() && 0 < amount_in <= MAX_RESERVE_UNITS,
    {
        let (config, state) = self.require_live(now, amount_in)?;
        let comp: Precompute = precompute(&config, &state, now, sy_rate)?;
        Ok((config, state, comp))
    }

    // -- quotes -------------------------------------------------------------

    pub fn quote_pt_for_sy(&self, now: u64, sy_rate: i128, pt_in: i128) -> (result: Result<i128, Error>)
        requires
            self.valid(),
        ensures
            result == (match self.loaded(now, sy_rate as int, pt_in as int) {
                Err(error) => Err(error),
                Ok(market) => sale(market.0, market.1, market.2, pt_in as int),
            }),
    {
        let (config, state, comp) = self.load_live_market(now, sy_rate, pt_in)?;
        exact_pt_in_sy_out(&config, &state, &comp, pt_in)
    }

    pub fn quote_sy_for_pt(&self, now: u64, sy_rate: i128, sy_in: i128) -> (result: Result<i128, Error>)
        requires
            self.valid(),
        ensures
            result == (match self.loaded(now, sy_rate as int, sy_in as int) {
                Err(error) => Err(error),
                Ok(market) => purchase_for_budget(market.0, market.1, market.2, sy_in as int),
            }),
    {
        let (config, state, comp) = self.load_live_market(now, sy_rate, sy_in)?;
        exact_sy_in_pt_out(&config, &state, &comp, sy_in)
    }

    /// SY shares that `sy_in` actually spends through `swap_sy_for_pt`.
    pub fn quote_sy_for_pt_cost(&self, now: u64, sy_rate: i128, sy_in: i128) -> (result: Result<
        i128,
        Error,
    >)
        requires
            self.valid(),
        ensures
            result == (match self.loaded(now, sy_rate as int, sy_in as int) {
                Err(error) => Err(error),
                Ok(market) => match purchase_for_budget(market.0, market.1, market.2, sy_in as int) {
                    Err(error) => Err(error),
                    Ok(pt_out) => purchase_quote(market.0, market.1, market.2, pt_out as int),
                },
            }),
            result matches Ok(cost) ==> 0 <= cost <= sy_in,
    {
        let (config, state, comp) = self.load_live_market(now, sy_rate, sy_in)?;
        let pt_out: i128 = exact_sy_in_pt_out(&config, &state, &comp, sy_in)?;
        exact_pt_out_sy_in(&config, &state, &comp, pt_out)
    }

    pub fn quote_sy_for_yt(&self, now: u64, sy_rate: i128, sy_in: i128) -> (result: Result<i128, Error>)
        requires
            self.valid(),
        ensures
            result == (match self.loaded(now, sy_rate as int, sy_in as int) {
                Err(error) => Err(error),
                Ok(market) => match yt_for_budget(market.0, market.1, market.2, sy_in as int) {
                    Err(error) => Err(error),
                    Ok(found) => Ok(found.0),
                },
            }),
    {
        let (config, state, comp) = self.load_live_market(now, sy_rate, sy_in)?;
        let (yt_out, _cost) = solve_yt_out_for_sy_in(&config, &state, &comp, sy_in)?;
        Ok(yt_out)
    }

    /// SY shares that `sy_in` actually spends through `swap_sy_for_yt`.
    pub fn quote_sy_for_yt_cost(&self, now: u64, sy_rate: i128, sy_in: i128) -> (result: Result<
        i128,
        Error,
    >)
        requires
            self.valid(),
        ensures
            result == (match self.loaded(now, sy_rate as int, sy_in as int) {
                Err(error) => Err(error),
                Ok(market) => match yt_for_budget(market.0, market.1, market.2, sy_in as int) {
                    Err(error) => Err(error),
                    Ok(found) => Ok(found.1),
                },
            }),
            result matches Ok(cost) ==> 0 < cost <= sy_in,
    {
        let (config, state, comp) = self.load_live_market(now, sy_rate, sy_in)?;
        let (_yt_out, cost) = solve_yt_out_for_sy_in(&config, &state, &comp, sy_in)?;
        Ok(cost)
    }

    /// SY a seller of `yt_in` YT nets: what recombining returns, less the cost of
    /// the PT leg.
    pub fn quote_yt_for_sy(&self, now: u64, sy_rate: i128, yt_in: i128) -> (result: Result<i128, Error>)
        requires
            self.valid(),
        ensures
            result == (match self.loaded(now, sy_rate as int, yt_in as int) {
                Err(error) => Err(error),
                Ok(market) => yt_sale_quote(market.0, market.1, market.2, yt_in as int),
            }),
    {
        let (config, state, comp) = self.load_live_market(now, sy_rate, yt_in)?;
        let sy_cost: i128 = exact_pt_out_sy_in(&config, &state, &comp, yt_in)?;
        let sy_value: i128 = shares_out_for_face_down(yt_in, comp.sy_rate)?;
        if sy_cost >= sy_value {
            return Err(Error::InsufficientLiquidity);
        }
        Ok(sy_value - sy_cost)
    }

    pub fn spot_apy(&self, now: u64) -> (result: Result<i128, Error>)
        requires
            self.valid(),
        ensures
            result == (match (self.settings, self.book) {
                (Some(config), Some(state)) => Ok::<i128, Error>(
                    if now >= config.maturity || state.total_lp == 0 {
                        0
                    } else {
                        quot(state.last_ln_implied_rate * BPS_DENOMINATOR, WAD as int) as i128
                    },
                ),
                _ => Err(Error::NotInitialized),
            }),
    {
        let config: Config = self.config()?;
        if now >= config.maturity {
            return Ok(0);
        }
        let state: State = self.state()?;
        if state.total_lp == 0 {
            return Ok(0);
        }
        Ok(ln_rate_to_bps(state.last_ln_implied_rate))
    }

    /// The spot rate in basis points: the shared market interface's name for
    /// `spot_apy`.
    pub fn implied_apy(&self, now: u64) -> (result: Result<i128, Error>)
        requires
            self.valid(),
        ensures
            result == (match (self.settings, self.book) {
                (Some(config), Some(state)) => Ok::<i128, Error>(
                    if now >= config.maturity || state.total_lp == 0 {
                        0
                    } else {
                        quot(state.last_ln_implied_rate * BPS_DENOMINATOR, WAD as int) as i128
                    },
                ),
                _ => Err(Error::NotInitialized),
            }),
    {
        self.spot_apy(now)
    }

    pub fn twap_apy(&self, now: u64) -> (result: Result<i128, Error>)
        requires
            self.valid(),
        ensures
            result == (match (self.settings, self.book) {
                (Some(config), Some(state)) => Ok::<i128, Error>(
                    if now >= config.maturity {
                        0
                    } else {
                        quot(state.twap_ln_implied_rate * BPS_DENOMINATOR, WAD as int) as i128
                    },
                ),
                _ => Err(Error::NotInitialized),
            }),
    {
        let config: Config = self.config()?;
        let state: State = self.state()?;
        if now >= config.maturity {
            return Ok(0);
        }
        Ok(ln_rate_to_bps(state.twap_ln_implied_rate))
    }

    pub fn twap_warming_up(&self, now: u64) -> (result: Result<bool, Error>)
        ensures
            result == (match self.book {
                Some(state) => Ok::<bool, Error>(now < state.warmup_until),
                None => Err(Error::NotInitialized),
            }),
    {
        let state: State = self.state()?;
        Ok(now < state.warmup_until)
    }
}

/// What selling `yt_in` YT nets.
pub open spec fn yt_sale_quote(config: Config, state: State, comp: Precompute, yt_in: int) -> Result<
    i128,
    Error,
> {
    match purchase_quote(config, state, comp, yt_in) {
        Err(error) => Err(error),
        Ok(sy_cost) => match scaled_down(yt_in, WAD as int, comp.sy_rate as int) {
            Err(error) => Err(error),
            Ok(sy_value) => if sy_cost >= sy_value {
                Err(Error::InsufficientLiquidity)
            } else {
                Ok((sy_value - sy_cost) as i128)
            },
        },
    }
}

// ---------------------------------------------------------------------------
// Laws
// ---------------------------------------------------------------------------

/// What opening a market takes and gives, where `root` is the square root of the
/// two amounts' product, rounded down. Both amounts are taken whole; the shares
/// are `root`, of which the depositor gets all but a thousand. The market starts at
/// the rate its reserves imply at the initial anchor, `asset` being the SY valued
/// at the SY rate, rounded down, and that is its average too. It is granted exactly
/// where there are more than a thousand shares, the SY rate is positive, and the
/// reserves price.
pub proof fn law_seeding_terms(
    config: Config,
    state: State,
    now: u64,
    sy_rate: int,
    pt_in: int,
    sy_in: int,
    root: int,
    asset: int,
)
    requires
        config.valid(),
        now < config.maturity,
        0 < pt_in <= 1_000_000_000_000_000_000,
        0 < sy_in <= 1_000_000_000_000_000_000,
        root >= 0,
        root * root <= pt_in * sy_in < (root + 1) * (root + 1),
        sy_rate > 0 ==> asset * 1_000_000_000_000_000_000 <= sy_in * sy_rate < (asset + 1)
            * 1_000_000_000_000_000_000,
    ensures
        ({
            let left = config.maturity - now;
            let scalar = rate_scalar_result(config.scalar_root as int, left);
            let implied = ln_implied_rate_result(
                pt_in,
                asset,
                scalar->Ok_0 as int,
                config.initial_anchor as int,
                left,
            );
            let result = seeding(config, state, now, sy_rate, pt_in, sy_in);
            &&& result is Ok <==> root > 1_000 && sy_rate > 0 && scalar is Ok && sy_in * sy_rate
                <= i128::MAX && implied is Ok
            &&& result matches Ok(deposit) ==> {
                &&& deposit.pt_used == pt_in
                &&& deposit.sy_used == sy_in
                &&& deposit.lp_out == root - 1_000
                &&& deposit.state.total_pt == pt_in
                &&& deposit.state.total_sy == sy_in
                &&& deposit.state.total_lp == root
                &&& deposit.state.last_ln_implied_rate == implied->Ok_0
                &&& deposit.state.twap_ln_implied_rate == implied->Ok_0
                &&& deposit.state.last_observation == now
                &&& deposit.state.warmup_until == state.warmup_until
            }
        }),
{
    crate::amm_math::lemma_isqrt(root, pt_in * sy_in);
    assert(root <= pt_in * sy_in && pt_in * sy_in <= 1_000_000_000_000_000_000
        * 1_000_000_000_000_000_000) by (nonlinear_arith)
        requires
            0 <= root,
            root * root <= pt_in * sy_in,
            0 < pt_in <= 1_000_000_000_000_000_000,
            0 < sy_in <= 1_000_000_000_000_000_000,
    ;
    if sy_rate > 0 {
        law_scaled_terms(sy_in, sy_rate, WAD as int);
    }
}

/// What adding to an open market takes and gives: the most shares that neither
/// amount offered falls short of in proportion, and of each token the least that
/// pays for them, on top of the reserves. It is granted wherever that is something,
/// the products are in range and neither reserve passes its bound.
pub proof fn law_top_up_terms(state: State, pt_in: int, sy_in: int)
    requires
        state.valid(),
        state.seeded(),
        pt_in > 0,
        sy_in > 0,
    ensures
        ({
            let (pt, sy, lp) = (
                state.total_pt as int,
                state.total_sy as int,
                state.total_lp as int,
            );
            let result = topping_up(state, pt_in, sy_in);
            &&& result matches Ok(deposit) ==> {
                let out = deposit.lp_out as int;
                &&& out > 0
                &&& out * pt <= pt_in * lp && out * sy <= sy_in * lp
                &&& pt_in * lp < (out + 1) * pt || sy_in * lp < (out + 1) * sy
                &&& (deposit.pt_used - 1) * lp < pt * out <= deposit.pt_used * lp
                &&& (deposit.sy_used - 1) * lp < sy * out <= deposit.sy_used * lp
                &&& deposit.state.total_pt == pt + deposit.pt_used
                &&& deposit.state.total_sy == sy + deposit.sy_used
                &&& deposit.state.total_lp == lp + out
                &&& pt + deposit.pt_used <= 1_000_000_000_000_000_000
                &&& sy + deposit.sy_used <= 1_000_000_000_000_000_000
                &&& deposit.state.last_ln_implied_rate == state.last_ln_implied_rate
                &&& deposit.state.twap_ln_implied_rate == state.twap_ln_implied_rate
                &&& deposit.state.last_observation == state.last_observation
                &&& deposit.state.warmup_until == state.warmup_until
            }
            &&& pt_in * lp >= pt && sy_in * lp >= sy && pt_in * lp <= i128::MAX && sy_in * lp
                <= i128::MAX && pt * (pt_in * lp) <= i128::MAX && sy * (sy_in * lp) <= i128::MAX
                && pt + pt_in <= 1_000_000_000_000_000_000 && sy + sy_in
                <= 1_000_000_000_000_000_000 && lp + pt_in * lp <= i128::MAX ==> result is Ok
        }),
{
    let (pt, sy, lp) = (state.total_pt as int, state.total_sy as int, state.total_lp as int);
    law_scaled_terms(pt_in, lp, pt);
    law_scaled_terms(sy_in, lp, sy);
    if scaled_down(pt_in, lp, pt) is Ok && scaled_down(sy_in, lp, sy) is Ok {
        let a: int = scaled_down(pt_in, lp, pt)->Ok_0 as int;
        let b: int = scaled_down(sy_in, lp, sy)->Ok_0 as int;
        let out: int = min_of(a, b);
        assert(out * pt <= pt_in * lp && out * sy <= sy_in * lp && (pt_in * lp < (out + 1) * pt
            || sy_in * lp < (out + 1) * sy)) by (nonlinear_arith)
            requires
                out == a && a <= b || out == b && b <= a,
                pt > 0,
                sy > 0,
                a * pt <= pt_in * lp < (a + 1) * pt,
                b * sy <= sy_in * lp < (b + 1) * sy,
        ;
        law_scaled_terms(pt, out, lp);
        law_scaled_terms(sy, out, lp);
        if pt_in * lp >= pt && sy_in * lp >= sy && pt * (pt_in * lp) <= i128::MAX && sy * (sy_in
            * lp) <= i128::MAX && lp + pt_in * lp <= i128::MAX {
            assert(out >= 1 && out <= pt_in * lp && out <= sy_in * lp) by (nonlinear_arith)
                requires
                    out == a && a <= b || out == b && b <= a,
                    pt >= 1,
                    sy >= 1,
                    pt_in * lp >= pt,
                    sy_in * lp >= sy,
                    a >= 0,
                    b >= 0,
                    out * pt <= pt_in * lp,
                    out * sy <= sy_in * lp,
                    pt_in * lp < (a + 1) * pt,
                    sy_in * lp < (b + 1) * sy,
            ;
            assert(pt * out <= pt * (pt_in * lp) && sy * out <= sy * (sy_in * lp))
                by (nonlinear_arith)
                requires
                    out <= pt_in * lp,
                    out <= sy_in * lp,
                    pt > 0,
                    sy > 0,
            ;
            let x: int = scaled_up(pt, out, lp)->Ok_0 as int;
            let y: int = scaled_up(sy, out, lp)->Ok_0 as int;
            assert(x <= pt_in && y <= sy_in) by (nonlinear_arith)
                requires
                    lp > 0,
                    (x - 1) * lp < pt * out,
                    (y - 1) * lp < sy * out,
                    out * pt <= pt_in * lp,
                    out * sy <= sy_in * lp,
            ;
        }
    }
}

/// What an observation makes of the average after part of a window, where `weight`
/// is that part, rounded down: the old average and the rate that prevailed,
/// weighed by the rest and by the part, each rounded down. It fails only where one
/// of the two products is out of range.
pub proof fn law_observation_terms(
    config: Config,
    state: State,
    now: u64,
    prevailing: int,
    weight: int,
)
    requires
        state.twap_ln_implied_rate >= 0,
        0 <= prevailing <= i128::MAX,
        0 < now - state.last_observation < config.twap_window,
        weight * config.twap_window <= (now - state.last_observation) * 1_000_000_000_000_000_000,
        (now - state.last_observation) * 1_000_000_000_000_000_000 < (weight + 1)
            * config.twap_window,
    ensures
        ({
            let w = 1_000_000_000_000_000_000int;
            let was = state.twap_ln_implied_rate as int;
            let result = observed(config, state, now, prevailing);
            &&& result is Ok <==> was * (w - weight) <= i128::MAX && prevailing * weight
                <= i128::MAX
            &&& result matches Ok(after) ==> {
                let is = after.twap_ln_implied_rate as int;
                is * w <= was * (w - weight) + prevailing * weight < (is + 2) * w
            }
        }),
{
    let w = 1_000_000_000_000_000_000int;
    let window: int = config.twap_window as int;
    let elapsed: int = now - state.last_observation;
    let n: int = elapsed * w;
    assert(window * weight <= n < window * weight + window) by (nonlinear_arith)
        requires
            weight * window <= n < (weight + 1) * window,
    ;
    lemma_floor_unique(n, window, weight);
    assert(0 <= weight <= w) by (nonlinear_arith)
        requires
            0 < elapsed < window,
            n == elapsed * w,
            w > 0,
            window * weight <= n < window * weight + window,
    ;
    let was: int = state.twap_ln_implied_rate as int;
    lemma_blend(was, prevailing, weight);
    lemma_floor(was * (w - weight), w);
    lemma_floor(prevailing * weight, w);
}

/// When a market can be traded: the amount is positive and within the reserve
/// bound, the market is set up, live and holds liquidity, the SY rate is positive,
/// and its reserves, `asset` being the SY valued at that rate, rounded down, take
/// an anchor at the rate last implied. The curve then belongs to exactly those
/// reserves, that rate and the time that is left.
pub proof fn law_loading_terms(
    market: AmmMarket,
    now: u64,
    sy_rate: i128,
    amount_in: i128,
    asset: int,
)
    requires
        market.valid(),
        market.book matches Some(state) && sy_rate > 0 ==> asset * 1_000_000_000_000_000_000
            <= market.book->0.total_sy * sy_rate < (asset + 1) * 1_000_000_000_000_000_000,
    ensures
        ({
            let state = market.book->0;
            let config = market.settings->0;
            let left = config.maturity - now;
            let scalar = rate_scalar_result(config.scalar_root as int, left);
            let anchor = rate_anchor_result(
                state.total_pt as int,
                state.last_ln_implied_rate as int,
                asset,
                scalar->Ok_0 as int,
                left,
            );
            let result = market.loaded(now, sy_rate as int, amount_in as int);
            &&& result is Ok <==> {
                &&& 0 < amount_in <= 1_000_000_000_000_000_000
                &&& market.settings is Some && now < config.maturity
                &&& state.total_lp > 0 && state.total_pt > 0 && state.total_sy > 0
                &&& sy_rate > 0
                &&& state.total_sy * sy_rate <= i128::MAX
                &&& asset > 0
                &&& scalar is Ok
                &&& anchor is Ok
            }
            &&& result matches Ok((used, held, comp)) ==> {
                &&& used == config
                &&& held == state
                &&& comp.total_asset == asset
                &&& comp.sy_rate == sy_rate
                &&& comp.time_to_expiry == left
                &&& comp.rate_scalar == scalar->Ok_0
                &&& comp.rate_anchor == anchor->Ok_0
            }
        }),
{
    if market.book is Some && sy_rate > 0 {
        law_scaled_terms(market.book->0.total_sy as int, sy_rate as int, WAD as int);
    }
}

/// Which terms a market opens on: a fresh market, a maturity still to come, a
/// positive scalar root of at most ten, an anchor from one to two, a fee below the
/// whole, and a window.
pub proof fn law_opening_terms(
    market: AmmMarket,
    now: u64,
    maturity: u64,
    scalar_root: i128,
    initial_anchor: i128,
    fee_bps: i128,
    twap_window: u64,
)
    ensures
        market.terms(now, maturity, scalar_root, initial_anchor, fee_bps, twap_window) is Ok <==> {
            &&& market.settings is None
            &&& maturity > now
            &&& 0 < scalar_root <= 10_000_000_000_000_000_000
            &&& 1_000_000_000_000_000_000 <= initial_anchor <= 2_000_000_000_000_000_000
            &&& 0 <= fee_bps < 10_000
            &&& twap_window > 0
        },
{
}

/// Why a trade is refused before it is priced, the first reason that holds: an
/// amount that is not positive or past the reserve bound, no market, a matured
/// one, or one without liquidity.
pub proof fn law_trade_refusals(market: AmmMarket, now: u64, sy_rate: i128, amount_in: i128)
    requires
        market.valid(),
    ensures
        ({
            let result = market.loaded(now, sy_rate as int, amount_in as int);
            let bounded = 0 < amount_in <= 1_000_000_000_000_000_000;
            let state = market.book->0;
            let liquid = state.total_lp > 0 && state.total_pt > 0 && state.total_sy > 0;
            &&& amount_in <= 0 ==> result is Err && result->Err_0 == Error::InvalidAmount
            &&& amount_in > 1_000_000_000_000_000_000 ==> result is Err && result->Err_0
                == Error::InputOutOfBounds
            &&& bounded && market.settings is None ==> result is Err && result->Err_0
                == Error::NotInitialized
            &&& bounded ==> (market.settings matches Some(config) ==> {
                &&& now >= config.maturity ==> result is Err && result->Err_0
                    == Error::MarketMatured
                &&& now < config.maturity && !liquid ==> result is Err && result->Err_0
                    == Error::MarketNotSeeded
                &&& now < config.maturity && liquid && sy_rate <= 0 && rate_scalar_result(
                    config.scalar_root as int,
                    config.maturity - now,
                ) is Ok ==> result is Err && result->Err_0 == Error::InvalidSyRate
            })
        }),
{
}

/// What selling YT is quoted, where `value` is the shares that recombining it
/// returns, rounded down: that less what the pool charges for the PT, wherever
/// something is left, and otherwise it is refused.
pub proof fn law_yt_sale_quote_terms(
    config: Config,
    state: State,
    comp: Precompute,
    yt_in: int,
    value: int,
)
    requires
        config.valid(),
        comp.valid(),
        yt_in > 0,
        yt_in * 1_000_000_000_000_000_000 <= i128::MAX,
        value * comp.sy_rate <= yt_in * 1_000_000_000_000_000_000 < (value + 1) * comp.sy_rate,
    ensures
        ({
            let bought = crate::amm_trade::purchase(config, state, comp, yt_in);
            let result = yt_sale_quote(config, state, comp, yt_in);
            &&& bought matches Ok(Some(cost)) ==> {
                &&& cost < value ==> result is Ok && result->Ok_0 == value - cost
                &&& cost >= value ==> result is Err && result->Err_0 == Error::InsufficientLiquidity
            }
            &&& bought matches Ok(None) ==> result is Err && result->Err_0 == Error::TradeNotFound
            &&& bought is Err ==> result is Err && result->Err_0 == bought->Err_0
        }),
{
    let w: int = WAD as int;
    let s: int = comp.sy_rate as int;
    law_scaled_terms(yt_in, w, s);
    let v: int = scaled_down(yt_in, w, s)->Ok_0 as int;
    assert(v == value) by (nonlinear_arith)
        requires
            s > 0,
            value * s <= yt_in * w < (value + 1) * s,
            v * s <= yt_in * w < (v + 1) * s,
    ;
    if crate::amm_trade::purchase(config, state, comp, yt_in) matches Ok(Some(_)) {
        crate::amm_search::law_purchase_costs_at_least_the_curve(config, state, comp, yt_in);
    }
}

} // verus!
