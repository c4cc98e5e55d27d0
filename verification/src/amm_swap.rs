//! The market's swaps and liquidity changes: planned against the recorded
//! state, then recorded with the balances the pool holds afterwards.

use crate::amm::{
    amount_refused, lemma_blend, observed, reconciled, require_bounded_amount_result,
    require_seeded_result, seed, seeding, sync_twap, top_up, topping_up, warmup_fits, yt_sale_quote,
    AmmMarket, Config, Deposit, Error, LiquidityAdded, LiquidityRemoved, Precompute, State, Swap,
    YtPurchase, YtSale, MINIMUM_LIQUIDITY,
};
use crate::amm_curve::{
    exchange_rate_result, lemma_odds, max_ln_implied_rate, proportion, rate_from_implied,
    shares_in_for_face_up, shares_out_for_face_down, IMPLIED_RATE_TIME, MAX_MARKET_PROPORTION,
};
use crate::amm_math::{
    checked_add, in_range, law_scaled_terms, lemma_isqrt_exists, mul_div_down, scaled_down, scaled_up,
    MAX_RESERVE_UNITS,
};
use crate::amm_search::{
    anchored, exact_sy_in_pt_out, law_budget_affords_its_purchase, law_budget_affords_its_yt,
    law_purchase_costs_at_least_the_curve, law_yt_is_leveraged, law_yt_quote_is_execution,
    purchase_for_budget, solve_yt_out_for_sy_in, worst_rate, yt_ceiling, yt_cost, yt_for_budget,
    yt_probe, YtBuyProbe,
};
use crate::amm_trade::{
    after_purchase, after_sale, apply_exact_pt_in_trade, apply_exact_sy_in_trade,
    exact_pt_out_sy_in, lemma_scaled, purchase_quote, sale, sale_leg,
};
use crate::fixed::{
    ceil_div, fits, lemma_ceil, lemma_div_monotone, lemma_floor, lemma_quot_times, min_of, quot, WAD,
};
use crate::ledger::{amount, lemma_finite, lemma_total_insert};
use vstd::prelude::*;

verus! {

// ---------------------------------------------------------------------------
// What each operation plans
// ---------------------------------------------------------------------------

/// Selling `pt_in` PT for at least `min_sy_out` SY.
pub open spec fn pt_sale_plan(
    config: Config,
    state: State,
    comp: Precompute,
    pt_in: int,
    min_sy_out: int,
) -> Result<Swap, Error> {
    match sale(config, state, comp, pt_in) {
        Err(error) => Err(error),
        Ok(sy_out) => if sy_out < min_sy_out {
            Err(Error::SlippageExceeded)
        } else {
            match after_sale(state, comp, pt_in, sy_out as int) {
                Err(error) => Err(error),
                Ok(after) => Ok(
                    Swap {
                        amount_in: pt_in as i128,
                        amount_out: sy_out,
                        state: after,
                        prevailing_ln_rate: state.last_ln_implied_rate,
                    },
                ),
            }
        },
    }
}

/// Buying at least `min_pt_out` PT out of a budget of `sy_in` SY: only what the
/// curve charges is taken.
pub open spec fn pt_purchase_plan(
    config: Config,
    state: State,
    comp: Precompute,
    sy_in: int,
    min_pt_out: int,
) -> Result<Swap, Error> {
    match purchase_for_budget(config, state, comp, sy_in) {
        Err(error) => Err(error),
        Ok(pt_out) => if pt_out < min_pt_out {
            Err(Error::SlippageExceeded)
        } else {
            match purchase_quote(config, state, comp, pt_out as int) {
                Err(error) => Err(error),
                Ok(required_sy) => match after_purchase(
                    state,
                    comp,
                    pt_out as int,
                    required_sy as int,
                ) {
                    Err(error) => Err(error),
                    Ok(after) => Ok(
                        Swap {
                            amount_in: required_sy,
                            amount_out: pt_out,
                            state: after,
                            prevailing_ln_rate: state.last_ln_implied_rate,
                        },
                    ),
                },
            }
        },
    }
}

/// Buying at least `min_yt_out` YT out of a budget of `sy_in` SY.
pub open spec fn yt_purchase_plan(
    config: Config,
    state: State,
    comp: Precompute,
    sy_in: int,
    min_yt_out: int,
) -> Result<YtPurchase, Error> {
    match yt_for_budget(config, state, comp, sy_in) {
        Err(error) => Err(error),
        Ok(found) => if found.0 < min_yt_out {
            Err(Error::SlippageExceeded)
        } else {
            match pt_sale_plan(config, state, comp, found.0 as int, 0) {
                Err(error) => Err(error),
                Ok(leg) => Ok(
                    YtPurchase {
                        yt_out: found.0,
                        buyer_cost: found.1,
                        shares_to_split: (found.1 + leg.amount_out) as i128,
                        state: leg.state,
                        prevailing_ln_rate: state.last_ln_implied_rate,
                    },
                ),
            }
        },
    }
}

/// Selling `yt_in` YT for at least `min_sy_out` SY.
pub open spec fn yt_sale_plan(
    config: Config,
    state: State,
    comp: Precompute,
    yt_in: int,
    min_sy_out: int,
) -> Result<YtSale, Error> {
    match purchase_quote(config, state, comp, yt_in) {
        Err(error) => Err(error),
        Ok(sy_cost) => match scaled_down(yt_in, WAD as int, comp.sy_rate as int) {
            Err(error) => Err(error),
            Ok(sy_value) => if sy_value <= sy_cost {
                Err(Error::InsufficientLiquidity)
            } else if sy_value - sy_cost < min_sy_out {
                Err(Error::SlippageExceeded)
            } else {
                match after_purchase(state, comp, yt_in, sy_cost as int) {
                    Err(error) => Err(error),
                    Ok(after) => Ok(
                        YtSale {
                            yt_in: yt_in as i128,
                            sy_value,
                            sy_out: (sy_value - sy_cost) as i128,
                            state: after,
                            prevailing_ln_rate: state.last_ln_implied_rate,
                        },
                    ),
                }
            },
        },
    }
}

impl AmmMarket {
    /// Depositing up to `pt_in` PT and `sy_in` SY.
    pub open spec fn deposit_plan(
        self,
        now: u64,
        sy_rate: int,
        from: u64,
        pt_in: int,
        sy_in: int,
        min_lp_out: int,
    ) -> Result<LiquidityAdded, Error> {
        match (amount_refused(pt_in), amount_refused(sy_in)) {
            (Some(error), _) => Err(error),
            (None, Some(error)) => Err(error),
            (None, None) => match (self.settings, self.book) {
                (Some(config), Some(state)) => if now >= config.maturity {
                    Err(Error::MarketMatured)
                } else {
                    match (if state.total_lp == 0 {
                        seeding(config, state, now, sy_rate, pt_in, sy_in)
                    } else {
                        topping_up(state, pt_in, sy_in)
                    }) {
                        Err(error) => Err(error),
                        Ok(deposit) => match in_range(amount(self.lp@, from) + deposit.lp_out) {
                            Err(error) => Err(error),
                            Ok(provider_lp) => if deposit.lp_out < min_lp_out {
                                Err(Error::SlippageExceeded)
                            } else {
                                Ok(
                                    LiquidityAdded {
                                        provider: from,
                                        pt_used: deposit.pt_used,
                                        sy_used: deposit.sy_used,
                                        lp_out: deposit.lp_out,
                                        provider_lp,
                                        state: deposit.state,
                                    },
                                )
                            },
                        },
                    }
                },
                _ => Err(Error::NotInitialized),
            },
        }
    }

    /// Burning `lp_in` LP for its share of both reserves, rounded down. This
    /// needs no live market: liquidity can leave after maturity.
    pub open spec fn withdrawal_plan(
        self,
        from: u64,
        lp_in: int,
        min_pt_out: int,
        min_sy_out: int,
    ) -> Result<LiquidityRemoved, Error> {
        match amount_refused(lp_in) {
            Some(error) => Err(error),
            None => match (self.settings, self.book) {
                (Some(config), Some(state)) => if !state.seeded() {
                    Err(Error::MarketNotSeeded)
                } else if lp_in > amount(self.lp@, from) || lp_in >= state.total_lp {
                    Err(Error::InsufficientLiquidity)
                } else {
                    match scaled_down(lp_in, state.total_sy as int, state.total_lp as int) {
                        Err(error) => Err(error),
                        Ok(sy_out) => match scaled_down(
                            lp_in,
                            state.total_pt as int,
                            state.total_lp as int,
                        ) {
                            Err(error) => Err(error),
                            Ok(pt_out) => if sy_out == 0 && pt_out == 0 {
                                Err(Error::InsufficientLiquidity)
                            } else if pt_out < min_pt_out || sy_out < min_sy_out {
                                Err(Error::SlippageExceeded)
                            } else {
                                Ok(
                                    LiquidityRemoved {
                                        provider: from,
                                        pt_out,
                                        sy_out,
                                        provider_lp: (amount(self.lp@, from) - lp_in) as i128,
                                        state: State {
                                            total_lp: (state.total_lp - lp_in) as i128,
                                            total_sy: (state.total_sy - sy_out) as i128,
                                            total_pt: (state.total_pt - pt_out) as i128,
                                            ..state
                                        },
                                    },
                                )
                            },
                        },
                    }
                },
                _ => Err(Error::NotInitialized),
            },
        }
    }

    // -- swaps --------------------------------------------------------------

    /// Plans a sale of `pt_in` PT.
    pub fn swap_pt_for_sy(&self, now: u64, sy_rate: i128, pt_in: i128, min_sy_out: i128) -> (result: Result<
        Swap,
        Error,
    >)
        requires
            self.valid(),
        ensures
            result == (match self.loaded(now, sy_rate as int, pt_in as int) {
                Err(error) => Err(error),
                Ok(market) => pt_sale_plan(
                    market.0,
                    market.1,
                    market.2,
                    pt_in as int,
                    min_sy_out as int,
                ),
            }),
            result matches Ok(swap) ==> swap.state.valid() && 0 <= swap.prevailing_ln_rate
                <= max_ln_implied_rate(),
    {
        let (config, state, comp) = self.load_live_market(now, sy_rate, pt_in)?;
        let (sy_out, after) = apply_exact_pt_in_trade(&config, &state, &comp, pt_in, min_sy_out)?;
        Ok(
            Swap {
                amount_in: pt_in,
                amount_out: sy_out,
                state: after,
                prevailing_ln_rate: state.last_ln_implied_rate,
            },
        )
    }

    /// Plans a purchase of PT out of a budget of `sy_in` SY.
    pub fn swap_sy_for_pt(&self, now: u64, sy_rate: i128, sy_in: i128, min_pt_out: i128) -> (result: Result<
        Swap,
        Error,
    >)
        requires
            self.valid(),
        ensures
            result == (match self.loaded(now, sy_rate as int, sy_in as int) {
                Err(error) => Err(error),
                Ok(market) => pt_purchase_plan(
                    market.0,
                    market.1,
                    market.2,
                    sy_in as int,
                    min_pt_out as int,
                ),
            }),
            result matches Ok(swap) ==> swap.state.valid() && 0 <= swap.prevailing_ln_rate
                <= max_ln_implied_rate() && 0 <= swap.amount_in <= sy_in,
    {
        let (config, state, comp) = self.load_live_market(now, sy_rate, sy_in)?;
        let pt_out: i128 = exact_sy_in_pt_out(&config, &state, &comp, sy_in)?;
        if pt_out < min_pt_out {
            return Err(Error::SlippageExceeded);
        }
        let (required_sy, after) = apply_exact_sy_in_trade(&config, &state, &comp, sy_in, pt_out)?;
        Ok(
            Swap {
                amount_in: required_sy,
                amount_out: pt_out,
                state: after,
                prevailing_ln_rate: state.last_ln_implied_rate,
            },
        )
    }

    /// Plans a purchase of YT out of a budget of `sy_in` SY.
    pub fn swap_sy_for_yt(&self, now: u64, sy_rate: i128, sy_in: i128, min_yt_out: i128) -> (result: Result<
        YtPurchase,
        Error,
    >)
        requires
            self.valid(),
        ensures
            result == (match self.loaded(now, sy_rate as int, sy_in as int) {
                Err(error) => Err(error),
                Ok(market) => yt_purchase_plan(
                    market.0,
                    market.1,
                    market.2,
                    sy_in as int,
                    min_yt_out as int,
                ),
            }),
            result matches Ok(plan) ==> plan.state.valid() && 0 <= plan.prevailing_ln_rate
                <= max_ln_implied_rate() && 0 < plan.buyer_cost <= sy_in && scaled_up(
                plan.yt_out as int,
                WAD as int,
                sy_rate as int,
            ) == Ok::<i128, Error>(plan.shares_to_split),
    {
        let (config, state, comp) = self.load_live_market(now, sy_rate, sy_in)?;
        let (yt_out, buyer_cost) = solve_yt_out_for_sy_in(&config, &state, &comp, sy_in)?;
        if yt_out < min_yt_out {
            return Err(Error::SlippageExceeded);
        }
        let (sy_funded, after) = apply_exact_pt_in_trade(&config, &state, &comp, yt_out, 0)?;
        proof {
            law_yt_quote_is_execution(config, state, comp, yt_out as int, sy_in as int);
        }
        let shares_to_split: i128 = shares_in_for_face_up(yt_out, comp.sy_rate)?;
        if shares_to_split != checked_add(buyer_cost, sy_funded)? || buyer_cost > sy_in {
            return Err(Error::InsufficientLiquidity);
        }
        Ok(
            YtPurchase {
                yt_out,
                buyer_cost,
                shares_to_split,
                state: after,
                prevailing_ln_rate: state.last_ln_implied_rate,
            },
        )
    }

    /// Plans a sale of `yt_in` YT.
    pub fn swap_yt_for_sy(&self, now: u64, sy_rate: i128, yt_in: i128, min_sy_out: i128) -> (result: Result<
        YtSale,
        Error,
    >)
        requires
            self.valid(),
        ensures
            result == (match self.loaded(now, sy_rate as int, yt_in as int) {
                Err(error) => Err(error),
                Ok(market) => yt_sale_plan(
                    market.0,
                    market.1,
                    market.2,
                    yt_in as int,
                    min_sy_out as int,
                ),
            }),
            result matches Ok(plan) ==> plan.state.valid() && 0 <= plan.prevailing_ln_rate
                <= max_ln_implied_rate() && 0 < plan.sy_out <= plan.sy_value,
    {
        let (config, state, comp) = self.load_live_market(now, sy_rate, yt_in)?;
        let sy_cost: i128 = exact_pt_out_sy_in(&config, &state, &comp, yt_in)?;
        let sy_value: i128 = shares_out_for_face_down(yt_in, comp.sy_rate)?;
        if sy_value <= sy_cost {
            return Err(Error::InsufficientLiquidity);
        }
        let sy_out: i128 = sy_value - sy_cost;
        if sy_out < min_sy_out {
            return Err(Error::SlippageExceeded);
        }
        let (charged, after) = apply_exact_sy_in_trade(&config, &state, &comp, sy_cost, yt_in)?;
        if charged != sy_cost {
            return Err(Error::InsufficientLiquidity);
        }
        Ok(
            YtSale {
                yt_in,
                sy_value,
                sy_out,
                state: after,
                prevailing_ln_rate: state.last_ln_implied_rate,
            },
        )
    }

    /// Closes out a trade: reserves become the balances the pool holds, and the
    /// rate that prevailed until the trade is accumulated.
    pub fn settle_and_record(
        &mut self,
        now: u64,
        state: State,
        prevailing_ln_rate: i128,
        pt_balance: i128,
        sy_balance: i128,
    ) -> (result: Result<(), Error>)
        requires
            old(self).valid(),
            state.valid(),
            0 <= prevailing_ln_rate <= max_ln_implied_rate(),
            pt_balance >= 0,
            sy_balance >= 0,
            old(self).settings matches Some(config) ==> warmup_fits(config, state, now),
        ensures
            final(self).valid(),
            final(self).settings == old(self).settings,
            final(self).lp@ == old(self).lp@,
            match old(self).settings {
                None => result == Err::<(), Error>(Error::NotInitialized) && final(self).book == old(self).book,
                Some(config) => match observed(
                    config,
                    reconciled(state, pt_balance, sy_balance),
                    now,
                    prevailing_ln_rate as int,
                ) {
                    Err(error) => result == Err::<(), Error>(error) && final(self).book == old(self).book,
                    Ok(after) => result == Ok::<(), Error>(()) && final(self).book == Some(after),
                },
            },
    {
        let config: Config = self.config()?;
        let held: State = State { total_pt: pt_balance, total_sy: sy_balance, ..state };
        let after: State = sync_twap(&config, &held, now, prevailing_ln_rate)?;
        self.book = Some(after);
        Ok(())
    }

    /// Closes out a YT purchase once the split has minted `yt_minted`.
    pub fn settle_yt_purchase(
        &mut self,
        now: u64,
        plan: YtPurchase,
        yt_minted: i128,
        pt_balance: i128,
        sy_balance: i128,
    ) -> (result: Result<i128, Error>)
        requires
            old(self).valid(),
            plan.state.valid(),
            0 <= plan.prevailing_ln_rate <= max_ln_implied_rate(),
            pt_balance >= 0,
            sy_balance >= 0,
            yt_minted >= plan.yt_out ==> (old(self).settings matches Some(config) ==> warmup_fits(
                config,
                plan.state,
                now,
            )),
        ensures
            final(self).valid(),
            final(self).settings == old(self).settings,
            final(self).lp@ == old(self).lp@,
            result is Err ==> final(self).book == old(self).book,
            yt_minted < plan.yt_out ==> result == Err::<i128, Error>(Error::InsufficientLiquidity),
            yt_minted >= plan.yt_out ==> match old(self).settings {
                None => result == Err::<i128, Error>(Error::NotInitialized),
                Some(config) => match observed(
                    config,
                    reconciled(plan.state, pt_balance, sy_balance),
                    now,
                    plan.prevailing_ln_rate as int,
                ) {
                    Err(error) => result == Err::<i128, Error>(error),
                    Ok(after) => result == Ok::<i128, Error>(plan.yt_out) && final(self).book == Some(
                        after,
                    ),
                },
            },
    {
        if yt_minted < plan.yt_out {
            return Err(Error::InsufficientLiquidity);
        }
        self.settle_and_record(now, plan.state, plan.prevailing_ln_rate, pt_balance, sy_balance)?;
        Ok(plan.yt_out)
    }

    /// Closes out a YT sale once recombining has returned `sy_received`.
    pub fn settle_yt_sale(
        &mut self,
        now: u64,
        plan: YtSale,
        sy_received: i128,
        pt_balance: i128,
        sy_balance: i128,
    ) -> (result: Result<i128, Error>)
        requires
            old(self).valid(),
            plan.state.valid(),
            0 <= plan.prevailing_ln_rate <= max_ln_implied_rate(),
            pt_balance >= 0,
            sy_balance >= 0,
            sy_received >= plan.sy_value ==> (old(self).settings matches Some(config)
                ==> warmup_fits(config, plan.state, now)),
        ensures
            final(self).valid(),
            final(self).settings == old(self).settings,
            final(self).lp@ == old(self).lp@,
            result is Err ==> final(self).book == old(self).book,
            sy_received < plan.sy_value ==> result == Err::<i128, Error>(
                Error::InsufficientLiquidity,
            ),
            sy_received >= plan.sy_value ==> match old(self).settings {
                None => result == Err::<i128, Error>(Error::NotInitialized),
                Some(config) => match observed(
                    config,
                    reconciled(plan.state, pt_balance, sy_balance),
                    now,
                    plan.prevailing_ln_rate as int,
                ) {
                    Err(error) => result == Err::<i128, Error>(error),
                    Ok(after) => result == Ok::<i128, Error>(plan.sy_out) && final(self).book == Some(
                        after,
                    ),
                },
            },
    {
        if sy_received < plan.sy_value {
            return Err(Error::InsufficientLiquidity);
        }
        self.settle_and_record(now, plan.state, plan.prevailing_ln_rate, pt_balance, sy_balance)?;
        Ok(plan.sy_out)
    }

    // -- liquidity ----------------------------------------------------------

    /// Plans a deposit of up to `pt_in` PT and `sy_in` SY. The SY rate is read
    /// only by the deposit that opens the market.
    pub fn add_liquidity(
        &self,
        now: u64,
        sy_rate: i128,
        from: u64,
        pt_in: i128,
        sy_in: i128,
        min_lp_out: i128,
    ) -> (result: Result<LiquidityAdded, Error>)
        requires
            self.valid(),
        ensures
            result == self.deposit_plan(
                now,
                sy_rate as int,
                from,
                pt_in as int,
                sy_in as int,
                min_lp_out as int,
            ),
            result matches Ok(plan) ==> plan.state.valid() && plan.lp_out > 0,
    {
        require_bounded_amount_result(pt_in)?;
        require_bounded_amount_result(sy_in)?;
        let config: Config = self.config()?;
        if now >= config.maturity {
            return Err(Error::MarketMatured);
        }
        let state: State = self.state()?;
        let deposit: Deposit = if state.total_lp == 0 {
            seed(&config, &state, now, sy_rate, pt_in, sy_in)?
        } else {
            top_up(&state, pt_in, sy_in)?
        };
        let provider_lp: i128 = checked_add(self.lp.get(from), deposit.lp_out)?;
        if deposit.lp_out < min_lp_out {
            return Err(Error::SlippageExceeded);
        }
        Ok(
            LiquidityAdded {
                provider: from,
                pt_used: deposit.pt_used,
                sy_used: deposit.sy_used,
                lp_out: deposit.lp_out,
                provider_lp,
                state: deposit.state,
            },
        )
    }

    /// Records a deposit with the balances the pool holds once it was paid.
    pub fn record_deposit(&mut self, plan: LiquidityAdded, pt_balance: i128, sy_balance: i128)
        requires
            old(self).valid(),
            old(self).book is Some,
            plan.state.valid(),
            pt_balance >= 0,
            sy_balance >= 0,
        ensures
            final(self).valid(),
            final(self).settings == old(self).settings,
            final(self).book == Some(reconciled(plan.state, pt_balance, sy_balance)),
            final(self).lp@ == old(self).lp@.insert(plan.provider, plan.provider_lp),
    {
        self.lp.set(plan.provider, plan.provider_lp);
        self.book = Some(State { total_pt: pt_balance, total_sy: sy_balance, ..plan.state });
    }

    /// Plans a withdrawal of `lp_in` LP.
    pub fn remove_liquidity(&self, from: u64, lp_in: i128, min_pt_out: i128, min_sy_out: i128) -> (result: Result<
        LiquidityRemoved,
        Error,
    >)
        requires
            self.valid(),
        ensures
            result == self.withdrawal_plan(from, lp_in as int, min_pt_out as int, min_sy_out as int),
            result matches Ok(plan) ==> plan.state.valid() && plan.state.total_lp > 0 && plan.pt_out >= 0
                && plan.sy_out >= 0,
    {
        require_bounded_amount_result(lp_in)?;
        let config: Config = self.config()?;
        let state: State = self.state()?;
        require_seeded_result(&state)?;
        let holder_lp: i128 = self.lp.get(from);
        if lp_in > holder_lp {
            return Err(Error::InsufficientLiquidity);
        }
        if lp_in >= state.total_lp {
            return Err(Error::InsufficientLiquidity);
        }
        let sy_out: i128 = mul_div_down(lp_in, state.total_sy, state.total_lp)?;
        let pt_out: i128 = mul_div_down(lp_in, state.total_pt, state.total_lp)?;
        if sy_out == 0 && pt_out == 0 {
            return Err(Error::InsufficientLiquidity);
        }
        if pt_out < min_pt_out || sy_out < min_sy_out {
            return Err(Error::SlippageExceeded);
        }
        proof {
            lemma_share(lp_in as int, state.total_sy as int, state.total_lp as int);
            lemma_share(lp_in as int, state.total_pt as int, state.total_lp as int);
        }
        Ok(
            LiquidityRemoved {
                provider: from,
                pt_out,
                sy_out,
                provider_lp: holder_lp - lp_in,
                state: State {
                    total_lp: state.total_lp - lp_in,
                    total_sy: state.total_sy - sy_out,
                    total_pt: state.total_pt - pt_out,
                    ..state
                },
            },
        )
    }

    /// Records a withdrawal with the balances the pool holds once it was paid.
    pub fn record_withdrawal(&mut self, plan: LiquidityRemoved, pt_balance: i128, sy_balance: i128)
        requires
            old(self).valid(),
            old(self).book is Some,
            plan.state.valid(),
            pt_balance >= 0,
            sy_balance >= 0,
        ensures
            final(self).valid(),
            final(self).settings == old(self).settings,
            final(self).book == Some(reconciled(plan.state, pt_balance, sy_balance)),
            final(self).lp@ == old(self).lp@.insert(plan.provider, plan.provider_lp),
    {
        self.lp.set(plan.provider, plan.provider_lp);
        self.book = Some(State { total_pt: pt_balance, total_sy: sy_balance, ..plan.state });
    }
}

/// A part's share of a whole, rounded down, is no more than the whole.
proof fn lemma_share(part: int, whole: int, parts: int)
    requires
        0 <= part <= parts,
        0 < parts,
        whole >= 0,
    ensures
        scaled_down(part, whole, parts) matches Ok(share) ==> 0 <= share <= whole && share * parts
            <= part * whole,
{
    lemma_scaled(part, whole, parts);
    lemma_floor(part * whole, parts);
    let share: int = part * whole / parts;
    assert(share <= whole) by (nonlinear_arith)
        requires
            0 <= part <= parts,
            parts > 0,
            whole >= 0,
            parts * share <= part * whole,
    ;
}

// ---------------------------------------------------------------------------
// Laws
// ---------------------------------------------------------------------------

/// Resolving a market gives curve inputs that can price.
proof fn lemma_loaded(market: AmmMarket, now: u64, sy_rate: i128, amount_in: int)
    requires
        market.valid(),
        market.loaded(now, sy_rate as int, amount_in) is Ok,
    ensures
        ({
            let (config, state, comp) = market.loaded(now, sy_rate as int, amount_in)->Ok_0;
            &&& config.valid()
            &&& state.valid()
            &&& state.seeded()
            &&& comp.valid()
            &&& comp.sy_rate == sy_rate
            &&& 0 < amount_in <= MAX_RESERVE_UNITS
        }),
{
    let config = market.settings->Some_0;
    let n: int = config.scalar_root * IMPLIED_RATE_TIME;
    let left: int = config.maturity - now;
    lemma_quot_times(n, left);
    let scalar: int = quot(n, left);
    assert(n > 0 && scalar <= n) by (nonlinear_arith)
        requires
            n == config.scalar_root * 31_536_000,
            config.scalar_root > 0,
            scalar * left <= n,
            left > 0,
    ;
}

/// Selling PT does what its quote said: a quoted sale is refused only for a
/// minimum above the quote or a PT reserve past its bound, pays exactly the quote
/// otherwise, and leaves the pool's balances on record.
pub proof fn law_pt_sale_executes_its_quote(
    market: AmmMarket,
    now: u64,
    sy_rate: i128,
    pt_in: i128,
    min_sy_out: i128,
    pt_balance: i128,
    sy_balance: i128,
)
    requires
        market.valid(),
        market.loaded(now, sy_rate as int, pt_in as int) is Ok,
    ensures
        ({
            let (config, state, comp) = market.loaded(now, sy_rate as int, pt_in as int)->Ok_0;
            let plan = pt_sale_plan(config, state, comp, pt_in as int, min_sy_out as int);
            match sale(config, state, comp, pt_in as int) {
                Err(error) => plan == Err::<Swap, Error>(error),
                Ok(quote) => if quote < min_sy_out {
                    plan == Err::<Swap, Error>(Error::SlippageExceeded)
                } else if state.total_pt + pt_in > MAX_RESERVE_UNITS {
                    plan == Err::<Swap, Error>(Error::InputOutOfBounds)
                } else {
                    plan matches Ok(swap) && {
                        &&& swap.amount_in == pt_in
                        &&& swap.amount_out == quote
                        &&& swap.state.total_pt == state.total_pt + pt_in
                        &&& swap.state.total_sy == state.total_sy - quote
                        &&& swap.state.total_lp == state.total_lp
                        &&& swap.prevailing_ln_rate == state.last_ln_implied_rate
                        &&& observed(
                            config,
                            reconciled(swap.state, pt_balance, sy_balance),
                            now,
                            swap.prevailing_ln_rate as int,
                        ) matches Ok(after) ==> after.total_pt == pt_balance && after.total_sy
                            == sy_balance
                    }
                },
            }
        }),
{
    lemma_loaded(market, now, sy_rate, pt_in as int);
}

/// Buying PT does what its quotes said: a quoted purchase is refused only for a
/// minimum above the quote or an SY reserve past its bound. Otherwise it delivers
/// the quoted PT and takes exactly the quoted cost, which is within the budget:
/// the rest is never taken. The pool's balances end up on record.
pub proof fn law_pt_purchase_executes_its_quote(
    market: AmmMarket,
    now: u64,
    sy_rate: i128,
    sy_in: i128,
    min_pt_out: i128,
    pt_balance: i128,
    sy_balance: i128,
)
    requires
        market.valid(),
        market.loaded(now, sy_rate as int, sy_in as int) is Ok,
    ensures
        ({
            let (config, state, comp) = market.loaded(now, sy_rate as int, sy_in as int)->Ok_0;
            let plan = pt_purchase_plan(config, state, comp, sy_in as int, min_pt_out as int);
            match purchase_for_budget(config, state, comp, sy_in as int) {
                Err(error) => plan == Err::<Swap, Error>(error),
                Ok(quote) => purchase_quote(config, state, comp, quote as int) matches Ok(cost) && 0
                    < cost <= sy_in && if quote < min_pt_out {
                    plan == Err::<Swap, Error>(Error::SlippageExceeded)
                } else if state.total_sy + cost > MAX_RESERVE_UNITS {
                    plan == Err::<Swap, Error>(Error::InputOutOfBounds)
                } else {
                    plan matches Ok(swap) && {
                        &&& swap.amount_in == cost
                        &&& swap.amount_out == quote
                        &&& swap.state.total_pt == state.total_pt - quote
                        &&& swap.state.total_sy == state.total_sy + cost
                        &&& swap.state.total_lp == state.total_lp
                        &&& swap.prevailing_ln_rate == state.last_ln_implied_rate
                        &&& observed(
                            config,
                            reconciled(swap.state, pt_balance, sy_balance),
                            now,
                            swap.prevailing_ln_rate as int,
                        ) matches Ok(after) ==> after.total_pt == pt_balance && after.total_sy
                            == sy_balance
                    }
                },
            }
        }),
{
    let (config, state, comp) = market.loaded(now, sy_rate as int, sy_in as int)->Ok_0;
    lemma_loaded(market, now, sy_rate, sy_in as int);
    if purchase_for_budget(config, state, comp, sy_in as int) is Ok {
        let quote: int = purchase_for_budget(config, state, comp, sy_in as int)->Ok_0 as int;
        law_budget_affords_its_purchase(config, state, comp, sy_in as int);
        law_purchase_costs_at_least_the_curve(config, state, comp, quote);
    }
}

/// Buying YT does what its quotes said: a quoted purchase is refused only for a
/// minimum above the quote or a PT reserve past its bound. Otherwise it delivers
/// the quoted YT and charges exactly the quoted cost: the shares the split takes,
/// rounded up, less what selling that much PT is quoted at. The pool's balances
/// end up on record.
pub proof fn law_yt_purchase_executes_its_quote(
    market: AmmMarket,
    now: u64,
    sy_rate: i128,
    sy_in: i128,
    min_yt_out: i128,
    pt_balance: i128,
    sy_balance: i128,
)
    requires
        market.valid(),
        market.loaded(now, sy_rate as int, sy_in as int) is Ok,
    ensures
        ({
            let (config, state, comp) = market.loaded(now, sy_rate as int, sy_in as int)->Ok_0;
            let plan = yt_purchase_plan(config, state, comp, sy_in as int, min_yt_out as int);
            match yt_for_budget(config, state, comp, sy_in as int) {
                Err(error) => plan == Err::<YtPurchase, Error>(error),
                Ok((quote, cost)) => {
                    &&& market.loaded(now, sy_rate as int, quote as int) == Ok::<
                        (Config, State, Precompute),
                        Error,
                    >((config, state, comp))
                    &&& sale(config, state, comp, quote as int) matches Ok(proceeds) && cost
                        == ceil_div(quote * WAD, sy_rate as int) - proceeds
                    &&& 0 < cost <= sy_in
                    &&& if quote < min_yt_out {
                        plan == Err::<YtPurchase, Error>(Error::SlippageExceeded)
                    } else if state.total_pt + quote > MAX_RESERVE_UNITS {
                        plan == Err::<YtPurchase, Error>(Error::InputOutOfBounds)
                    } else {
                        plan matches Ok(bought) && {
                            &&& bought.yt_out == quote
                            &&& bought.buyer_cost == cost
                            &&& bought.shares_to_split == ceil_div(quote * WAD, sy_rate as int)
                            &&& bought.state.total_pt == state.total_pt + quote
                            &&& bought.state.total_sy == state.total_sy + cost
                                - bought.shares_to_split
                            &&& bought.state.total_lp == state.total_lp
                            &&& bought.prevailing_ln_rate == state.last_ln_implied_rate
                            &&& observed(
                                config,
                                reconciled(bought.state, pt_balance, sy_balance),
                                now,
                                bought.prevailing_ln_rate as int,
                            ) matches Ok(after) ==> after.total_pt == pt_balance && after.total_sy
                                == sy_balance
                        }
                    }
                },
            }
        }),
{
    let (config, state, comp) = market.loaded(now, sy_rate as int, sy_in as int)->Ok_0;
    lemma_loaded(market, now, sy_rate, sy_in as int);
    if yt_for_budget(config, state, comp, sy_in as int) is Ok {
        let quote: int = yt_for_budget(config, state, comp, sy_in as int)->Ok_0.0 as int;
        law_budget_affords_its_yt(config, state, comp, sy_in as int);
        law_yt_quote_is_execution(config, state, comp, quote, sy_in as int);
        lemma_scaled(quote, WAD as int, sy_rate as int);
    }
}

/// A live market's own reserves price at the rate it last implied, wherever PT
/// makes up no more of the pool than it may.
pub proof fn law_live_market_prices_itself(
    market: AmmMarket,
    now: u64,
    sy_rate: i128,
    amount_in: i128,
)
    requires
        market.valid(),
        market.loaded(now, sy_rate as int, amount_in as int) is Ok,
    ensures
        ({
            let (config, state, comp) = market.loaded(now, sy_rate as int, amount_in as int)->Ok_0;
            let (pt, asset) = (state.total_pt as int, comp.total_asset as int);
            proportion(pt, asset, 0) <= MAX_MARKET_PROPORTION ==> {
                &&& anchored(state, comp)
                &&& exchange_rate_result(
                    pt,
                    asset,
                    comp.rate_scalar as int,
                    comp.rate_anchor as int,
                    0,
                ) == rate_from_implied(
                    state.last_ln_implied_rate as int,
                    comp.time_to_expiry as int,
                )
            }
        }),
{
    lemma_loaded(market, now, sy_rate, amount_in as int);
    let (config, state, comp) = market.loaded(now, sy_rate as int, amount_in as int)->Ok_0;
    let share: int = proportion(state.total_pt as int, comp.total_asset as int, 0);
    assert((state.total_pt - 0) * WAD >= 0);
    if share <= MAX_MARKET_PROPORTION {
        lemma_odds(share);
    }
}

/// Buying YT in a live market is leveraged: where an SY share is worth at least
/// one unit and the curve prices a sale of one PT more than the budget has
/// shares, at a share or more even at its worst rate, the quote is for more YT
/// than the budget has shares, at a cost within it. Where the market charges a
/// fee, one more unit of YT does not fit.
pub proof fn law_yt_quote_is_leveraged(market: AmmMarket, now: u64, sy_rate: i128, sy_in: i128)
    requires
        market.valid(),
        market.loaded(now, sy_rate as int, sy_in as int) matches Ok((config, state, comp)) && {
            &&& yt_ceiling(state, comp, sy_in as int) is Ok
            &&& exchange_rate_result(
                state.total_pt as int,
                comp.total_asset as int,
                comp.rate_scalar as int,
                comp.rate_anchor as int,
                -(sy_in + 1),
            ) is Ok
            &&& sale_leg(config, comp, sy_in + 1, worst_rate(comp)) matches Ok(paid) && paid > 0
            &&& config.fee_bps > 0 || yt_cost(config, state, comp, sy_in + 1) > 1
        },
        sy_rate >= WAD,
        sy_in < MAX_RESERVE_UNITS,
    ensures
        ({
            let (config, state, comp) = market.loaded(now, sy_rate as int, sy_in as int)->Ok_0;
            yt_for_budget(config, state, comp, sy_in as int) matches Ok((quote, cost)) && {
                &&& quote > sy_in
                &&& 0 < cost <= sy_in
                &&& yt_probe(config, state, comp, quote as int, sy_in as int) == Ok::<
                    YtBuyProbe,
                    Error,
                >(YtBuyProbe::Affordable(cost))
                &&& config.fee_bps > 0 && quote < MAX_RESERVE_UNITS ==> !(yt_probe(
                    config,
                    state,
                    comp,
                    quote + 1,
                    sy_in as int,
                ) matches Ok(YtBuyProbe::Affordable(_)))
            }
        }),
{
    let (config, state, comp) = market.loaded(now, sy_rate as int, sy_in as int)->Ok_0;
    let (pt, asset) = (state.total_pt as int, comp.total_asset as int);
    lemma_loaded(market, now, sy_rate, sy_in as int);
    assert((pt - 0) * WAD <= (pt - (-(sy_in + 1))) * WAD) by (nonlinear_arith)
        requires
            sy_in > 0,
            WAD > 0,
    ;
    lemma_div_monotone((pt - 0) * WAD, (pt - (-(sy_in + 1))) * WAD, pt + asset);
    law_live_market_prices_itself(market, now, sy_rate, sy_in);
    law_yt_is_leveraged(config, state, comp, sy_in as int);
}

/// Selling YT does what its quote said: a quoted sale is refused only for a
/// minimum above the quote or an SY reserve past its bound, and pays exactly the
/// quote otherwise: what recombining returns, rounded down, less the cost of the
/// PT. The pool's balances end up on record.
pub proof fn law_yt_sale_executes_its_quote(
    market: AmmMarket,
    now: u64,
    sy_rate: i128,
    yt_in: i128,
    min_sy_out: i128,
    pt_balance: i128,
    sy_balance: i128,
)
    requires
        market.valid(),
        market.loaded(now, sy_rate as int, yt_in as int) is Ok,
    ensures
        ({
            let (config, state, comp) = market.loaded(now, sy_rate as int, yt_in as int)->Ok_0;
            let plan = yt_sale_plan(config, state, comp, yt_in as int, min_sy_out as int);
            match yt_sale_quote(config, state, comp, yt_in as int) {
                Err(error) => plan == Err::<YtSale, Error>(error),
                Ok(quote) => purchase_quote(config, state, comp, yt_in as int) matches Ok(cost)
                    && quote == yt_in * WAD / (sy_rate as int) - cost && if quote < min_sy_out {
                    plan == Err::<YtSale, Error>(Error::SlippageExceeded)
                } else if state.total_sy + cost > MAX_RESERVE_UNITS {
                    plan == Err::<YtSale, Error>(Error::InputOutOfBounds)
                } else {
                    plan matches Ok(sold) && {
                        &&& sold.yt_in == yt_in
                        &&& sold.sy_out == quote
                        &&& sold.sy_value == yt_in * WAD / (sy_rate as int)
                        &&& sold.state.total_pt == state.total_pt - yt_in
                        &&& sold.state.total_sy == state.total_sy + cost
                        &&& sold.state.total_lp == state.total_lp
                        &&& sold.prevailing_ln_rate == state.last_ln_implied_rate
                        &&& observed(
                            config,
                            reconciled(sold.state, pt_balance, sy_balance),
                            now,
                            sold.prevailing_ln_rate as int,
                        ) matches Ok(after) ==> after.total_pt == pt_balance && after.total_sy
                            == sy_balance
                    }
                },
            }
        }),
{
    lemma_loaded(market, now, sy_rate, yt_in as int);
    lemma_scaled(yt_in as int, WAD as int, sy_rate as int);
}

/// An observation that spans no time changes nothing: a trade cannot move the
/// average within the instant of an earlier one.
pub proof fn law_no_time_no_observation(config: Config, state: State, now: u64, prevailing: int)
    requires
        now <= state.last_observation,
    ensures
        observed(config, state, now, prevailing) == Ok::<State, Error>(state),
{
}

/// The average never looks at the price a trade leaves behind: two states that
/// differ only in their spot rate are averaged alike, or fail alike. An interval
/// of no length changes nothing; one of a whole window makes the average the rate
/// that prevailed and starts a new warm-up; a shorter one leaves the average
/// between the two rates, to one unit of rounding, and the warm-up as it was.
/// Nothing else moves.
pub proof fn law_average_ignores_new_spot(
    config: Config,
    state: State,
    now: u64,
    prevailing: i128,
    spot: i128,
)
    requires
        config.twap_window > 0,
        state.twap_ln_implied_rate >= 0,
        prevailing >= 0,
        warmup_fits(config, state, now),
    ensures
        ({
            let was = state.twap_ln_implied_rate as int;
            let elapsed = now - state.last_observation;
            let moved = State { last_ln_implied_rate: spot, ..state };
            match (
                observed(config, state, now, prevailing as int),
                observed(config, moved, now, prevailing as int),
            ) {
                (Ok(a), Ok(b)) => {
                    &&& b == (State { last_ln_implied_rate: spot, ..a })
                    &&& a == (State {
                        twap_ln_implied_rate: a.twap_ln_implied_rate,
                        last_observation: a.last_observation,
                        warmup_until: a.warmup_until,
                        ..state
                    })
                    &&& elapsed <= 0 ==> a == state
                    &&& elapsed > 0 ==> a.last_observation == now
                    &&& elapsed >= config.twap_window ==> a.twap_ln_implied_rate == prevailing
                        && a.warmup_until == now + config.twap_window
                    &&& 0 < elapsed < config.twap_window ==> {
                        &&& min_of(was, prevailing as int) - 1 <= a.twap_ln_implied_rate
                        &&& a.twap_ln_implied_rate <= was || a.twap_ln_implied_rate <= prevailing
                        &&& a.warmup_until == state.warmup_until
                    }
                },
                (Err(a), Err(b)) => a == b && 0 < elapsed < config.twap_window,
                _ => false,
            }
        }),
{
    let elapsed: int = now - state.last_observation;
    let window: int = config.twap_window as int;
    if 0 < elapsed < window {
        lemma_weight(elapsed, window);
        lemma_blend(
            state.twap_ln_implied_rate as int,
            prevailing as int,
            elapsed * WAD / window,
        );
    }
}

/// A part of the window is a weight between nothing and the whole.
proof fn lemma_weight(elapsed: int, window: int)
    requires
        0 < elapsed < window,
    ensures
        0 <= elapsed * WAD / window <= WAD,
        window * (elapsed * WAD / window) <= elapsed * WAD,
{
    let w: int = WAD as int;
    let n: int = elapsed * w;
    assert(n >= 0) by (nonlinear_arith)
        requires
            n == elapsed * w,
            elapsed > 0,
            w > 0,
    ;
    lemma_floor(n, window);
    let weight: int = n / window;
    assert(weight <= w) by (nonlinear_arith)
        requires
            n == elapsed * w,
            0 < elapsed < window,
            window * weight <= n,
            w > 0,
    ;
}

/// An observation pulls the average toward the rate that prevailed and never past
/// it, and by no more than the part of the window that went by, to what rounding
/// the two parts down may cost.
pub proof fn law_average_moves_with_time(config: Config, state: State, now: u64, prevailing: int)
    requires
        config.twap_window > 0,
        state.twap_ln_implied_rate >= 0,
        0 <= prevailing <= i128::MAX,
        state.last_observation < now,
        observed(config, state, now, prevailing) is Ok,
    ensures
        ({
            let was = state.twap_ln_implied_rate as int;
            let is = observed(config, state, now, prevailing)->Ok_0.twap_ln_implied_rate as int;
            let elapsed = now - state.last_observation;
            let window = config.twap_window as int;
            &&& was <= prevailing ==> was - 1 <= is <= prevailing
            &&& prevailing <= was ==> prevailing - 1 <= is <= was
            &&& elapsed < window && was <= prevailing ==> (is - was) * window <= (prevailing - was)
                * elapsed
            &&& elapsed < window && prevailing <= was ==> (was - is - 2) * window <= (was
                - prevailing) * elapsed
        }),
{
    let was: int = state.twap_ln_implied_rate as int;
    let elapsed: int = now - state.last_observation;
    let window: int = config.twap_window as int;
    if elapsed < window {
        let w: int = WAD as int;
        let weight: int = elapsed * w / window;
        lemma_weight(elapsed, window);
        lemma_blend(was, prevailing, weight);
        let x: int = was * (w - weight);
        let y: int = prevailing * weight;
        lemma_floor(x, w);
        lemma_floor(y, w);
        let p: int = x / w;
        let q: int = y / w;
        assert(was <= prevailing ==> (p + q - was) * window <= (prevailing - was) * elapsed)
            by (nonlinear_arith)
            requires
                w * p <= x,
                w * q <= y,
                x == was * (w - weight),
                y == prevailing * weight,
                window * weight <= elapsed * w,
                w > 0,
                window > 0,
        ;
        let drop: int = was - (p + q) - 2;
        let gap: int = was - prevailing;
        if prevailing <= was {
            assert(drop * w <= gap * weight) by (nonlinear_arith)
                requires
                    x < w * p + w,
                    y < w * q + w,
                    x == was * (w - weight),
                    y == prevailing * weight,
                    drop == was - (p + q) - 2,
                    gap == was - prevailing,
                    w > 0,
            ;
            assert(drop * window <= gap * elapsed) by (nonlinear_arith)
                requires
                    drop * w <= gap * weight,
                    window * weight <= elapsed * w,
                    gap >= 0,
                    w > 0,
                    window > 0,
            ;
        }
    }
}

/// A deposit never takes more than was offered, and never mints more than its
/// share: for each reserve, the new LP is worth no more than what was paid in.
pub proof fn law_deposit_is_pro_rata(state: State, pt_in: int, sy_in: int)
    requires
        state.valid(),
        state.seeded(),
        0 < pt_in,
        0 < sy_in,
        topping_up(state, pt_in, sy_in) is Ok,
    ensures
        ({
            let deposit = topping_up(state, pt_in, sy_in)->Ok_0;
            &&& 0 < deposit.pt_used <= pt_in
            &&& 0 < deposit.sy_used <= sy_in
            &&& deposit.pt_used * state.total_lp >= state.total_pt * deposit.lp_out
            &&& deposit.sy_used * state.total_lp >= state.total_sy * deposit.lp_out
        }),
{
    let deposit = topping_up(state, pt_in, sy_in)->Ok_0;
    let lp: int = state.total_lp as int;
    lemma_charge(pt_in, state.total_pt as int, lp, deposit.lp_out as int);
    lemma_charge(sy_in, state.total_sy as int, lp, deposit.lp_out as int);
}

proof fn lemma_charge(offered: int, reserve: int, lp: int, minted: int)
    requires
        offered > 0,
        reserve > 0,
        lp > 0,
        minted > 0,
        scaled_down(offered, lp, reserve) matches Ok(most) && minted <= most,
        scaled_up(reserve, minted, lp) is Ok,
    ensures
        ({
            let used = scaled_up(reserve, minted, lp)->Ok_0;
            0 < used <= offered && used * lp >= reserve * minted
        }),
{
    lemma_scaled(offered, lp, reserve);
    lemma_scaled(reserve, minted, lp);
    lemma_floor(offered * lp, reserve);
    lemma_ceil(reserve * minted, lp);
    let most: int = offered * lp / reserve;
    let used: int = scaled_up(reserve, minted, lp)->Ok_0 as int;
    assert(used * lp - lp < reserve * minted <= used * lp);
    assert(0 < used <= offered) by (nonlinear_arith)
        requires
            used * lp - lp < reserve * minted <= used * lp,
            reserve * most <= offered * lp,
            0 < minted <= most,
            reserve > 0,
            lp > 0,
    ;
}

/// A withdrawal pays no more than the LP's share of either reserve.
pub proof fn law_withdrawal_is_pro_rata(
    market: AmmMarket,
    from: u64,
    lp_in: int,
    min_pt_out: int,
    min_sy_out: int,
)
    requires
        market.valid(),
        market.withdrawal_plan(from, lp_in, min_pt_out, min_sy_out) is Ok,
    ensures
        ({
            let plan = market.withdrawal_plan(from, lp_in, min_pt_out, min_sy_out)->Ok_0;
            let state = market.book->Some_0;
            &&& plan.pt_out * state.total_lp <= lp_in * state.total_pt
            &&& plan.sy_out * state.total_lp <= lp_in * state.total_sy
            &&& min_pt_out <= plan.pt_out <= state.total_pt
            &&& min_sy_out <= plan.sy_out <= state.total_sy
        }),
{
    let state = market.book->Some_0;
    lemma_share(lp_in, state.total_pt as int, state.total_lp as int);
    lemma_share(lp_in, state.total_sy as int, state.total_lp as int);
}

/// A recorded deposit keeps every LP unit accounted for: the supply is the sum
/// of the holdings and the locked minimum.
pub proof fn law_deposit_keeps_lp_accounted(
    market: AmmMarket,
    after: AmmMarket,
    plan: LiquidityAdded,
    now: u64,
    sy_rate: int,
    pt_in: int,
    sy_in: int,
    min_lp_out: int,
    pt_balance: i128,
    sy_balance: i128,
)
    requires
        market.valid(),
        market.lp_accounted(),
        market.deposit_plan(now, sy_rate, plan.provider, pt_in, sy_in, min_lp_out) == Ok::<
            LiquidityAdded,
            Error,
        >(plan),
        after.book == Some(reconciled(plan.state, pt_balance, sy_balance)),
        after.lp@ == market.lp@.insert(plan.provider, plan.provider_lp),
    ensures
        after.lp_accounted(),
        after.book->Some_0.total_lp > MINIMUM_LIQUIDITY || market.book->Some_0.total_lp > 0,
{
    lemma_finite(market.lp);
    lemma_total_insert(market.lp@, plan.provider, plan.provider_lp);
    let state: State = market.book->Some_0;
    assert(0 < pt_in * sy_in <= MAX_RESERVE_UNITS * MAX_RESERVE_UNITS) by (nonlinear_arith)
        requires
            0 < pt_in <= MAX_RESERVE_UNITS,
            0 < sy_in <= MAX_RESERVE_UNITS,
    ;
    lemma_isqrt_exists(pt_in * sy_in);
    if state.total_lp != 0 {
        let lp: int = state.total_lp as int;
        let by_pt: int = scaled_down(pt_in, lp, state.total_pt as int)->Ok_0 as int;
        let by_sy: int = scaled_down(sy_in, lp, state.total_sy as int)->Ok_0 as int;
        assert(fits(min_of(by_pt, by_sy)));
    }
}

/// A recorded withdrawal keeps every LP unit accounted for, and never empties
/// the supply.
pub proof fn law_withdrawal_keeps_lp_accounted(
    market: AmmMarket,
    after: AmmMarket,
    plan: LiquidityRemoved,
    lp_in: int,
    min_pt_out: int,
    min_sy_out: int,
    pt_balance: i128,
    sy_balance: i128,
)
    requires
        market.valid(),
        market.lp_accounted(),
        market.withdrawal_plan(plan.provider, lp_in, min_pt_out, min_sy_out) == Ok::<
            LiquidityRemoved,
            Error,
        >(plan),
        after.book == Some(reconciled(plan.state, pt_balance, sy_balance)),
        after.lp@ == market.lp@.insert(plan.provider, plan.provider_lp),
    ensures
        after.lp_accounted(),
        after.book->Some_0.total_lp > 0,
{
    lemma_finite(market.lp);
    lemma_total_insert(market.lp@, plan.provider, plan.provider_lp);
}

/// What a withdrawal pays: of each reserve the shares' part, rounded down, which
/// leaves the reserve, and never both nothing. It is granted exactly to a holder
/// of that many shares that are not all there are, in a market that was seeded,
/// for minimums that are met, where the products are in range.
pub proof fn law_withdrawal_terms(
    market: AmmMarket,
    from: u64,
    lp_in: i128,
    min_pt_out: i128,
    min_sy_out: i128,
    pt_out: int,
    sy_out: int,
)
    requires
        market.valid(),
        market.book matches Some(state) && state.seeded() && {
            &&& pt_out * state.total_lp <= lp_in * state.total_pt < (pt_out + 1) * state.total_lp
            &&& sy_out * state.total_lp <= lp_in * state.total_sy < (sy_out + 1) * state.total_lp
        },
    ensures
        ({
            let state = market.book->0;
            let held = amount(market.lp@, from);
            let result = market.withdrawal_plan(
                from,
                lp_in as int,
                min_pt_out as int,
                min_sy_out as int,
            );
            &&& result is Ok <==> {
                &&& 0 < lp_in <= 1_000_000_000_000_000_000
                &&& lp_in <= held && lp_in < state.total_lp
                &&& lp_in * state.total_pt <= i128::MAX && lp_in * state.total_sy <= i128::MAX
                &&& pt_out > 0 || sy_out > 0
                &&& pt_out >= min_pt_out && sy_out >= min_sy_out
            }
            &&& result matches Ok(plan) ==> {
                &&& plan.provider == from
                &&& plan.pt_out == pt_out
                &&& plan.sy_out == sy_out
                &&& plan.provider_lp == held - lp_in
                &&& plan.state.total_pt == state.total_pt - pt_out
                &&& plan.state.total_sy == state.total_sy - sy_out
                &&& plan.state.total_lp == state.total_lp - lp_in
                &&& plan.state.last_ln_implied_rate == state.last_ln_implied_rate
                &&& plan.state.twap_ln_implied_rate == state.twap_ln_implied_rate
                &&& plan.state.last_observation == state.last_observation
                &&& plan.state.warmup_until == state.warmup_until
            }
        }),
{
    let state = market.book->0;
    if 0 < lp_in < state.total_lp {
        law_scaled_terms(lp_in as int, state.total_pt as int, state.total_lp as int);
        law_scaled_terms(lp_in as int, state.total_sy as int, state.total_lp as int);
        lemma_same_floor(
            lp_in * state.total_pt,
            state.total_lp as int,
            pt_out,
            scaled_down(lp_in as int, state.total_pt as int, state.total_lp as int)->Ok_0 as int,
        );
        lemma_same_floor(
            lp_in * state.total_sy,
            state.total_lp as int,
            sy_out,
            scaled_down(lp_in as int, state.total_sy as int, state.total_lp as int)->Ok_0 as int,
        );
        lemma_share(lp_in as int, state.total_pt as int, state.total_lp as int);
        lemma_share(lp_in as int, state.total_sy as int, state.total_lp as int);
    }
}

/// Two integers that are the same quotient rounded down are equal.
proof fn lemma_same_floor(n: int, d: int, a: int, b: int)
    requires
        d > 0,
        a * d <= n < (a + 1) * d,
    ensures
        b * d <= n < (b + 1) * d ==> a == b,
{
    if b * d <= n < (b + 1) * d {
        assert(a == b) by (nonlinear_arith)
            requires
                d > 0,
                a * d <= n < (a + 1) * d,
                b * d <= n < (b + 1) * d,
        ;
    }
}

/// A deposit goes to its provider: the plan's shares are added to what they hold,
/// and it is made exactly in a live market, for amounts within the reserve bound,
/// where opening or adding to the market is granted, the sum is in range and the
/// minimum is met.
pub proof fn law_deposit_plan_terms(
    market: AmmMarket,
    now: u64,
    sy_rate: i128,
    from: u64,
    pt_in: i128,
    sy_in: i128,
    min_lp_out: i128,
)
    requires
        market.valid(),
        market.settings is Some,
    ensures
        ({
            let state = market.book->0;
            let config = market.settings->0;
            let deposit = if state.total_lp == 0 {
                seeding(config, state, now, sy_rate as int, pt_in as int, sy_in as int)
            } else {
                topping_up(state, pt_in as int, sy_in as int)
            };
            let held = amount(market.lp@, from);
            let result = market.deposit_plan(
                now,
                sy_rate as int,
                from,
                pt_in as int,
                sy_in as int,
                min_lp_out as int,
            );
            &&& result is Ok <==> {
                &&& 0 < pt_in <= 1_000_000_000_000_000_000
                &&& 0 < sy_in <= 1_000_000_000_000_000_000
                &&& now < config.maturity
                &&& deposit is Ok
                &&& fits(held + deposit->Ok_0.lp_out)
                &&& deposit->Ok_0.lp_out >= min_lp_out
            }
            &&& result matches Ok(plan) ==> {
                &&& plan.provider == from
                &&& plan.provider_lp == held + plan.lp_out
                &&& plan.lp_out == deposit->Ok_0.lp_out
                &&& plan.pt_used == deposit->Ok_0.pt_used
                &&& plan.sy_used == deposit->Ok_0.sy_used
                &&& plan.state == deposit->Ok_0.state
            }
        }),
{
}

/// What is recorded with a plan: the pool's own balances as its reserves, and the
/// rest of the plan's state as it is.
pub proof fn law_recorded_reserves(state: State, pt_balance: i128, sy_balance: i128)
    ensures
        ({
            let after = reconciled(state, pt_balance, sy_balance);
            &&& after.total_pt == pt_balance
            &&& after.total_sy == sy_balance
            &&& after.total_lp == state.total_lp
            &&& after.last_ln_implied_rate == state.last_ln_implied_rate
            &&& after.twap_ln_implied_rate == state.twap_ln_implied_rate
            &&& after.last_observation == state.last_observation
            &&& after.warmup_until == state.warmup_until
        }),
{
}

} // verus!
