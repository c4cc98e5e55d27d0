//! What every yield source shares with the vault above it: the errors it may
//! answer with, and the one way a rate may be had from its holdings.

use crate::blend_adapter::lemma_quot_fits;
use crate::fixed::{fits, lemma_floor, lemma_quot_monotone, quot, quotient};
use vstd::prelude::*;

verus! {

/// One, in the scale of exchange rates: underlying per share, 18 decimals.
pub const WAD: i128 = 1_000_000_000_000_000_000;

/// What a strategy may refuse a call with.
#[derive(Clone, Copy, Debug, PartialEq, Eq, Structural)]
pub enum StrategyError {
    AlreadyInitialized,
    NotInitialized,
    /// The amount was zero or negative.
    InvalidAmount,
    /// The caller is not the vault fixed at initialization.
    NotVault,
    MathOverflow,
    /// The yield source rejected or short-filled a withdrawal.
    WithdrawalFailed,
    /// What was delivered is below the caller's floor.
    SlippageExceeded,
    /// The position no longer matches the configuration fixed at
    /// initialization.
    UpstreamMismatch,
    /// The yield source is not accepting deposits.
    UpstreamPaused,
}

/// The rate of a share supply against the assets behind it. Without a share it
/// is one where there are no assets either, and undefined where there are;
/// otherwise it is undefined only where the product is out of range.
pub open spec fn rate_value(total_assets: int, sy_supply: int) -> Option<i128> {
    if sy_supply <= 0 {
        if total_assets <= 0 {
            Some(1_000_000_000_000_000_000)
        } else {
            None
        }
    } else if fits(total_assets * 1_000_000_000_000_000_000) {
        Some(quot(total_assets * 1_000_000_000_000_000_000, sy_supply) as i128)
    } else {
        None
    }
}

/// Assets per share, rounded toward zero.
pub fn derived_exchange_rate(total_assets: i128, sy_supply: i128) -> (rate: Option<i128>)
    ensures
        rate == rate_value(total_assets as int, sy_supply as int),
{
    if sy_supply <= 0 {
        return if total_assets <= 0 {
            Some(WAD)
        } else {
            None
        };
    }
    match total_assets.checked_mul(WAD) {
        Some(product) => {
            proof {
                lemma_quot_fits(product as int, sy_supply as int);
            }
            Some(quotient(product, sy_supply))
        },
        None => None,
    }
}

/// More assets behind the same shares never lower the rate.
pub proof fn law_rate_rises_with_assets(total_assets: int, more: int, sy_supply: int)
    requires
        total_assets <= more,
        rate_value(total_assets, sy_supply) is Some,
        rate_value(more, sy_supply) is Some,
    ensures
        rate_value(total_assets, sy_supply)->0 <= rate_value(more, sy_supply)->0,
{
    if sy_supply > 0 {
        lemma_quot_monotone(
            total_assets * 1_000_000_000_000_000_000,
            more * 1_000_000_000_000_000_000,
            sy_supply,
        );
        lemma_quot_fits(total_assets * 1_000_000_000_000_000_000, sy_supply);
        lemma_quot_fits(more * 1_000_000_000_000_000_000, sy_supply);
    }
}

/// Assets that no share stands for have no rate.
pub proof fn law_unowned_assets_have_no_rate(total_assets: int, sy_supply: int)
    requires
        total_assets > 0,
        sy_supply <= 0,
    ensures
        rate_value(total_assets, sy_supply) is None,
{
}

/// The shares are never valued above the assets: at the rate, all of them
/// together are worth at most what is there.
pub proof fn law_rate_is_covered(total_assets: int, sy_supply: int)
    requires
        total_assets >= 0,
        sy_supply > 0,
        rate_value(total_assets, sy_supply) is Some,
    ensures
        rate_value(total_assets, sy_supply)->0 >= 0,
        rate_value(total_assets, sy_supply)->0 * sy_supply <= total_assets
            * 1_000_000_000_000_000_000,
{
    let n = total_assets * 1_000_000_000_000_000_000;
    lemma_quot_fits(n, sy_supply);
    lemma_floor(n, sy_supply);
}

/// The rate of shares that are out is the assets per share, rounded down, and is
/// owed wherever the product is in range. Where none are out it is one, and only
/// without assets.
pub proof fn law_rate_is_assets_per_share(total_assets: int, sy_supply: int)
    requires
        total_assets >= 0,
    ensures
        sy_supply > 0 ==> {
            &&& rate_value(total_assets, sy_supply) matches Some(rate) ==> rate * sy_supply
                <= total_assets * 1_000_000_000_000_000_000 < (rate + 1) * sy_supply
            &&& rate_value(total_assets, sy_supply) is Some <==> total_assets
                * 1_000_000_000_000_000_000 <= i128::MAX
        },
        sy_supply <= 0 ==> {
            &&& rate_value(total_assets, sy_supply) is Some <==> total_assets == 0
            &&& rate_value(total_assets, sy_supply) matches Some(rate) ==> rate
                == 1_000_000_000_000_000_000
        },
{
    let n = total_assets * 1_000_000_000_000_000_000;
    if sy_supply > 0 {
        lemma_floor(n, sy_supply);
        let q = n / sy_supply;
        assert((q + 1) * sy_supply == q * sy_supply + sy_supply) by (nonlinear_arith);
        if fits(n) {
            lemma_quot_fits(n, sy_supply);
        }
    }
}

} // verus!
