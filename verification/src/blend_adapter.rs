//! What the library reads of a Blend lending pool: the reserve a market
//! supplies to, the position it holds there, and the conversions between pool
//! shares and the underlying.

use crate::fixed::{
    fits, lemma_floor, lemma_floor_unique, lemma_quot_monotone, lemma_quot_times, quot, quotient,
};
use std::collections::BTreeMap;
use vstd::prelude::*;

verus! {

broadcast use vstd::std_specs::btree::group_btree_axioms;

/// One, in the scale of exchange rates: underlying per share, 18 decimals.
pub const WAD: i128 = 1_000_000_000_000_000_000;

/// One, in the scale the pool keeps its share rate in: 12 decimals.
pub const BLEND_SCALAR_12: i128 = 1_000_000_000_000;

/// The pool's request to supply without making the supply collateral.
pub const REQUEST_SUPPLY: u32 = 0;

/// The pool's request to withdraw a plain supply.
pub const REQUEST_WITHDRAW: u32 = 1;

/// One request to the pool.
#[derive(Clone, Copy, Debug, PartialEq, Eq, Structural)]
pub struct Request {
    pub address: u64,
    pub amount: i128,
    pub request_type: u32,
}

/// An account's shares in the pool, by reserve slot.
#[derive(Clone, Debug)]
pub struct Positions {
    pub collateral: BTreeMap<u32, i128>,
    pub liabilities: BTreeMap<u32, i128>,
    pub supply: BTreeMap<u32, i128>,
}

/// A reserve of the pool.
#[derive(Clone, Copy, Debug, PartialEq, Eq, Structural)]
pub struct Reserve {
    pub asset: u64,
    pub config: ReserveConfig,
    pub data: ReserveData,
    pub scalar: i128,
}

#[derive(Clone, Copy, Debug, PartialEq, Eq, Structural)]
pub struct ReserveConfig {
    pub c_factor: u32,
    pub decimals: u32,
    pub enabled: bool,
    pub index: u32,
    pub l_factor: u32,
    pub max_util: u32,
    pub r_base: u32,
    pub r_one: u32,
    pub r_three: u32,
    pub r_two: u32,
    pub reactivity: u32,
    pub supply_cap: i128,
    pub util: u32,
}

#[derive(Clone, Copy, Debug, PartialEq, Eq, Structural)]
pub struct ReserveData {
    pub b_rate: i128,
    pub b_supply: i128,
    pub backstop_credit: i128,
    pub d_rate: i128,
    pub d_supply: i128,
    pub ir_mod: i128,
    pub last_time: u64,
}

/// A plain supply and the rate its pool shares are worth.
#[derive(Clone, Copy, Debug, PartialEq, Eq, Structural)]
pub struct Holding {
    pub b_tokens: i128,
    pub b_rate: i128,
}

/// The plain supply recorded in a slot: zero where there is none.
pub open spec fn supplied(supply: Map<u32, i128>, index: u32) -> i128 {
    if supply.contains_key(index) {
        supply[index]
    } else {
        0
    }
}

/// The underlying a number of pool shares is worth, where it can be computed.
pub open spec fn assets_value(b_tokens: int, b_rate: int) -> Option<i128> {
    if fits(b_tokens * b_rate) {
        Some(quot(b_tokens * b_rate, 1_000_000_000_000) as i128)
    } else {
        None
    }
}

/// The exchange rate of a share supply against the underlying behind it.
pub open spec fn rate_value(aum: int, sy_supply: int) -> Option<i128> {
    if sy_supply <= 0 {
        Some(1_000_000_000_000_000_000)
    } else if fits(aum * 1_000_000_000_000_000_000) {
        Some(quot(aum * 1_000_000_000_000_000_000, sy_supply) as i128)
    } else {
        None
    }
}

/// The pool shares an amount of underlying buys.
pub open spec fn b_tokens_value(assets: int, b_rate: int) -> Option<i128> {
    if b_rate > 0 && fits(assets * 1_000_000_000_000) {
        Some(quot(assets * 1_000_000_000_000, b_rate) as i128)
    } else {
        None
    }
}

/// Whether a slot is the first that lists an asset.
pub open spec fn first_slot(reserves: Seq<u64>, asset: u64, index: int) -> bool {
    &&& 0 <= index < reserves.len()
    &&& reserves[index] == asset
    &&& forall|earlier: int| 0 <= earlier < index ==> reserves[earlier] != asset
}

impl Request {
    /// A request to supply an amount of an asset.
    pub fn supply(address: u64, amount: i128) -> (request: Self)
        ensures
            request == (Request { address, amount, request_type: 0 }),
    {
        Request { address, amount, request_type: REQUEST_SUPPLY }
    }

    /// A request to withdraw an amount of an asset that was supplied.
    pub fn withdraw(address: u64, amount: i128) -> (request: Self)
        ensures
            request == (Request { address, amount, request_type: 1 }),
    {
        Request { address, amount, request_type: REQUEST_WITHDRAW }
    }

    /// Whether the pool will take the amount from whoever makes the request, so
    /// that the transfer must be authorized along with it.
    pub fn takes_underlying(&self) -> (takes: bool)
        ensures
            takes == (self.request_type == 0),
    {
        self.request_type == REQUEST_SUPPLY
    }
}

impl Positions {
    /// The plain supply in a slot.
    pub fn supplied(&self, index: u32) -> (b_tokens: i128)
        ensures
            b_tokens == supplied(self.supply@, index),
    {
        match self.supply.get(&index) {
            Some(b_tokens) => *b_tokens,
            None => 0,
        }
    }
}

impl Holding {
    /// What an account holds in a slot, at the rate of a reserve.
    pub fn read(positions: &Positions, reserve: &Reserve, index: u32) -> (holding: Self)
        ensures
            holding.b_tokens == supplied(positions.supply@, index),
            holding.b_rate == reserve.data.b_rate,
    {
        Holding { b_tokens: positions.supplied(index), b_rate: reserve.data.b_rate }
    }

    /// What the holding is worth.
    pub open spec fn worth(self) -> Option<i128> {
        assets_value(self.b_tokens as int, self.b_rate as int)
    }

    pub fn assets(&self) -> (assets: Option<i128>)
        ensures
            assets == self.worth(),
    {
        assets_from_b_tokens(self.b_tokens, self.b_rate)
    }
}

/// A quotient of a representable number is representable.
pub proof fn lemma_quot_fits(n: int, d: int)
    requires
        d > 0,
        fits(n),
    ensures
        fits(quot(n, d)),
        n >= 0 ==> 0 <= quot(n, d) <= n,
        n >= 0 ==> quot(n, d) == n / d,
        n <= 0 ==> n <= quot(n, d) <= 0,
{
    lemma_quot_times(n, d);
    if n >= 0 {
        lemma_floor(n, d);
    } else {
        lemma_floor(-n, d);
    }
}

/// The underlying that pool shares are worth at a share rate, rounded toward
/// zero; `None` where the product is out of range.
pub fn assets_from_b_tokens(b_tokens: i128, b_rate: i128) -> (assets: Option<i128>)
    ensures
        assets == assets_value(b_tokens as int, b_rate as int),
{
    match b_tokens.checked_mul(b_rate) {
        Some(product) => {
            proof {
                lemma_quot_fits(product as int, 1_000_000_000_000);
            }
            Some(quotient(product, BLEND_SCALAR_12))
        },
        None => None,
    }
}

/// Underlying per share, rounded toward zero: one where no share is out yet,
/// `None` where the product is out of range.
pub fn derived_exchange_rate(aum: i128, sy_supply: i128) -> (rate: Option<i128>)
    ensures
        rate == rate_value(aum as int, sy_supply as int),
{
    if sy_supply <= 0 {
        return Some(WAD);
    }
    match aum.checked_mul(WAD) {
        Some(product) => {
            proof {
                lemma_quot_fits(product as int, sy_supply as int);
            }
            Some(quotient(product, sy_supply))
        },
        None => None,
    }
}

/// The pool shares that an amount of underlying buys at a share rate, rounded
/// toward zero; `None` where the rate is not positive or the product is out of
/// range.
pub fn b_tokens_from_assets(assets: i128, b_rate: i128) -> (b_tokens: Option<i128>)
    ensures
        b_tokens == b_tokens_value(assets as int, b_rate as int),
{
    if b_rate <= 0 {
        return None;
    }
    match assets.checked_mul(BLEND_SCALAR_12) {
        Some(product) => {
            proof {
                lemma_quot_fits(product as int, b_rate as int);
            }
            Some(quotient(product, b_rate))
        },
        None => None,
    }
}

/// The first slot that lists an asset.
pub fn find_reserve(reserves: &Vec<u64>, asset: u64) -> (slot: Option<u32>)
    requires
        reserves@.len() <= u32::MAX,
    ensures
        match slot {
            Some(index) => first_slot(reserves@, asset, index as int),
            None => !reserves@.contains(asset),
        },
{
    let mut index: u32 = 0;
    while (index as usize) < reserves.len()
        invariant
            index <= reserves@.len() <= u32::MAX,
            forall|earlier: int| 0 <= earlier < index ==> reserves@[earlier] != asset,
        decreases reserves@.len() - index,
    {
        if reserves[index as usize] == asset {
            return Some(index);
        }
        index = index + 1;
    }
    None
}

/// More underlying behind the same shares never lowers the rate.
pub proof fn law_rate_rises_with_assets(aum: int, more: int, sy_supply: int)
    requires
        aum <= more,
        rate_value(aum, sy_supply) is Some,
        rate_value(more, sy_supply) is Some,
    ensures
        rate_value(aum, sy_supply)->0 <= rate_value(more, sy_supply)->0,
{
    if sy_supply > 0 {
        lemma_quot_monotone(
            aum * 1_000_000_000_000_000_000,
            more * 1_000_000_000_000_000_000,
            sy_supply,
        );
        lemma_quot_fits(aum * 1_000_000_000_000_000_000, sy_supply);
        lemma_quot_fits(more * 1_000_000_000_000_000_000, sy_supply);
    }
}

/// A position is worth no less at a higher share rate.
pub proof fn law_interest_only_adds(b_tokens: int, b_rate: int, later: int)
    requires
        b_tokens >= 0,
        b_rate <= later,
        assets_value(b_tokens, b_rate) is Some,
        assets_value(b_tokens, later) is Some,
    ensures
        assets_value(b_tokens, b_rate)->0 <= assets_value(b_tokens, later)->0,
{
    assert(b_tokens * b_rate <= b_tokens * later) by (nonlinear_arith)
        requires
            b_tokens >= 0,
            b_rate <= later,
    ;
    lemma_quot_monotone(b_tokens * b_rate, b_tokens * later, 1_000_000_000_000);
    lemma_quot_fits(b_tokens * b_rate, 1_000_000_000_000);
    lemma_quot_fits(b_tokens * later, 1_000_000_000_000);
}

/// Supplying never credits more than was paid: what the shares bought are worth
/// is at most the underlying they were bought with, and short of it by less
/// than one share is worth.
pub proof fn law_supply_is_not_overcredited(assets: int, b_rate: int)
    requires
        assets >= 0,
        b_tokens_value(assets, b_rate) is Some,
    ensures
        ({
            let b_tokens = b_tokens_value(assets, b_rate)->0 as int;
            &&& b_tokens >= 0
            &&& assets_value(b_tokens, b_rate) is Some
            &&& 0 <= assets_value(b_tokens, b_rate)->0 <= assets
            &&& (assets - assets_value(b_tokens, b_rate)->0 - 1) * 1_000_000_000_000 < b_rate
        }),
{
    let n = assets * 1_000_000_000_000;
    lemma_quot_fits(n, b_rate);
    lemma_floor(n, b_rate);
    let b = n / b_rate;
    assert(0 <= b * b_rate <= n) by (nonlinear_arith)
        requires
            b_rate > 0,
            b >= 0,
            b * b_rate <= n,
    ;
    lemma_quot_fits(b * b_rate, 1_000_000_000_000);
}

/// The valuation and the purchase are inverse where neither rounds: a whole
/// number of pool shares is worth exactly the underlying that buys it.
pub proof fn law_conversions_invert(b_tokens: int, b_rate: int)
    requires
        b_tokens >= 0,
        b_rate > 0,
        fits(b_tokens * b_rate),
        b_tokens * b_rate % 1_000_000_000_000 == 0,
    ensures
        b_tokens_value(assets_value(b_tokens, b_rate)->0 as int, b_rate) == Some(b_tokens as i128),
{
    let product = b_tokens * b_rate;
    assert(0 <= b_tokens <= product) by (nonlinear_arith)
        requires
            b_tokens >= 0,
            b_rate > 0,
            product == b_tokens * b_rate,
    ;
    lemma_quot_fits(product, 1_000_000_000_000);
    let assets = product / 1_000_000_000_000;
    assert(assets * 1_000_000_000_000 == product);
    assert(b_rate * b_tokens == product) by (nonlinear_arith)
        requires
            product == b_tokens * b_rate,
    ;
    lemma_floor_unique(product, b_rate, b_tokens);
}

/// The rate of shares that are out is the underlying per share, rounded down, and
/// is owed wherever the product is in range; where none are out it is one.
pub proof fn law_rate_is_assets_per_share(aum: int, sy_supply: int)
    requires
        aum >= 0,
    ensures
        sy_supply > 0 ==> {
            &&& rate_value(aum, sy_supply) matches Some(rate) ==> rate * sy_supply <= aum
                * 1_000_000_000_000_000_000 < (rate + 1) * sy_supply
            &&& rate_value(aum, sy_supply) is Some <==> aum * 1_000_000_000_000_000_000
                <= i128::MAX
        },
        sy_supply <= 0 ==> rate_value(aum, sy_supply) == Some(1_000_000_000_000_000_000i128),
{
    let n = aum * 1_000_000_000_000_000_000;
    if sy_supply > 0 {
        lemma_floor(n, sy_supply);
        let q = n / sy_supply;
        assert((q + 1) * sy_supply == q * sy_supply + sy_supply) by (nonlinear_arith);
        if fits(n) {
            lemma_quot_fits(n, sy_supply);
        }
    }
}

/// Pool shares are worth their number times the share rate, and an amount buys
/// its quotient by it, each rounded down and owed wherever the product is in
/// range and, to buy, the rate positive.
pub proof fn law_pool_shares_are_priced_at_the_rate(b_tokens: int, assets: int, b_rate: int)
    requires
        b_tokens >= 0,
        assets >= 0,
        b_rate >= 0,
    ensures
        assets_value(b_tokens, b_rate) matches Some(value) ==> value * 1_000_000_000_000 <= b_tokens
            * b_rate < (value + 1) * 1_000_000_000_000,
        assets_value(b_tokens, b_rate) is Some <==> b_tokens * b_rate <= i128::MAX,
        b_tokens_value(assets, b_rate) matches Some(bought) ==> bought * b_rate <= assets
            * 1_000_000_000_000 < (bought + 1) * b_rate,
        b_tokens_value(assets, b_rate) is Some <==> b_rate > 0 && assets * 1_000_000_000_000
            <= i128::MAX,
{
    assert(b_tokens * b_rate >= 0) by (nonlinear_arith)
        requires
            b_tokens >= 0,
            b_rate >= 0,
    ;
    lemma_floor(b_tokens * b_rate, 1_000_000_000_000);
    let n = assets * 1_000_000_000_000;
    if b_rate > 0 {
        lemma_floor(n, b_rate);
        let q = n / b_rate;
        assert((q + 1) * b_rate == q * b_rate + b_rate) by (nonlinear_arith);
        if fits(n) {
            lemma_quot_fits(n, b_rate);
        }
    }
    if fits(b_tokens * b_rate) {
        lemma_quot_fits(b_tokens * b_rate, 1_000_000_000_000);
    }
}

} // verus!
