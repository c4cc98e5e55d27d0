//! The yield-source-agnostic vault: shares priced by what one strategy, fixed
//! at initialization, says its position is worth.
//!
//! The rate is derived, never set, and the supply never returns to zero: the
//! first deposit mints a minimum of shares that belong to nobody.

use crate::allowance::{filed, in_force, spent};
pub use crate::allowance::AllowanceValue;
use crate::blend_adapter::lemma_quot_fits;
use crate::fixed::{
    ceil_div, fits, lemma_ceil, lemma_div_monotone, lemma_floor, lemma_quot_reaches,
    lemma_quot_times, quot,
};
use crate::ledger::{
    amount, credited, debited, lemma_credited, lemma_debited, lemma_total_bounds, shifted,
};
use crate::ratio::{
    law_reduction_only_helps, law_scaled_is_the_quotient, law_scaling_by_itself_is_exact,
    lemma_proportion, mul_div, mul_div_ceil, scaled, scaled_ceil,
};
use crate::shares::{accrued_value, carried, lemma_carried, transfer_outcome, Moved, Shares};
use crate::strategy_interface::{
    derived_exchange_rate, law_rate_is_assets_per_share, law_rate_is_covered, rate_value, WAD,
};
use vstd::prelude::*;

verus! {

/// Display decimals.
pub const DECIMALS: u32 = 7;

/// Shares minted to nobody by the first deposit, and never redeemable.
pub const MINIMUM_SHARES: i128 = 1_000;

#[derive(Clone, Copy, Debug, PartialEq, Eq, Structural)]
pub struct Config {
    pub admin: u64,
    pub underlying: u64,
    pub strategy: u64,
}

#[derive(Clone, Copy, Debug, PartialEq, Eq, Structural)]
pub enum Error {
    AlreadyInitialized,
    NotInitialized,
    InvalidAmount,
    InvalidExchangeRate,
    InsufficientBalance,
    MathOverflow,
    InsufficientAllowance,
    InvalidExpiration,
    /// The strategy does not point back at this vault.
    StrategyMismatch,
    /// Less came out than the caller's minimum.
    SlippageExceeded,
    /// The strategy delivered nothing, or less than it reported.
    StrategyDeliveryFailed,
    /// The first deposit must mint more than the locked minimum.
    InitialDepositTooSmall,
    /// The deposit would take the vault past its cap.
    DepositCapExceeded,
    /// The caller is not the administrator.
    NotAdmin,
}

#[derive(Clone, Copy, Debug, PartialEq, Eq, Structural)]
pub struct Deposited {
    pub from: u64,
    pub underlying_in: i128,
    /// What the strategy measured, which is what is minted against.
    pub assets_credited: i128,
    pub sy_out: i128,
    pub rate: i128,
}

#[derive(Clone, Copy, Debug, PartialEq, Eq, Structural)]
pub struct DepositCapSet {
    pub old_cap: i128,
    pub new_cap: i128,
}

#[derive(Clone, Copy, Debug, PartialEq, Eq, Structural)]
pub struct Redeemed {
    pub from: u64,
    pub sy_in: i128,
    pub underlying_out: i128,
    pub rate: i128,
}

/// What the strategy did with a deposit: the increase it measured, and what its
/// position is worth afterwards, which is held against the cap where there is
/// one.
#[derive(Clone, Copy, Debug, PartialEq, Eq, Structural)]
pub struct Credit {
    pub assets_credited: i128,
    pub total_assets: i128,
}

/// A redemption whose shares are burned and whose underlying is still to come.
#[derive(Clone, Copy, Debug, PartialEq, Eq, Structural)]
pub struct Redemption {
    pub from: u64,
    pub sy_amount: i128,
    pub requested: i128,
    pub principal_out: i128,
    pub rate: i128,
}

/// What the strategy said it delivered, and the vault's own balance around the
/// delivery.
#[derive(Clone, Copy, Debug, PartialEq, Eq, Structural)]
pub struct Delivery {
    pub reported: i128,
    pub before: i128,
    pub after: i128,
}

/// What a delivery pays for.
#[derive(Clone, Copy, Debug, PartialEq, Eq, Structural)]
pub struct Filled {
    pub delivered: i128,
    pub burned: i128,
    pub refund_principal: i128,
}

/// One vault.
#[derive(Clone, Debug)]
pub struct SyVaultV2 {
    pub settings: Option<Config>,
    /// The most the strategy's position may be worth after a deposit; zero is
    /// no limit.
    pub cap: i128,
    pub shares: Shares,
}

/// An overflow, or the value.
pub open spec fn checked(value: Option<i128>) -> Result<i128, Error> {
    match value {
        Some(value) => Ok(value),
        None => Err(Error::MathOverflow),
    }
}

fn check_overflow(value: Option<i128>) -> (result: Result<i128, Error>)
    ensures
        result == checked(value),
{
    match value {
        Some(value) => Ok(value),
        None => Err(Error::MathOverflow),
    }
}

/// The shares a depositor gets of what is minted: the first deposit leaves the
/// minimum to nobody.
pub open spec fn allotted(supply: int, minted: int) -> Result<i128, Error> {
    if supply == 0 {
        if minted <= 1_000 {
            Err(Error::InitialDepositTooSmall)
        } else {
            Ok((minted - 1_000) as i128)
        }
    } else if minted <= 0 {
        Err(Error::InvalidAmount)
    } else {
        Ok(minted as i128)
    }
}

/// The shares a delivery pays for: all of them where it is what was asked for,
/// and the least that cover it where it is less.
pub open spec fn burned_for(n: int, requested: int, rate: int, delivered: int) -> Option<i128> {
    if delivered >= requested {
        Some(n as i128)
    } else {
        match scaled_ceil(delivered, 1_000_000_000_000_000_000, rate) {
            None => None,
            Some(proportional) => if proportional < n {
                Some(proportional)
            } else {
                Some(n as i128)
            },
        }
    }
}

/// What a delivery pays for, or why the redemption fails.
pub open spec fn fill(
    redemption: Redemption,
    min_underlying_out: int,
    delivery: Delivery,
) -> Result<Filled, Error> {
    let delivered = delivery.after - delivery.before;
    if !fits(delivered) {
        Err(Error::MathOverflow)
    } else if delivered <= 0 || delivered < delivery.reported {
        Err(Error::StrategyDeliveryFailed)
    } else if delivered < min_underlying_out {
        Err(Error::SlippageExceeded)
    } else {
        match burned_for(
            redemption.sy_amount as int,
            redemption.requested as int,
            redemption.rate as int,
            delivered,
        ) {
            None => Err(Error::MathOverflow),
            Some(burned) => if burned < redemption.sy_amount {
                match scaled(
                    redemption.principal_out as int,
                    redemption.sy_amount - burned,
                    redemption.sy_amount as int,
                ) {
                    None => Err(Error::MathOverflow),
                    Some(refund_principal) => Ok(
                        Filled { delivered: delivered as i128, burned, refund_principal },
                    ),
                }
            } else {
                Ok(Filled { delivered: delivered as i128, burned, refund_principal: 0 })
            },
        }
    }
}

impl Redemption {
    /// Whether the numbers are those of a redemption: something was burned, at
    /// a rate, with its part of the principal.
    pub open spec fn valid(self) -> bool {
        &&& self.sy_amount > 0
        &&& self.rate > 0
        &&& self.principal_out >= 0
    }
}

impl SyVaultV2 {
    /// What every operation keeps: the shares are in order, and once any exist
    /// the locked minimum is among those nobody holds.
    pub open spec fn valid(self) -> bool {
        &&& self.shares.valid()
        &&& self.shares.supply != 0 ==> self.shares.unheld() >= 1_000
        &&& self.cap >= 0
    }

    /// The rate at a valuation of the strategy's position: positive, or there is
    /// none.
    pub open spec fn rate_at(self, total_assets: int) -> Result<i128, Error> {
        if self.settings is None {
            Err(Error::NotInitialized)
        } else {
            match rate_value(total_assets, self.shares.supply as int) {
                Some(rate) => if rate > 0 {
                    Ok(rate)
                } else {
                    Err(Error::InvalidExchangeRate)
                },
                None => if self.shares.supply <= 0 {
                    Err(Error::InvalidExchangeRate)
                } else {
                    Err(Error::MathOverflow)
                },
            }
        }
    }

    /// What a deposit is priced at, or why it is refused before anything moves.
    pub open spec fn deposit_rate(self, n: int, min_sy_out: int, total_assets: int) -> Result<
        i128,
        Error,
    > {
        if n <= 0 || min_sy_out < 0 {
            Err(Error::InvalidAmount)
        } else {
            self.rate_at(total_assets)
        }
    }

    /// What a deposit mints in all, or why it is refused.
    pub open spec fn minted(self, n: int, min_sy_out: int, total_assets: int, credit: Credit) -> Result<
        i128,
        Error,
    > {
        match self.deposit_rate(n, min_sy_out, total_assets) {
            Err(error) => Err(error),
            Ok(rate) => if credit.assets_credited <= 0 {
                Err(Error::StrategyDeliveryFailed)
            } else if self.cap > 0 && credit.total_assets > self.cap {
                Err(Error::DepositCapExceeded)
            } else {
                checked(
                    scaled(
                        credit.assets_credited as int,
                        1_000_000_000_000_000_000,
                        rate as int,
                    ),
                )
            },
        }
    }

    /// The principal a depositor is credited with: the part of the deposit that
    /// went into shares of their own.
    pub open spec fn principal_credit(self, n: int, sy_out: int, minted: int) -> Option<i128> {
        scaled(n, sy_out, minted)
    }

    /// The shares a depositor gets, or why the deposit is refused.
    pub open spec fn deposit_result(
        self,
        from: u64,
        n: int,
        min_sy_out: int,
        total_assets: int,
        credit: Credit,
    ) -> Result<i128, Error> {
        match self.minted(n, min_sy_out, total_assets, credit) {
            Err(error) => Err(error),
            Ok(minted) => match allotted(self.shares.supply as int, minted as int) {
                Err(error) => Err(error),
                Ok(sy_out) => if sy_out < min_sy_out {
                    Err(Error::SlippageExceeded)
                } else {
                    match self.principal_credit(n, sy_out as int, minted as int) {
                        None => Err(Error::MathOverflow),
                        Some(principal) => if !fits(self.shares.supply + minted) || !fits(
                            amount(self.shares.principals@, from) + principal,
                        ) {
                            Err(Error::MathOverflow)
                        } else {
                            Ok(sy_out)
                        },
                    }
                },
            },
        }
    }

    /// The shares a deposit of `n` would give at a valuation, or the refusal
    /// that is certain to meet it.
    pub open spec fn previewed_deposit(self, n: int, total_assets: int) -> Result<i128, Error> {
        if n <= 0 {
            Err(Error::InvalidAmount)
        } else if self.cap > 0 && self.settings is None {
            Err(Error::NotInitialized)
        } else if self.cap > 0 && total_assets >= self.cap {
            Err(Error::DepositCapExceeded)
        } else {
            match self.rate_at(total_assets) {
                Err(error) => Err(error),
                Ok(rate) => match scaled(n, 1_000_000_000_000_000_000, rate as int) {
                    None => Err(Error::MathOverflow),
                    Some(minted) => allotted(self.shares.supply as int, minted as int),
                },
            }
        }
    }

    /// What a redemption burns and asks for, or why it is refused.
    pub open spec fn redemption(
        self,
        from: u64,
        n: int,
        min_underlying_out: int,
        total_assets: int,
    ) -> Result<Redemption, Error> {
        if n <= 0 || min_underlying_out < 0 {
            Err(Error::InvalidAmount)
        } else {
            match self.rate_at(total_assets) {
                Err(error) => Err(error),
                Ok(rate) => if n > amount(self.shares.balances@, from) {
                    Err(Error::InsufficientBalance)
                } else {
                    match scaled(n, rate as int, 1_000_000_000_000_000_000) {
                        None => Err(Error::MathOverflow),
                        Some(requested) => if requested <= 0 {
                            Err(Error::InvalidAmount)
                        } else {
                            match carried(
                                self.shares.balances@,
                                self.shares.principals@,
                                from,
                                n,
                            ) {
                                None => Err(Error::MathOverflow),
                                Some(principal_out) => Ok(
                                    Redemption {
                                        from,
                                        sy_amount: n as i128,
                                        requested,
                                        principal_out,
                                        rate,
                                    },
                                ),
                            }
                        },
                    }
                },
            }
        }
    }

    pub fn new() -> (vault: Self)
        ensures
            vault.settings is None,
            vault.cap == 0,
            vault.shares.supply == 0,
            vault.shares.balances@ == Map::<u64, i128>::empty(),
            vault.shares.principals@ == Map::<u64, i128>::empty(),
            vault.shares.allowances@ == Map::<u128, AllowanceValue>::empty(),
            vault.valid(),
    {
        SyVaultV2 { settings: None, cap: 0, shares: Shares::new() }
    }

    /// Binds the vault to one strategy for good. `this` is the vault's own
    /// address; `strategy_vault` and `strategy_underlying` are what the strategy
    /// answers for its vault and its underlying. The caller has established that
    /// `admin` asked, and that nobody holds a share.
    pub fn initialize(
        &mut self,
        this: u64,
        admin: u64,
        strategy: u64,
        strategy_vault: u64,
        strategy_underlying: u64,
    ) -> (result: Result<(), Error>)
        requires
            old(self).valid(),
            old(self).settings is None ==> old(self).shares.balances@ == Map::<u64, i128>::empty(),
        ensures
            final(self).valid(),
            result == (if old(self).settings is Some {
                Err::<(), Error>(Error::AlreadyInitialized)
            } else if strategy_vault != this {
                Err(Error::StrategyMismatch)
            } else {
                Ok(())
            }),
            result is Ok ==> {
                &&& final(self).settings == Some(
                    Config { admin, underlying: strategy_underlying, strategy },
                )
                &&& final(self).shares.supply == 0
            },
            result is Err ==> {
                &&& final(self).settings == old(self).settings
                &&& final(self).shares.supply == old(self).shares.supply
            },
            final(self).cap == old(self).cap,
            final(self).shares.balances@ == old(self).shares.balances@,
            final(self).shares.principals@ == old(self).shares.principals@,
            final(self).shares.allowances@ == old(self).shares.allowances@,
    {
        if self.settings.is_some() {
            return Err(Error::AlreadyInitialized);
        }
        if strategy_vault != this {
            return Err(Error::StrategyMismatch);
        }
        proof {
            crate::ledger::lemma_total_empty();
        }
        self.settings = Some(Config { admin, underlying: strategy_underlying, strategy });
        self.shares.supply = 0;
        Ok(())
    }

    pub fn config(&self) -> (result: Result<Config, Error>)
        ensures
            result == (match self.settings {
                Some(config) => Ok::<Config, Error>(config),
                None => Err(Error::NotInitialized),
            }),
    {
        match self.settings {
            Some(config) => Ok(config),
            None => Err(Error::NotInitialized),
        }
    }

    /// The strategy behind the vault.
    pub fn strategy(&self) -> (result: Result<u64, Error>)
        ensures
            result == (match self.settings {
                Some(config) => Ok::<u64, Error>(config.strategy),
                None => Err(Error::NotInitialized),
            }),
    {
        let config: Config = self.config()?;
        Ok(config.strategy)
    }

    pub fn underlying(&self) -> (result: Result<u64, Error>)
        ensures
            result == (match self.settings {
                Some(config) => Ok::<u64, Error>(config.underlying),
                None => Err(Error::NotInitialized),
            }),
    {
        let config: Config = self.config()?;
        Ok(config.underlying)
    }

    pub fn deposit_cap(&self) -> (result: Result<i128, Error>)
        ensures
            result == (if self.settings is Some {
                Ok::<i128, Error>(self.cap)
            } else {
                Err(Error::NotInitialized)
            }),
    {
        self.config()?;
        Ok(self.cap)
    }

    /// Raises, lowers or, with zero, removes the cap on deposits. The caller has
    /// established that `admin` asked.
    pub fn set_deposit_cap(&mut self, admin: u64, cap: i128) -> (result: Result<DepositCapSet, Error>)
        requires
            old(self).valid(),
        ensures
            final(self).valid(),
            result == (match old(self).settings {
                None => Err::<DepositCapSet, Error>(Error::NotInitialized),
                Some(config) => if admin != config.admin {
                    Err(Error::NotAdmin)
                } else if cap < 0 {
                    Err(Error::InvalidAmount)
                } else {
                    Ok(DepositCapSet { old_cap: old(self).cap, new_cap: cap })
                },
            }),
            final(self).cap == (if result is Ok {
                cap
            } else {
                old(self).cap
            }),
            final(self).settings == old(self).settings,
            final(self).shares == old(self).shares,
    {
        let config: Config = self.config()?;
        if admin != config.admin {
            return Err(Error::NotAdmin);
        }
        if cap < 0 {
            return Err(Error::InvalidAmount);
        }
        let old_cap: i128 = self.cap;
        self.cap = cap;
        Ok(DepositCapSet { old_cap, new_cap: cap })
    }

    pub fn share_balance(&self, holder: u64) -> (result: Result<i128, Error>)
        ensures
            result == (if self.settings is Some {
                Ok::<i128, Error>(amount(self.shares.balances@, holder))
            } else {
                Err(Error::NotInitialized)
            }),
    {
        self.config()?;
        Ok(self.shares.balances.get(holder))
    }

    pub fn total_shares(&self) -> (result: Result<i128, Error>)
        ensures
            result == (if self.settings is Some {
                Ok::<i128, Error>(self.shares.supply)
            } else {
                Err(Error::NotInitialized)
            }),
    {
        self.config()?;
        Ok(self.shares.supply)
    }

    pub fn balance(&self, id: u64) -> (held: i128)
        ensures
            held == amount(self.shares.balances@, id),
    {
        self.shares.balances.get(id)
    }

    pub fn total_supply(&self) -> (supply: i128)
        ensures
            supply == self.shares.supply,
    {
        self.shares.supply
    }

    pub fn decimals(&self) -> (decimals: u32)
        ensures
            decimals == 7,
    {
        DECIMALS
    }

    pub fn name(&self) -> (name: &'static str)
        ensures
            name@ == "Sidereal Standardized Yield"@,
    {
        "Sidereal Standardized Yield"
    }

    pub fn symbol(&self) -> (symbol: &'static str)
        ensures
            symbol@ == "sSY"@,
    {
        "sSY"
    }

    pub fn allowance(&self, ledger: u32, from: u64, spender: u64) -> (allowed: i128)
        ensures
            allowed == in_force(self.shares.allowances@, ledger, from, spender).amount,
    {
        self.shares.allowances.get(ledger, from, spender).amount
    }

    /// Sets an allowance. The caller has established that `from` asked.
    pub fn approve(
        &mut self,
        ledger: u32,
        from: u64,
        spender: u64,
        n: i128,
        expiration_ledger: u32,
    ) -> (result: Result<(), Error>)
        ensures
            result == (if n < 0 {
                Err::<(), Error>(Error::InvalidAmount)
            } else if n > 0 && expiration_ledger < ledger {
                Err(Error::InvalidExpiration)
            } else {
                Ok(())
            }),
            final(self).shares.allowances@ == (if result is Ok {
                filed(
                    old(self).shares.allowances@,
                    from,
                    spender,
                    AllowanceValue { amount: n, expiration_ledger },
                )
            } else {
                old(self).shares.allowances@
            }),
            final(self).settings == old(self).settings,
            final(self).cap == old(self).cap,
            final(self).shares.supply == old(self).shares.supply,
            final(self).shares.balances@ == old(self).shares.balances@,
            final(self).shares.principals@ == old(self).shares.principals@,
    {
        if n < 0 {
            return Err(Error::InvalidAmount);
        }
        if n > 0 && expiration_ledger < ledger {
            return Err(Error::InvalidExpiration);
        }
        self.shares.allowances.set(from, spender, AllowanceValue { amount: n, expiration_ledger });
        Ok(())
    }

    fn move_balance(&mut self, from: u64, to: u64, n: i128) -> (result: Result<(), Error>)
        requires
            old(self).valid(),
            n > 0,
        ensures
            final(self).valid(),
            final(self).shares.unheld() == old(self).shares.unheld(),
            final(self).settings == old(self).settings,
            final(self).cap == old(self).cap,
            final(self).shares.supply == old(self).shares.supply,
            final(self).shares.allowances@ == old(self).shares.allowances@,
            result == (match transfer_outcome(
                old(self).shares.balances@,
                old(self).shares.principals@,
                from,
                to,
                n as int,
            ) {
                Moved::Done => Ok::<(), Error>(()),
                Moved::Short => Err(Error::InsufficientBalance),
                Moved::Overflow => Err(Error::MathOverflow),
            }),
            result is Ok ==> {
                &&& final(self).shares.balances@ == shifted(
                    old(self).shares.balances@,
                    from,
                    to,
                    n as int,
                )
                &&& final(self).shares.principals@ == shifted(
                    old(self).shares.principals@,
                    from,
                    to,
                    carried(
                        old(self).shares.balances@,
                        old(self).shares.principals@,
                        from,
                        n as int,
                    )->0 as int,
                )
            },
            result is Err ==> {
                &&& final(self).shares.balances@ == old(self).shares.balances@
                &&& final(self).shares.principals@ == old(self).shares.principals@
            },
    {
        match self.shares.transfer(from, to, n) {
            Moved::Done => Ok(()),
            Moved::Short => Err(Error::InsufficientBalance),
            Moved::Overflow => Err(Error::MathOverflow),
        }
    }

    /// Moves shares, and with them their part of the principal. The caller has
    /// established that `from` asked.
    pub fn transfer(&mut self, from: u64, to: u64, n: i128) -> (result: Result<(), Error>)
        requires
            old(self).valid(),
        ensures
            final(self).valid(),
            final(self).shares.unheld() == old(self).shares.unheld(),
            final(self).settings == old(self).settings,
            final(self).cap == old(self).cap,
            final(self).shares.supply == old(self).shares.supply,
            final(self).shares.allowances@ == old(self).shares.allowances@,
            result == (if n <= 0 {
                Err::<(), Error>(Error::InvalidAmount)
            } else {
                match transfer_outcome(
                    old(self).shares.balances@,
                    old(self).shares.principals@,
                    from,
                    to,
                    n as int,
                ) {
                    Moved::Done => Ok(()),
                    Moved::Short => Err(Error::InsufficientBalance),
                    Moved::Overflow => Err(Error::MathOverflow),
                }
            }),
            result is Ok ==> {
                &&& final(self).shares.balances@ == shifted(
                    old(self).shares.balances@,
                    from,
                    to,
                    n as int,
                )
                &&& final(self).shares.principals@ == shifted(
                    old(self).shares.principals@,
                    from,
                    to,
                    carried(
                        old(self).shares.balances@,
                        old(self).shares.principals@,
                        from,
                        n as int,
                    )->0 as int,
                )
            },
            result is Err ==> {
                &&& final(self).shares.balances@ == old(self).shares.balances@
                &&& final(self).shares.principals@ == old(self).shares.principals@
            },
    {
        if n <= 0 {
            return Err(Error::InvalidAmount);
        }
        self.move_balance(from, to, n)
    }

    /// Moves shares out of an allowance. The caller has established that
    /// `spender` asked.
    pub fn transfer_from(&mut self, ledger: u32, spender: u64, from: u64, to: u64, n: i128) -> (result:
        Result<(), Error>)
        requires
            old(self).valid(),
        ensures
            final(self).valid(),
            final(self).shares.unheld() == old(self).shares.unheld(),
            final(self).settings == old(self).settings,
            final(self).cap == old(self).cap,
            final(self).shares.supply == old(self).shares.supply,
            result == (if n <= 0 {
                Err::<(), Error>(Error::InvalidAmount)
            } else if in_force(old(self).shares.allowances@, ledger, from, spender).amount < n {
                Err(Error::InsufficientAllowance)
            } else {
                match transfer_outcome(
                    old(self).shares.balances@,
                    old(self).shares.principals@,
                    from,
                    to,
                    n as int,
                ) {
                    Moved::Done => Ok(()),
                    Moved::Short => Err(Error::InsufficientBalance),
                    Moved::Overflow => Err(Error::MathOverflow),
                }
            }),
            result is Ok ==> {
                &&& final(self).shares.balances@ == shifted(
                    old(self).shares.balances@,
                    from,
                    to,
                    n as int,
                )
                &&& final(self).shares.principals@ == shifted(
                    old(self).shares.principals@,
                    from,
                    to,
                    carried(
                        old(self).shares.balances@,
                        old(self).shares.principals@,
                        from,
                        n as int,
                    )->0 as int,
                )
                &&& final(self).shares.allowances@ == spent(
                    old(self).shares.allowances@,
                    ledger,
                    from,
                    spender,
                    n as int,
                )
            },
            result is Err ==> {
                &&& final(self).shares.balances@ == old(self).shares.balances@
                &&& final(self).shares.principals@ == old(self).shares.principals@
                &&& final(self).shares.allowances@ == old(self).shares.allowances@
            },
    {
        if n <= 0 {
            return Err(Error::InvalidAmount);
        }
        if self.allowance(ledger, from, spender) < n {
            return Err(Error::InsufficientAllowance);
        }
        self.move_balance(from, to, n)?;
        self.shares.allowances.spend(ledger, from, spender, n);
        Ok(())
    }

    /// Assets per share, at what the strategy says its position is worth.
    pub fn exchange_rate(&self, total_assets: i128) -> (result: Result<i128, Error>)
        ensures
            result == self.rate_at(total_assets as int),
    {
        self.config()?;
        let supply: i128 = self.shares.supply;
        match derived_exchange_rate(total_assets, supply) {
            Some(rate) if rate > 0 => Ok(rate),
            Some(_) => Err(Error::InvalidExchangeRate),
            None if supply <= 0 => Err(Error::InvalidExchangeRate),
            None => Err(Error::MathOverflow),
        }
    }

    /// What a holder's shares are worth above what was paid in for them.
    pub fn accrued_yield(&self, holder: u64, total_assets: i128) -> (result: Result<i128, Error>)
        requires
            self.valid(),
        ensures
            result == (match self.rate_at(total_assets as int) {
                Err(error) => Err::<i128, Error>(error),
                Ok(rate) => checked(
                    accrued_value(
                        amount(self.shares.balances@, holder) as int,
                        rate as int,
                        amount(self.shares.principals@, holder) as int,
                    ),
                ),
            }),
    {
        let rate: i128 = self.exchange_rate(total_assets)?;
        check_overflow(self.shares.accrued(holder, rate))
    }

    /// The shares of a deposit that go to the depositor.
    fn allot(&self, minted: i128) -> (result: Result<i128, Error>)
        ensures
            result == allotted(self.shares.supply as int, minted as int),
    {
        if self.shares.supply == 0 {
            if minted <= MINIMUM_SHARES {
                return Err(Error::InitialDepositTooSmall);
            }
            Ok(minted - MINIMUM_SHARES)
        } else {
            if minted <= 0 {
                return Err(Error::InvalidAmount);
            }
            Ok(minted)
        }
    }

    /// The shares a deposit would give, leaving out what the strategy may round
    /// off. It refuses, with the same error, whatever `deposit` is certain to
    /// refuse.
    pub fn preview_deposit(&self, n: i128, total_assets: i128) -> (result: Result<i128, Error>)
        ensures
            result == self.previewed_deposit(n as int, total_assets as int),
    {
        if n <= 0 {
            return Err(Error::InvalidAmount);
        }
        if self.cap > 0 {
            self.config()?;
            if total_assets >= self.cap {
                return Err(Error::DepositCapExceeded);
            }
        }
        let rate: i128 = self.exchange_rate(total_assets)?;
        let minted: i128 = check_overflow(mul_div(n, WAD, rate))?;
        self.allot(minted)
    }

    /// The underlying a redemption would ask for, before any limit on what the
    /// strategy can pay.
    pub fn preview_redeem(&self, n: i128, total_assets: i128) -> (result: Result<i128, Error>)
        ensures
            result == (if n <= 0 {
                Err::<i128, Error>(Error::InvalidAmount)
            } else {
                match self.rate_at(total_assets as int) {
                    Err(error) => Err(error),
                    Ok(rate) => checked(scaled(n as int, rate as int, 1_000_000_000_000_000_000)),
                }
            }),
    {
        if n <= 0 {
            return Err(Error::InvalidAmount);
        }
        let rate: i128 = self.exchange_rate(total_assets)?;
        check_overflow(mul_div(n, rate, WAD))
    }

    /// The checks made before the strategy is asked for its valuation.
    pub fn check_request(n: i128, min_out: i128) -> (result: Result<(), Error>)
        ensures
            result == (if n <= 0 || min_out < 0 {
                Err::<(), Error>(Error::InvalidAmount)
            } else {
                Ok(())
            }),
    {
        if n <= 0 {
            return Err(Error::InvalidAmount);
        }
        if min_out < 0 {
            return Err(Error::InvalidAmount);
        }
        Ok(())
    }

    /// Prices a deposit before its underlying moves.
    pub fn begin_deposit(&self, n: i128, min_sy_out: i128, total_assets: i128) -> (result: Result<
        i128,
        Error,
    >)
        ensures
            result == self.deposit_rate(n as int, min_sy_out as int, total_assets as int),
    {
        Self::check_request(n, min_sy_out)?;
        self.exchange_rate(total_assets)
    }

    /// Mints for a deposit that the strategy has taken in: against the increase
    /// it measured, at the rate before it. `total_assets` is the valuation
    /// before the strategy was called. The caller has established that `from`
    /// asked.
    pub fn deposit(
        &mut self,
        from: u64,
        n: i128,
        min_sy_out: i128,
        total_assets: i128,
        credit: Credit,
    ) -> (result: Result<Deposited, Error>)
        requires
            old(self).valid(),
        ensures
            final(self).valid(),
            final(self).settings == old(self).settings,
            final(self).cap == old(self).cap,
            final(self).shares.allowances@ == old(self).shares.allowances@,
            match old(self).deposit_result(
                from,
                n as int,
                min_sy_out as int,
                total_assets as int,
                credit,
            ) {
                Err(error) => {
                    &&& result == Err::<Deposited, Error>(error)
                    &&& final(self).shares.supply == old(self).shares.supply
                    &&& final(self).shares.balances@ == old(self).shares.balances@
                    &&& final(self).shares.principals@ == old(self).shares.principals@
                },
                Ok(sy_out) => {
                    let minted = old(self).minted(
                        n as int,
                        min_sy_out as int,
                        total_assets as int,
                        credit,
                    )->Ok_0;
                    &&& result == Ok::<Deposited, Error>(
                        Deposited {
                            from,
                            underlying_in: n,
                            assets_credited: credit.assets_credited,
                            sy_out,
                            rate: old(self).rate_at(total_assets as int)->Ok_0,
                        },
                    )
                    &&& final(self).shares.supply == old(self).shares.supply + minted
                    &&& final(self).shares.balances@ == credited(
                        old(self).shares.balances@,
                        from,
                        sy_out as int,
                    )
                    &&& final(self).shares.principals@ == credited(
                        old(self).shares.principals@,
                        from,
                        old(self).principal_credit(n as int, sy_out as int, minted as int)->0 as int,
                    )
                },
            },
    {
        let rate: i128 = self.begin_deposit(n, min_sy_out, total_assets)?;
        if credit.assets_credited <= 0 {
            return Err(Error::StrategyDeliveryFailed);
        }
        if self.cap > 0 && credit.total_assets > self.cap {
            return Err(Error::DepositCapExceeded);
        }
        let minted: i128 = check_overflow(mul_div(credit.assets_credited, WAD, rate))?;
        let sy_out: i128 = self.allot(minted)?;
        if sy_out < min_sy_out {
            return Err(Error::SlippageExceeded);
        }
        let principal: i128 = check_overflow(mul_div(n, sy_out, minted))?;
        proof {
            lemma_proportion(n as int, sy_out as int, minted as int);
            lemma_total_bounds(self.shares.balances@, from, from);
            lemma_total_bounds(self.shares.principals@, from, from);
        }
        let supply: i128 = check_overflow(self.shares.supply.checked_add(minted))?;
        let paid_in: i128 = check_overflow(
            self.shares.principals.get(from).checked_add(principal),
        )?;
        proof {
            lemma_credited(self.shares.balances@, from, sy_out as int);
            lemma_credited(self.shares.principals@, from, principal as int);
        }
        let balance: i128 = self.shares.balances.get(from);
        self.shares.balances.set(from, balance + sy_out);
        self.shares.principals.set(from, paid_in);
        self.shares.supply = supply;
        Ok(
            Deposited {
                from,
                underlying_in: n,
                assets_credited: credit.assets_credited,
                sy_out,
                rate,
            },
        )
    }

    /// What a redemption burns and asks for.
    fn plan_redeem(
        &self,
        from: u64,
        n: i128,
        min_underlying_out: i128,
        total_assets: i128,
    ) -> (result: Result<Redemption, Error>)
        requires
            self.valid(),
        ensures
            result == self.redemption(
                from,
                n as int,
                min_underlying_out as int,
                total_assets as int,
            ),
    {
        Self::check_request(n, min_underlying_out)?;
        let rate: i128 = self.exchange_rate(total_assets)?;
        if n > self.shares.balances.get(from) {
            return Err(Error::InsufficientBalance);
        }
        let requested: i128 = check_overflow(mul_div(n, rate, WAD))?;
        if requested <= 0 {
            return Err(Error::InvalidAmount);
        }
        let principal_out: i128 = check_overflow(self.shares.principal_of(from, n))?;
        Ok(Redemption { from, sy_amount: n, requested, principal_out, rate })
    }

    /// Burns a whole redemption before the strategy is called, so that the
    /// holder has nothing left while it runs. The caller has established that
    /// `from` asked.
    pub fn begin_redeem(
        &mut self,
        from: u64,
        n: i128,
        min_underlying_out: i128,
        total_assets: i128,
    ) -> (result: Result<Redemption, Error>)
        requires
            old(self).valid(),
        ensures
            final(self).valid(),
            final(self).shares.unheld() == old(self).shares.unheld(),
            final(self).settings == old(self).settings,
            final(self).cap == old(self).cap,
            final(self).shares.allowances@ == old(self).shares.allowances@,
            result == old(self).redemption(
                from,
                n as int,
                min_underlying_out as int,
                total_assets as int,
            ),
            match result {
                Ok(redemption) => {
                    &&& redemption.valid()
                    &&& final(self).shares.supply == old(self).shares.supply - n
                    &&& final(self).shares.supply >= 1_000
                    &&& final(self).shares.balances@ == debited(
                        old(self).shares.balances@,
                        from,
                        n as int,
                    )
                    &&& final(self).shares.principals@ == debited(
                        old(self).shares.principals@,
                        from,
                        redemption.principal_out as int,
                    )
                },
                Err(_) => {
                    &&& final(self).shares.supply == old(self).shares.supply
                    &&& final(self).shares.balances@ == old(self).shares.balances@
                    &&& final(self).shares.principals@ == old(self).shares.principals@
                },
            },
    {
        let redemption: Redemption = self.plan_redeem(from, n, min_underlying_out, total_assets)?;
        proof {
            lemma_total_bounds(self.shares.balances@, from, from);
            lemma_total_bounds(self.shares.principals@, from, from);
            lemma_carried(self.shares.balances@, self.shares.principals@, from, n as int);
            lemma_debited(self.shares.balances@, from, n as int);
            lemma_debited(self.shares.principals@, from, redemption.principal_out as int);
        }
        let held: i128 = self.shares.balances.get(from);
        let paid_in: i128 = self.shares.principals.get(from);
        self.shares.balances.set(from, held - n);
        self.shares.principals.set(from, paid_in - redemption.principal_out);
        self.shares.supply = self.shares.supply - n;
        Ok(redemption)
    }

    /// What a delivery pays for, going by the vault's own balance and not by
    /// what the strategy said.
    fn measure_delivery(redemption: &Redemption, min_underlying_out: i128, delivery: &Delivery) -> (result:
        Result<Filled, Error>)
        requires
            redemption.valid(),
        ensures
            result == fill(*redemption, min_underlying_out as int, *delivery),
            match result {
                Ok(filled) => {
                    &&& 0 <= filled.burned <= redemption.sy_amount
                    &&& 0 <= filled.refund_principal <= redemption.principal_out
                    &&& filled.burned == redemption.sy_amount ==> filled.refund_principal == 0
                },
                Err(_) => true,
            },
    {
        let delivered: i128 = check_overflow(delivery.after.checked_sub(delivery.before))?;
        if delivered <= 0 || delivered < delivery.reported {
            return Err(Error::StrategyDeliveryFailed);
        }
        if delivered < min_underlying_out {
            return Err(Error::SlippageExceeded);
        }
        let burned: i128 = if delivered >= redemption.requested {
            redemption.sy_amount
        } else {
            proof {
                lemma_ceil(delivered * 1_000_000_000_000_000_000, redemption.rate as int);
            }
            let proportional: i128 = check_overflow(mul_div_ceil(delivered, WAD, redemption.rate))?;
            if proportional < redemption.sy_amount {
                proportional
            } else {
                redemption.sy_amount
            }
        };
        proof {
            lemma_proportion(
                redemption.principal_out as int,
                redemption.sy_amount - burned,
                redemption.sy_amount as int,
            );
        }
        if burned < redemption.sy_amount {
            let refund_principal: i128 = check_overflow(
                mul_div(
                    redemption.principal_out,
                    redemption.sy_amount - burned,
                    redemption.sy_amount,
                ),
            )?;
            Ok(Filled { delivered, burned, refund_principal })
        } else {
            Ok(Filled { delivered, burned, refund_principal: 0 })
        }
    }

    /// Settles a redemption once the strategy has delivered: the shares the
    /// delivery paid for stay burned, and the rest goes back to the holder.
    pub fn finish_redeem(
        &mut self,
        redemption: &Redemption,
        min_underlying_out: i128,
        delivery: &Delivery,
    ) -> (result: Result<Redeemed, Error>)
        requires
            old(self).valid(),
            old(self).shares.supply > 0,
            redemption.valid(),
        ensures
            final(self).valid(),
            final(self).shares.unheld() == old(self).shares.unheld(),
            final(self).settings == old(self).settings,
            final(self).cap == old(self).cap,
            final(self).shares.allowances@ == old(self).shares.allowances@,
            match fill(*redemption, min_underlying_out as int, *delivery) {
                Err(error) => {
                    &&& result == Err::<Redeemed, Error>(error)
                    &&& final(self).shares.supply == old(self).shares.supply
                    &&& final(self).shares.balances@ == old(self).shares.balances@
                    &&& final(self).shares.principals@ == old(self).shares.principals@
                },
                Ok(filled) => {
                    let refund = redemption.sy_amount - filled.burned;
                    if refund > 0 && (!fits(old(self).shares.supply + refund) || !fits(
                        amount(old(self).shares.principals@, redemption.from)
                            + filled.refund_principal,
                    )) {
                        &&& result == Err::<Redeemed, Error>(Error::MathOverflow)
                        &&& final(self).shares.supply == old(self).shares.supply
                        &&& final(self).shares.balances@ == old(self).shares.balances@
                        &&& final(self).shares.principals@ == old(self).shares.principals@
                    } else {
                        &&& result == Ok::<Redeemed, Error>(
                            Redeemed {
                                from: redemption.from,
                                sy_in: filled.burned,
                                underlying_out: filled.delivered,
                                rate: redemption.rate,
                            },
                        )
                        &&& final(self).shares.supply == old(self).shares.supply + refund
                        &&& final(self).shares.balances@ == (if refund > 0 {
                            credited(old(self).shares.balances@, redemption.from, refund)
                        } else {
                            old(self).shares.balances@
                        })
                        &&& final(self).shares.principals@ == (if refund > 0 {
                            credited(
                                old(self).shares.principals@,
                                redemption.from,
                                filled.refund_principal as int,
                            )
                        } else {
                            old(self).shares.principals@
                        })
                    }
                },
            },
    {
        let filled: Filled = Self::measure_delivery(redemption, min_underlying_out, delivery)?;
        let from: u64 = redemption.from;
        if filled.burned < redemption.sy_amount {
            let refund: i128 = redemption.sy_amount - filled.burned;
            proof {
                lemma_total_bounds(self.shares.balances@, from, from);
                lemma_total_bounds(self.shares.principals@, from, from);
            }
            let supply: i128 = check_overflow(self.shares.supply.checked_add(refund))?;
            let paid_in: i128 = check_overflow(
                self.shares.principals.get(from).checked_add(filled.refund_principal),
            )?;
            proof {
                lemma_credited(self.shares.balances@, from, refund as int);
                lemma_credited(self.shares.principals@, from, filled.refund_principal as int);
            }
            let held: i128 = self.shares.balances.get(from);
            self.shares.balances.set(from, held + refund);
            self.shares.principals.set(from, paid_in);
            self.shares.supply = supply;
        }
        Ok(
            Redeemed {
                from,
                sy_in: filled.burned,
                underlying_out: filled.delivered,
                rate: redemption.rate,
            },
        )
    }

    /// Redeems shares against a delivery in one step: nothing changes where it
    /// is refused. `total_assets` is the valuation the redemption was priced at.
    pub fn redeem(
        &mut self,
        from: u64,
        n: i128,
        min_underlying_out: i128,
        total_assets: i128,
        delivery: &Delivery,
    ) -> (result: Result<Redeemed, Error>)
        requires
            old(self).valid(),
        ensures
            final(self).valid(),
            final(self).shares.unheld() == old(self).shares.unheld(),
            final(self).settings == old(self).settings,
            final(self).cap == old(self).cap,
            final(self).shares.allowances@ == old(self).shares.allowances@,
            match old(self).redeem_result(
                from,
                n as int,
                min_underlying_out as int,
                total_assets as int,
                *delivery,
            ) {
                Err(error) => {
                    &&& result == Err::<Redeemed, Error>(error)
                    &&& final(self).shares.supply == old(self).shares.supply
                    &&& final(self).shares.balances@ == old(self).shares.balances@
                    &&& final(self).shares.principals@ == old(self).shares.principals@
                },
                Ok((redemption, filled)) => {
                    &&& result == Ok::<Redeemed, Error>(
                        Redeemed {
                            from,
                            sy_in: filled.burned,
                            underlying_out: filled.delivered,
                            rate: redemption.rate,
                        },
                    )
                    &&& final(self).shares.supply == old(self).shares.supply - filled.burned
                    &&& final(self).shares.supply >= 1_000
                    &&& final(self).shares.balances@ == debited(
                        old(self).shares.balances@,
                        from,
                        filled.burned as int,
                    )
                    &&& final(self).shares.principals@ == debited(
                        old(self).shares.principals@,
                        from,
                        redemption.principal_out - filled.refund_principal,
                    )
                },
            },
    {
        let redemption: Redemption = self.plan_redeem(from, n, min_underlying_out, total_assets)?;
        proof {
            lemma_total_bounds(self.shares.balances@, from, from);
            lemma_total_bounds(self.shares.principals@, from, from);
            lemma_carried(self.shares.balances@, self.shares.principals@, from, n as int);
        }
        let filled: Filled = Self::measure_delivery(&redemption, min_underlying_out, delivery)?;
        let principal: i128 = redemption.principal_out - filled.refund_principal;
        proof {
            lemma_debited(self.shares.balances@, from, filled.burned as int);
            lemma_debited(self.shares.principals@, from, principal as int);
        }
        let held: i128 = self.shares.balances.get(from);
        let paid_in: i128 = self.shares.principals.get(from);
        self.shares.balances.set(from, held - filled.burned);
        self.shares.principals.set(from, paid_in - principal);
        self.shares.supply = self.shares.supply - filled.burned;
        Ok(
            Redeemed {
                from,
                sy_in: filled.burned,
                underlying_out: filled.delivered,
                rate: redemption.rate,
            },
        )
    }

    /// What a redemption burns, asks for and is paid, or why it is refused.
    pub open spec fn redeem_result(
        self,
        from: u64,
        n: int,
        min_underlying_out: int,
        total_assets: int,
        delivery: Delivery,
    ) -> Result<(Redemption, Filled), Error> {
        match self.redemption(from, n, min_underlying_out, total_assets) {
            Err(error) => Err(error),
            Ok(redemption) => match fill(redemption, min_underlying_out, delivery) {
                Err(error) => Err(error),
                Ok(filled) => Ok((redemption, filled)),
            },
        }
    }
}

/// Once a market is open, no holder ever has all of its shares: the locked
/// minimum stays out of everyone's reach.
pub proof fn law_nobody_holds_the_whole_supply(vault: SyVaultV2, holder: u64)
    requires
        vault.valid(),
        vault.shares.supply != 0,
    ensures
        amount(vault.shares.balances@, holder) + 1_000 <= vault.shares.supply,
{
    lemma_total_bounds(vault.shares.balances@, holder, holder);
}

/// A redemption of any size leaves at least the locked minimum outstanding, so
/// an open market stays open.
pub proof fn law_supply_never_returns_to_zero(
    vault: SyVaultV2,
    from: u64,
    n: int,
    min_underlying_out: int,
    total_assets: int,
    delivery: Delivery,
)
    requires
        vault.valid(),
        vault.redeem_result(from, n, min_underlying_out, total_assets, delivery) is Ok,
    ensures
        ({
            let filled = vault.redeem_result(
                from,
                n,
                min_underlying_out,
                total_assets,
                delivery,
            )->Ok_0.1;
            vault.shares.supply - filled.burned >= 1_000
        }),
{
    lemma_total_bounds(vault.shares.balances@, from, from);
}

/// A deposit never lowers the rate for those already in: it mints against what
/// the strategy measured, not against what was sent.
pub proof fn law_deposit_never_lowers_the_rate(
    vault: SyVaultV2,
    from: u64,
    n: int,
    min_sy_out: int,
    total_assets: int,
    credit: Credit,
)
    requires
        vault.valid(),
        total_assets >= 0,
        credit.total_assets == total_assets + credit.assets_credited,
        vault.deposit_result(from, n, min_sy_out, total_assets, credit) is Ok,
        fits(credit.total_assets * 1_000_000_000_000_000_000),
    ensures
        ({
            let minted = vault.minted(n, min_sy_out, total_assets, credit)->Ok_0;
            let later = rate_value(credit.total_assets as int, vault.shares.supply + minted);
            &&& later is Some
            &&& vault.rate_at(total_assets)->Ok_0 <= later->0
        }),
{
    let w = 1_000_000_000_000_000_000int;
    let minted = vault.minted(n, min_sy_out, total_assets, credit)->Ok_0 as int;
    let rate = vault.rate_at(total_assets)->Ok_0 as int;
    let supply = vault.shares.supply as int;
    lemma_total_bounds(vault.shares.balances@, from, from);
    if supply > 0 {
        law_rate_is_covered(total_assets, supply);
    }
    lemma_floor(credit.assets_credited * w, rate);
    assert(rate * (supply + minted) == rate * supply + minted * rate && (supply == 0 ==> rate
        * supply == 0)) by (nonlinear_arith);
    lemma_quot_reaches(credit.total_assets * w, supply + minted, rate);
}

/// A redemption, filled in full or in part, never lowers the rate for those who
/// stay, where the strategy's position falls by no more than it delivered.
pub proof fn law_redemption_never_lowers_the_rate(
    vault: SyVaultV2,
    from: u64,
    n: int,
    min_underlying_out: int,
    total_assets: int,
    delivery: Delivery,
    left: int,
)
    requires
        vault.valid(),
        total_assets >= 0,
        vault.redeem_result(from, n, min_underlying_out, total_assets, delivery) is Ok,
        ({
            let (redemption, filled) = vault.redeem_result(
                from,
                n,
                min_underlying_out,
                total_assets,
                delivery,
            )->Ok_0;
            &&& filled.delivered <= redemption.requested
            &&& total_assets - filled.delivered <= left
        }),
        fits(left * 1_000_000_000_000_000_000),
    ensures
        ({
            let (redemption, filled) = vault.redeem_result(
                from,
                n,
                min_underlying_out,
                total_assets,
                delivery,
            )->Ok_0;
            let later = rate_value(left, vault.shares.supply - filled.burned);
            &&& later is Some
            &&& redemption.rate <= later->0
        }),
{
    let w = 1_000_000_000_000_000_000int;
    let (redemption, filled) = vault.redeem_result(
        from,
        n,
        min_underlying_out,
        total_assets,
        delivery,
    )->Ok_0;
    let rate = redemption.rate as int;
    let supply = vault.shares.supply as int;
    let burned = filled.burned as int;
    lemma_total_bounds(vault.shares.balances@, from, from);
    law_rate_is_covered(total_assets, supply);
    assert(n * rate >= 0) by (nonlinear_arith)
        requires
            n > 0,
            rate > 0,
    ;
    lemma_quot_times(n * rate, w);
    law_partial_fill_rounds_up(redemption, min_underlying_out, delivery);
    assert(filled.delivered * w <= burned * rate);
    assert(rate * (supply - burned) == rate * supply - burned * rate) by (nonlinear_arith);
    lemma_quot_reaches(left * w, supply - burned, rate);
}

/// A redemption paid in full raises the rate by no more than rounding leaves
/// behind, where the strategy's position falls by at least what it delivered:
/// over all the shares that stay, by less than one unit of the underlying and
/// one of the rate for each share there was.
pub proof fn law_redemption_raises_the_rate_by_rounding_only(
    vault: SyVaultV2,
    from: u64,
    n: int,
    min_underlying_out: int,
    total_assets: int,
    delivery: Delivery,
    left: int,
)
    requires
        vault.valid(),
        vault.redeem_result(from, n, min_underlying_out, total_assets, delivery) is Ok,
        ({
            let (redemption, filled) = vault.redeem_result(
                from,
                n,
                min_underlying_out,
                total_assets,
                delivery,
            )->Ok_0;
            &&& filled.delivered >= redemption.requested
            &&& 0 <= left <= total_assets - filled.delivered
        }),
    ensures
        ({
            let (redemption, filled) = vault.redeem_result(
                from,
                n,
                min_underlying_out,
                total_assets,
                delivery,
            )->Ok_0;
            let stay = vault.shares.supply - filled.burned;
            let later = rate_value(left, stay);
            &&& later is Some
            &&& later->0 * stay < redemption.rate * stay + vault.shares.supply
                + 1_000_000_000_000_000_000
        }),
{
    let w = 1_000_000_000_000_000_000int;
    let (redemption, filled) = vault.redeem_result(
        from,
        n,
        min_underlying_out,
        total_assets,
        delivery,
    )->Ok_0;
    let rate = redemption.rate as int;
    let supply = vault.shares.supply as int;
    let stay = supply - n;
    lemma_total_bounds(vault.shares.balances@, from, from);
    lemma_quot_fits(total_assets * w, supply);
    lemma_floor(total_assets * w, supply);
    assert(n * rate >= 0) by (nonlinear_arith)
        requires
            n > 0,
            rate > 0,
    ;
    lemma_quot_times(n * rate, w);
    lemma_quot_fits(left * w, stay);
    lemma_floor(left * w, stay);
    assert(rate * stay == supply * rate - n * rate) by (nonlinear_arith)
        requires
            stay == supply - n,
    ;
}

/// What a delivery burns covers it: the shares that stay burned are worth at
/// least what was delivered, and one fewer would not be where it fell short of
/// the request. No more is ever burned than was asked for.
pub proof fn law_partial_fill_rounds_up(
    redemption: Redemption,
    min_underlying_out: int,
    delivery: Delivery,
)
    requires
        redemption.valid(),
        redemption.requested == quot(
            redemption.sy_amount * redemption.rate,
            1_000_000_000_000_000_000,
        ),
        fill(redemption, min_underlying_out, delivery) is Ok,
        fill(redemption, min_underlying_out, delivery)->Ok_0.delivered <= redemption.requested,
    ensures
        ({
            let filled = fill(redemption, min_underlying_out, delivery)->Ok_0;
            let paid = filled.delivered * 1_000_000_000_000_000_000;
            &&& 0 < filled.burned <= redemption.sy_amount
            &&& paid <= filled.burned * redemption.rate
            &&& filled.delivered < redemption.requested ==> (filled.burned - 1) * redemption.rate
                < paid
        }),
{
    let w = 1_000_000_000_000_000_000int;
    let filled = fill(redemption, min_underlying_out, delivery)->Ok_0;
    let rate = redemption.rate as int;
    let n = redemption.sy_amount as int;
    let paid = filled.delivered * w;
    assert(n * rate >= 0) by (nonlinear_arith)
        requires
            n > 0,
            rate > 0,
    ;
    lemma_quot_times(n * rate, w);
    lemma_ceil(paid, rate);
    let c = ceil_div(paid, rate);
    if filled.delivered < redemption.requested {
        assert(c <= n) by (nonlinear_arith)
            requires
                rate > 0,
                c * rate - rate < paid,
                paid < n * rate,
        ;
        assert((c - 1) * rate == c * rate - rate) by (nonlinear_arith);
    }
}

/// The least that cover a delivery are never more than were asked for: the
/// refund of a short delivery is what the delivery did not pay for, and the
/// holder's principal comes back with it in proportion.
pub proof fn law_refund_is_the_unpaid_part(
    redemption: Redemption,
    min_underlying_out: int,
    delivery: Delivery,
)
    requires
        redemption.valid(),
        fill(redemption, min_underlying_out, delivery) is Ok,
    ensures
        ({
            let filled = fill(redemption, min_underlying_out, delivery)->Ok_0;
            let refund = redemption.sy_amount - filled.burned;
            &&& 0 <= refund
            &&& 0 <= filled.refund_principal <= redemption.principal_out
            &&& filled.refund_principal * redemption.sy_amount <= redemption.principal_out * refund
            &&& filled.delivered >= redemption.requested ==> refund == 0
                && filled.refund_principal == 0
        }),
{
    let filled = fill(redemption, min_underlying_out, delivery)->Ok_0;
    let refund = redemption.sy_amount - filled.burned;
    lemma_ceil(filled.delivered * 1_000_000_000_000_000_000, redemption.rate as int);
    lemma_proportion(redemption.principal_out as int, refund, redemption.sy_amount as int);
    lemma_floor(redemption.principal_out * refund, redemption.sy_amount as int);
    assert(redemption.principal_out * refund >= 0) by (nonlinear_arith)
        requires
            redemption.principal_out >= 0,
            refund >= 0,
    ;
}

/// Whatever the quote refuses, the deposit refuses with the same error, where
/// the market has a rate, the strategy credits something and no more than was
/// sent, its position grows by it, and it is not this deposit that crosses the
/// cap.
pub proof fn law_quote_refuses_only_what_deposit_refuses(
    vault: SyVaultV2,
    from: u64,
    n: int,
    min_sy_out: int,
    total_assets: int,
    credit: Credit,
)
    requires
        vault.valid(),
        min_sy_out >= 0,
        fits(n * 1_000_000_000_000_000_000),
        vault.rate_at(total_assets) is Ok || vault.settings is None,
        0 < credit.assets_credited <= n || n <= 0,
        credit.total_assets > total_assets,
        vault.cap > 0 && credit.total_assets > vault.cap ==> total_assets >= vault.cap,
        vault.previewed_deposit(n, total_assets) is Err,
    ensures
        vault.deposit_result(from, n, min_sy_out, total_assets, credit) == Err::<i128, Error>(
            vault.previewed_deposit(n, total_assets)->Err_0,
        ),
{
    let w = 1_000_000_000_000_000_000int;
    if n > 0 && vault.settings is Some {
        let rate = vault.rate_at(total_assets)->Ok_0 as int;
        let c = credit.assets_credited as int;
        law_reduction_only_helps(n, w, rate);
        law_reduction_only_helps(c, w, rate);
        lemma_div_monotone(c * w, n * w, rate);
    }
}

/// A deposit that the strategy credits in full and the cap has room for gives
/// exactly the shares it was quoted.
pub proof fn law_quote_is_what_deposit_gives(
    vault: SyVaultV2,
    from: u64,
    n: int,
    min_sy_out: int,
    total_assets: int,
    credit: Credit,
)
    requires
        vault.valid(),
        credit.assets_credited == n,
        credit.total_assets == total_assets + n,
        vault.deposit_result(from, n, min_sy_out, total_assets, credit) is Ok,
    ensures
        vault.previewed_deposit(n, total_assets) == vault.deposit_result(
            from,
            n,
            min_sy_out,
            total_assets,
            credit,
        ),
{
}

/// The cap is read by deposits alone: whatever it is, the rate, a transfer and a
/// redemption come out the same.
pub proof fn law_cap_never_blocks_an_exit(
    vault: SyVaultV2,
    capped: SyVaultV2,
    from: u64,
    n: int,
    min_underlying_out: int,
    total_assets: int,
    delivery: Delivery,
)
    requires
        capped.settings == vault.settings,
        capped.shares == vault.shares,
    ensures
        capped.rate_at(total_assets) == vault.rate_at(total_assets),
        capped.redemption(from, n, min_underlying_out, total_assets) == vault.redemption(
            from,
            n,
            min_underlying_out,
            total_assets,
        ),
        capped.redeem_result(from, n, min_underlying_out, total_assets, delivery)
            == vault.redeem_result(from, n, min_underlying_out, total_assets, delivery),
{
}

/// The opening deposit of a market has accrued nothing: the principal it is
/// credited with is the value of the shares it got, not of those locked away.
pub proof fn law_opening_position_has_no_yield(n: int)
    requires
        1_000 < n <= i128::MAX,
    ensures
        scaled(n, n - 1_000, n) == Some((n - 1_000) as i128),
        accrued_value(n - 1_000, 1_000_000_000_000_000_000, n - 1_000) == Some(0i128),
{
    law_scaling_by_itself_is_exact(n - 1_000, n);
    law_scaling_by_itself_is_exact(n - 1_000, 1_000_000_000_000_000_000);
}

/// Burning a whole redemption first and refunding the unpaid part afterwards
/// leaves what burning the paid part at once leaves.
pub proof fn law_refund_undoes_the_rest_of_the_burn(
    entries: Map<u64, i128>,
    from: u64,
    n: int,
    burned: int,
)
    requires
        0 <= burned <= n <= amount(entries, from),
    ensures
        credited(debited(entries, from, n), from, n - burned) == debited(entries, from, burned),
{
    assert(credited(debited(entries, from, n), from, n - burned) =~= debited(
        entries,
        from,
        burned,
    ));
}

/// What a deposit gives. With shares out, the rate is the assets per share
/// rounded down; before any are, it is one and nothing may lie in the strategy.
/// What is minted is what the strategy credited, at that rate, rounded down. The
/// depositor gets all of it, but for the thousand that the first deposit leaves
/// to nobody, and never less than the minimum asked for. The principal is the
/// part of the payment that went into the depositor's own shares, rounded down.
/// The cap, where there is one, holds afterwards.
pub proof fn law_deposit_terms(
    vault: SyVaultV2,
    from: u64,
    n: i128,
    min_sy_out: i128,
    total_assets: i128,
    credit: Credit,
)
    requires
        vault.valid(),
        total_assets >= 0,
        vault.deposit_result(from, n as int, min_sy_out as int, total_assets as int, credit) is Ok,
    ensures
        ({
            let w = 1_000_000_000_000_000_000int;
            let supply = vault.shares.supply as int;
            let rate = vault.rate_at(total_assets as int)->Ok_0 as int;
            let minted = vault.minted(
                n as int,
                min_sy_out as int,
                total_assets as int,
                credit,
            )->Ok_0 as int;
            let sy_out = vault.deposit_result(
                from,
                n as int,
                min_sy_out as int,
                total_assets as int,
                credit,
            )->Ok_0 as int;
            let principal = vault.principal_credit(n as int, sy_out, minted)->0 as int;
            &&& vault.settings is Some
            &&& n > 0 && 0 <= min_sy_out <= sy_out && sy_out > 0
            &&& credit.assets_credited > 0
            &&& rate > 0
            &&& supply > 0 ==> rate * supply <= total_assets * w < (rate + 1) * supply
            &&& supply == 0 ==> rate == w && total_assets == 0
            &&& minted * rate <= credit.assets_credited * w < (minted + 1) * rate
            &&& sy_out == (if supply == 0 {
                minted - 1_000
            } else {
                minted
            })
            &&& principal * minted <= n * sy_out < (principal + 1) * minted
            &&& vault.cap > 0 ==> credit.total_assets <= vault.cap
        }),
{
    let w = 1_000_000_000_000_000_000int;
    let supply = vault.shares.supply as int;
    let rate = vault.rate_at(total_assets as int)->Ok_0 as int;
    let minted = vault.minted(
        n as int,
        min_sy_out as int,
        total_assets as int,
        credit,
    )->Ok_0 as int;
    let sy_out = vault.deposit_result(
        from,
        n as int,
        min_sy_out as int,
        total_assets as int,
        credit,
    )->Ok_0 as int;
    lemma_total_bounds(vault.shares.balances@, from, from);
    law_rate_is_assets_per_share(total_assets as int, supply);
    law_scaled_is_the_quotient(credit.assets_credited as int, w, rate, 1, 0, 0);
    assert(n * sy_out >= 0) by (nonlinear_arith)
        requires
            n > 0,
            sy_out > 0,
    ;
    law_scaled_is_the_quotient(n as int, sy_out, minted, 1, 0, 0);
}

/// When a deposit is owed: in a set-up vault that has a positive rate, a deposit
/// the strategy credited, within the cap, that mints enough for the minimum, is
/// accepted wherever the products and sums are in range. `minted` is what the
/// credit mints at the rate, rounded down.
pub proof fn law_deposit_is_owed(
    vault: SyVaultV2,
    from: u64,
    n: i128,
    min_sy_out: i128,
    total_assets: i128,
    credit: Credit,
    rate: int,
    minted: int,
)
    requires
        vault.valid(),
        vault.settings is Some,
        total_assets >= 0,
        rate > 0,
        vault.shares.supply > 0 ==> rate * vault.shares.supply <= total_assets
            * 1_000_000_000_000_000_000 < (rate + 1) * vault.shares.supply,
        vault.shares.supply == 0 ==> rate == 1_000_000_000_000_000_000 && total_assets == 0,
        total_assets * 1_000_000_000_000_000_000 <= i128::MAX,
        n > 0,
        credit.assets_credited > 0,
        credit.assets_credited * 1_000_000_000_000_000_000 <= i128::MAX,
        vault.cap == 0 || credit.total_assets <= vault.cap,
        minted * rate <= credit.assets_credited * 1_000_000_000_000_000_000 < (minted + 1) * rate,
        0 <= min_sy_out <= minted - (if vault.shares.supply == 0 {
            1_000int
        } else {
            0
        }),
        minted > (if vault.shares.supply == 0 {
            1_000int
        } else {
            0
        }),
        n * minted <= i128::MAX,
        vault.shares.supply + minted <= i128::MAX,
        amount(vault.shares.principals@, from) + n <= i128::MAX,
    ensures
        vault.deposit_result(
            from,
            n as int,
            min_sy_out as int,
            total_assets as int,
            credit,
        ) == Ok::<i128, Error>(
            (minted - (if vault.shares.supply == 0 {
                1_000int
            } else {
                0
            })) as i128,
        ),
{
    let w = 1_000_000_000_000_000_000int;
    let supply = vault.shares.supply as int;
    lemma_total_bounds(vault.shares.balances@, from, from);
    lemma_total_bounds(vault.shares.principals@, from, from);
    law_rate_is_assets_per_share(total_assets as int, supply);
    if supply > 0 {
        let found = rate_value(total_assets as int, supply)->0 as int;
        assert(found == rate) by (nonlinear_arith)
            requires
                supply > 0,
                rate * supply <= total_assets * w < (rate + 1) * supply,
                found * supply <= total_assets * w < (found + 1) * supply,
        ;
    }
    let c = credit.assets_credited as int;
    law_reduction_only_helps(c, w, rate);
    law_scaled_is_the_quotient(c, w, rate, 1, 0, 0);
    let got = scaled(c, w, rate)->0 as int;
    assert(got == minted) by (nonlinear_arith)
        requires
            rate > 0,
            minted * rate <= c * w < (minted + 1) * rate,
            got * rate <= c * w < (got + 1) * rate,
    ;
    let sy_out = minted - (if supply == 0 {
        1_000int
    } else {
        0
    });
    assert(0 <= n * sy_out <= n * minted) by (nonlinear_arith)
        requires
            n > 0,
            0 <= sy_out <= minted,
    ;
    law_reduction_only_helps(n as int, sy_out, minted);
    lemma_proportion(n as int, sy_out, minted);
}

/// What a redemption asks for: of at most what the holder has, the shares' worth
/// at the rate, rounded down, with the holder's principal in proportion, rounded
/// down. It is owed wherever that is something and the products are in range.
pub proof fn law_redemption_terms(
    vault: SyVaultV2,
    from: u64,
    n: i128,
    min_underlying_out: i128,
    total_assets: i128,
)
    requires
        vault.valid(),
        total_assets >= 0,
    ensures
        ({
            let w = 1_000_000_000_000_000_000int;
            let supply = vault.shares.supply as int;
            let held = amount(vault.shares.balances@, from) as int;
            let paid_in = amount(vault.shares.principals@, from) as int;
            let asked = vault.redemption(
                from,
                n as int,
                min_underlying_out as int,
                total_assets as int,
            );
            &&& asked matches Ok(r) ==> {
                &&& vault.settings is Some
                &&& 0 < n <= held && min_underlying_out >= 0
                &&& r.from == from
                &&& r.sy_amount == n
                &&& r.rate > 0
                &&& r.rate * supply <= total_assets * w < (r.rate + 1) * supply
                &&& r.requested > 0
                &&& r.requested * w <= n * r.rate < (r.requested + 1) * w
                &&& r.principal_out * held <= paid_in * n < (r.principal_out + 1) * held
            }
            &&& vault.settings is Some && 0 < n <= held && min_underlying_out >= 0 && total_assets
                * w <= i128::MAX && n * total_assets * w <= i128::MAX && supply <= total_assets * w
                && n * (total_assets * w / supply) >= w && paid_in * n <= i128::MAX ==> asked is Ok
        }),
{
    let w = 1_000_000_000_000_000_000int;
    let supply = vault.shares.supply as int;
    let held = amount(vault.shares.balances@, from) as int;
    let paid_in = amount(vault.shares.principals@, from) as int;
    lemma_total_bounds(vault.shares.balances@, from, from);
    lemma_total_bounds(vault.shares.principals@, from, from);
    law_rate_is_assets_per_share(total_assets as int, supply);
    if 0 < n <= held {
        let rate = rate_value(total_assets as int, supply)->0 as int;
        law_scaled_is_the_quotient(n as int, rate, w, 1, 0, 0);
        assert(paid_in * n >= 0) by (nonlinear_arith)
            requires
                paid_in >= 0,
                n > 0,
        ;
        law_scaled_is_the_quotient(paid_in, n as int, held, 1, 0, 0);
        if rate > 0 {
            assert(n * rate >= 0) by (nonlinear_arith)
                requires
                    n > 0,
                    rate > 0,
            ;
        }
        if total_assets * w <= i128::MAX && n * total_assets * w <= i128::MAX && supply
            <= total_assets * w && n * (total_assets * w / supply) >= w && paid_in * n
            <= i128::MAX {
            lemma_quot_fits(total_assets * w, supply);
            lemma_floor(total_assets * w, supply);
            assert(rate == total_assets * w / supply);
            assert(rate > 0) by (nonlinear_arith)
                requires
                    n * rate >= w,
                    n > 0,
                    w > 0,
            ;
            assert(n * rate <= n * total_assets * w) by (nonlinear_arith)
                requires
                    rate * supply <= total_assets * w,
                    supply >= 1,
                    rate > 0,
                    n > 0,
            ;
            law_reduction_only_helps(n as int, rate, w);
            law_reduction_only_helps(paid_in, n as int, held);
            lemma_floor(n * rate, w);
        }
    }
}

/// What a delivery settles. It counts by the vault's own balance: at least what
/// the strategy said and the minimum asked for, and something. A delivery that
/// falls short burns the fewest shares that cover it at the rate, and no more
/// than were asked for; one that does not, all of them. The principal of what is
/// not burned comes back in proportion, rounded down.
pub proof fn law_delivery_terms(
    redemption: Redemption,
    min_underlying_out: i128,
    delivery: Delivery,
)
    requires
        redemption.valid(),
    ensures
        ({
            let w = 1_000_000_000_000_000_000int;
            let delivered = delivery.after - delivery.before;
            let n = redemption.sy_amount as int;
            let settled = fill(redemption, min_underlying_out as int, delivery);
            &&& settled matches Ok(filled) ==> {
                let refund = n - filled.burned;
                &&& filled.delivered == delivered
                &&& delivered > 0 && delivered >= delivery.reported && delivered
                    >= min_underlying_out
                &&& delivered >= redemption.requested ==> filled.burned == n
                &&& delivered < redemption.requested ==> {
                    &&& filled.burned <= n
                    &&& (filled.burned - 1) * redemption.rate < delivered * w
                    &&& filled.burned < n ==> delivered * w <= filled.burned * redemption.rate
                }
                &&& filled.refund_principal * n <= redemption.principal_out * refund
                    < (filled.refund_principal + 1) * n
            }
            &&& delivered > 0 && delivered >= delivery.reported && delivered >= min_underlying_out
                && delivered * w <= i128::MAX && redemption.principal_out * n <= i128::MAX
                ==> settled is Ok
        }),
{
    let w = 1_000_000_000_000_000_000int;
    let delivered = delivery.after - delivery.before;
    let n = redemption.sy_amount as int;
    let rate = redemption.rate as int;
    let settled = fill(redemption, min_underlying_out as int, delivery);
    lemma_ceil(delivered * w, rate);
    let c = ceil_div(delivered * w, rate);
    assert((c - 1) * rate == c * rate - rate) by (nonlinear_arith);
    assert(c >= n ==> (n - 1) * rate < delivered * w) by (nonlinear_arith)
        requires
            (c - 1) * rate < delivered * w,
            rate > 0,
    ;
    if delivered > 0 {
        law_scaled_is_the_quotient(delivered, w, rate, 1, delivered * w, rate);
    }
    let burned = if delivered >= redemption.requested || c >= n {
        n
    } else {
        c
    };
    let refund = n - burned;
    if delivered > 0 {
        assert(0 <= redemption.principal_out * refund <= redemption.principal_out * n)
            by (nonlinear_arith)
            requires
                redemption.principal_out >= 0,
                0 <= refund <= n,
        ;
        law_scaled_is_the_quotient(
            redemption.principal_out as int,
            refund,
            n,
            1,
            redemption.principal_out * refund,
            n,
        );
        if burned == n {
            assert(redemption.principal_out * refund == 0) by (nonlinear_arith)
                requires
                    refund == 0,
            ;
        }
    }
}

/// What a deposit is quoted: what the amount mints at the rate, rounded down, less
/// the thousand of an opening deposit. It is quoted exactly for a positive amount,
/// below the cap where there is one, where the vault has a rate and there is
/// something to give, in range.
pub proof fn law_deposit_quote_terms(vault: SyVaultV2, n: i128, total_assets: i128, minted: int)
    requires
        vault.valid(),
        total_assets >= 0,
        n * 1_000_000_000_000_000_000 <= i128::MAX,
        vault.rate_at(total_assets as int) matches Ok(rate) ==> minted * rate <= n
            * 1_000_000_000_000_000_000 < (minted + 1) * rate,
    ensures
        ({
            let locked = if vault.shares.supply == 0 {
                1_000int
            } else {
                0
            };
            let result = vault.previewed_deposit(n as int, total_assets as int);
            &&& result is Ok <==> {
                &&& n > 0
                &&& vault.cap > 0 ==> total_assets < vault.cap
                &&& vault.rate_at(total_assets as int) is Ok
                &&& minted > locked
            }
            &&& result matches Ok(sy_out) ==> sy_out == minted - locked
        }),
{
    let w = 1_000_000_000_000_000_000int;
    lemma_total_bounds(vault.shares.balances@, 0, 0);
    if n > 0 && vault.rate_at(total_assets as int) is Ok {
        let rate = vault.rate_at(total_assets as int)->Ok_0 as int;
        law_reduction_only_helps(n as int, w, rate);
        law_scaled_is_the_quotient(n as int, w, rate, 1, 0, 0);
        let got = scaled(n as int, w, rate)->0 as int;
        assert(got == minted) by (nonlinear_arith)
            requires
                rate > 0,
                minted * rate <= n * w < (minted + 1) * rate,
                got * rate <= n * w < (got + 1) * rate,
        ;
    }
}

/// When the vault has a rate: set up, with shares out whose assets, per share and
/// rounded down, come to something in range; or with no shares and no assets, when
/// it is one.
pub proof fn law_rate_terms(vault: SyVaultV2, total_assets: i128)
    requires
        total_assets >= 0,
        vault.shares.supply >= 0,
    ensures
        ({
            let w = 1_000_000_000_000_000_000int;
            let supply = vault.shares.supply as int;
            let result = vault.rate_at(total_assets as int);
            &&& result is Ok <==> vault.settings is Some && (if supply == 0 {
                total_assets == 0
            } else {
                supply <= total_assets * w <= i128::MAX
            })
            &&& result matches Ok(rate) ==> if supply == 0 {
                rate == w
            } else {
                rate * supply <= total_assets * w < (rate + 1) * supply
            }
        }),
{
    let w = 1_000_000_000_000_000_000int;
    let supply = vault.shares.supply as int;
    law_rate_is_assets_per_share(total_assets as int, supply);
    if supply > 0 && total_assets * w <= i128::MAX {
        let rate = rate_value(total_assets as int, supply)->0 as int;
        assert(rate > 0 <==> supply <= total_assets * w) by (nonlinear_arith)
            requires
                supply > 0,
                rate * supply <= total_assets * w < (rate + 1) * supply,
        ;
    }
}

/// Why a deposit is refused, the first reason that holds: nothing sent or a
/// minimum below zero, no vault, nothing credited, a cap that is passed, an opening
/// deposit that leaves nothing beside the locked shares, or too few shares.
pub proof fn law_deposit_refusals(
    vault: SyVaultV2,
    from: u64,
    n: i128,
    min_sy_out: i128,
    total_assets: i128,
    credit: Credit,
)
    requires
        vault.valid(),
    ensures
        ({
            let result = vault.deposit_result(
                from,
                n as int,
                min_sy_out as int,
                total_assets as int,
                credit,
            );
            let asked = n > 0 && min_sy_out >= 0;
            let rate = vault.rate_at(total_assets as int);
            let capped = vault.cap > 0 && credit.total_assets > vault.cap;
            &&& !asked ==> result is Err && result->Err_0 == Error::InvalidAmount
            &&& asked && vault.settings is None ==> result is Err && result->Err_0
                == Error::NotInitialized
            &&& asked && rate is Err ==> result is Err && result->Err_0 == rate->Err_0
            &&& asked && rate is Ok && credit.assets_credited <= 0 ==> result is Err
                && result->Err_0 == Error::StrategyDeliveryFailed
            &&& asked && rate is Ok && credit.assets_credited > 0 && capped ==> result is Err
                && result->Err_0 == Error::DepositCapExceeded
            &&& asked && rate is Ok && credit.assets_credited > 0 && !capped && vault.shares.supply
                == 0 && credit.assets_credited <= 1_000 ==> result is Err && result->Err_0
                == Error::InitialDepositTooSmall
        }),
{
    if vault.shares.supply == 0 && 0 < credit.assets_credited <= 1_000 {
        law_scaling_by_itself_is_exact(
            credit.assets_credited as int,
            1_000_000_000_000_000_000,
        );
    }
}

/// Why a redemption is refused, the first reason that holds: nothing asked for or
/// a minimum below zero, no vault, no rate, or more shares than the holder has. And
/// why a delivery is: nothing came or less than was said, or less than the minimum.
pub proof fn law_redemption_refusals(
    vault: SyVaultV2,
    from: u64,
    n: i128,
    min_underlying_out: i128,
    total_assets: i128,
    redemption: Redemption,
    delivery: Delivery,
)
    ensures
        ({
            let result = vault.redemption(
                from,
                n as int,
                min_underlying_out as int,
                total_assets as int,
            );
            let asked = n > 0 && min_underlying_out >= 0;
            let rate = vault.rate_at(total_assets as int);
            &&& !asked ==> result is Err && result->Err_0 == Error::InvalidAmount
            &&& asked && vault.settings is None ==> result is Err && result->Err_0
                == Error::NotInitialized
            &&& asked && rate is Err ==> result is Err && result->Err_0 == rate->Err_0
            &&& asked && rate is Ok && n > amount(vault.shares.balances@, from) ==> result is Err
                && result->Err_0 == Error::InsufficientBalance
        }),
        ({
            let came = delivery.after - delivery.before;
            let settled = fill(redemption, min_underlying_out as int, delivery);
            &&& fits(came) && (came <= 0 || came < delivery.reported) ==> settled is Err
                && settled->Err_0 == Error::StrategyDeliveryFailed
            &&& fits(came) && came > 0 && came >= delivery.reported && came < min_underlying_out
                ==> settled is Err && settled->Err_0 == Error::SlippageExceeded
        }),
{
}

/// A redemption is settled by what it asked for and what was delivered for it, and
/// refused exactly where either is.
pub proof fn law_redemption_is_asked_and_settled(
    vault: SyVaultV2,
    from: u64,
    n: int,
    min_underlying_out: int,
    total_assets: int,
    delivery: Delivery,
)
    ensures
        ({
            let asked = vault.redemption(from, n, min_underlying_out, total_assets);
            let settled = fill(asked->Ok_0, min_underlying_out, delivery);
            let result = vault.redeem_result(from, n, min_underlying_out, total_assets, delivery);
            &&& asked is Err ==> result is Err && result->Err_0 == asked->Err_0
            &&& asked is Ok && settled is Err ==> result is Err && result->Err_0 == settled->Err_0
            &&& asked is Ok && settled is Ok ==> result is Ok && result->Ok_0.0 == asked->Ok_0
                && result->Ok_0.1 == settled->Ok_0
        }),
{
}

} // verus!
