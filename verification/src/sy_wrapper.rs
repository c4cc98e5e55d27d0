//! A standardized-yield wrapper: shares in an underlying asset that is either
//! held at a rate an administrator sets, or supplied to a lending pool and
//! priced by what the position there is worth.

use crate::allowance::{filed, in_force, spent};
pub use crate::allowance::AllowanceValue;
use crate::blend_adapter::{
    derived_exchange_rate, find_reserve, first_slot, law_pool_shares_are_priced_at_the_rate,
    law_rate_is_assets_per_share, lemma_quot_fits, rate_value, Holding, Reserve, WAD,
};
use crate::fixed::{fits, lemma_floor, lemma_quot_reaches, lemma_quot_times, quot};
use crate::ledger::{
    amount, credited, debited, lemma_credited, lemma_debited, lemma_total_bounds, shifted,
};
use crate::ratio::{law_scaled_is_the_quotient, lemma_reducible, mul_div, scaled};
use crate::shares::{accrued_value, carried, lemma_carried, transfer_outcome, Moved, Shares};
use vstd::prelude::*;

verus! {

/// Display decimals, and the decimals an underlying must have.
pub const DECIMALS: u32 = 7;

#[derive(Clone, Copy, Debug, PartialEq, Eq, Structural)]
pub struct Config {
    pub admin: u64,
    pub underlying: u64,
    pub pool: Option<u64>,
    pub reserve_index: u32,
}

#[derive(Clone, Copy, Debug, PartialEq, Eq, Structural)]
pub enum Error {
    AlreadyInitialized,
    NotInitialized,
    InvalidAmount,
    InvalidExchangeRate,
    InsufficientBalance,
    MathOverflow,
    InsufficientAllowance,
    InvalidExpiration,
    ReadOnlyExchangeRate,
    InvalidBlendReserve,
}

/// The wrapper's own balance of the underlying, before and after the pool was
/// asked to pay.
#[derive(Clone, Copy, Debug, PartialEq, Eq, Structural)]
pub struct Payout {
    pub before: i128,
    pub after: i128,
}

/// One wrapper.
#[derive(Clone, Debug)]
pub struct SyWrapper {
    pub settings: Option<Config>,
    /// The rate last set, where the wrapper has no pool.
    pub rate: Option<i128>,
    pub shares: Shares,
}

/// An overflow, or the value.
pub open spec fn checked(value: Option<i128>) -> Result<i128, Error> {
    match value {
        Some(value) => Ok(value),
        None => Err(Error::MathOverflow),
    }
}

/// The shares burned and the underlying released for a redemption of `n`
/// shares worth `requested`: `None` where nothing came out of the pool.
pub open spec fn fill(
    pooled: bool,
    n: int,
    requested: int,
    rate: int,
    payout: Option<Payout>,
) -> Result<Option<(int, int)>, Error> {
    if !pooled {
        Ok(Some((n, requested)))
    } else {
        match payout {
            None => Ok(None),
            Some(payout) => {
                let received = payout.after - payout.before;
                if !fits(received) {
                    Err(Error::MathOverflow)
                } else if received <= 0 {
                    Ok(None)
                } else if received >= requested {
                    Ok(Some((n, received)))
                } else {
                    match scaled(received, 1_000_000_000_000_000_000, rate) {
                        None => Err(Error::MathOverflow),
                        Some(burned) => Ok(Some((burned as int, received))),
                    }
                }
            },
        }
    }
}

fn check_overflow(value: Option<i128>) -> (result: Result<i128, Error>)
    ensures
        result == checked(value),
{
    match value {
        Some(value) => Ok(value),
        None => Err(Error::MathOverflow),
    }
}

impl SyWrapper {
    /// What every operation keeps: the shares are in order, and a rate that was
    /// set is positive.
    pub open spec fn valid(self) -> bool {
        &&& self.shares.valid()
        &&& match self.rate {
            Some(rate) => rate > 0,
            None => true,
        }
    }

    /// Whether the wrapper is backed by a pool.
    pub open spec fn pooled(self) -> bool {
        match self.settings {
            Some(config) => config.pool is Some,
            None => false,
        }
    }

    /// The rate in force: derived from the position where there is a pool, the
    /// one last set where there is not.
    pub open spec fn rate_in_force(self, holding: Holding) -> Result<i128, Error> {
        match self.settings {
            None => Err(Error::NotInitialized),
            Some(config) => if config.pool is Some {
                match holding.worth() {
                    None => Err(Error::MathOverflow),
                    Some(aum) => checked(rate_value(aum as int, self.shares.supply as int)),
                }
            } else {
                match self.rate {
                    Some(rate) => Ok(rate),
                    None => Ok(1_000_000_000_000_000_000),
                }
            },
        }
    }

    /// The underlying a deposit added: what the position rose by where there is
    /// a pool, the deposit itself where there is not.
    pub open spec fn added(self, n: int, before: Holding, after: Holding) -> Option<i128> {
        if !self.pooled() {
            Some(n as i128)
        } else {
            match (before.worth(), after.worth()) {
                (Some(a), Some(b)) => if fits(b - a) {
                    Some((b - a) as i128)
                } else {
                    None
                },
                _ => None,
            }
        }
    }

    /// The shares a deposit mints, or why it is refused.
    pub open spec fn deposit_result(
        self,
        from: u64,
        n: int,
        before: Holding,
        after: Holding,
    ) -> Result<i128, Error> {
        if self.settings is None {
            Err(Error::NotInitialized)
        } else if n <= 0 {
            Err(Error::InvalidAmount)
        } else {
            match self.rate_in_force(before) {
                Err(error) => Err(error),
                Ok(rate) => match self.added(n, before, after) {
                    None => Err(Error::MathOverflow),
                    Some(added) => match scaled(added as int, 1_000_000_000_000_000_000, rate as int) {
                        None => Err(Error::MathOverflow),
                        Some(minted) => if minted <= 0 {
                            Err(Error::InvalidAmount)
                        } else if !fits(self.shares.supply + minted) || !fits(
                            amount(self.shares.principals@, from) + n,
                        ) {
                            Err(Error::MathOverflow)
                        } else {
                            Ok(minted)
                        },
                    },
                },
            }
        }
    }

    /// The underlying a redemption asks for, or why it is refused.
    pub open spec fn requested(self, from: u64, n: int, holding: Holding) -> Result<i128, Error> {
        if self.settings is None {
            Err(Error::NotInitialized)
        } else if n <= 0 {
            Err(Error::InvalidAmount)
        } else {
            match self.rate_in_force(holding) {
                Err(error) => Err(error),
                Ok(rate) => if n > amount(self.shares.balances@, from) {
                    Err(Error::InsufficientBalance)
                } else {
                    checked(scaled(n, rate as int, 1_000_000_000_000_000_000))
                },
            }
        }
    }

    /// What a redemption burns, takes off the principal and releases: `None`
    /// where it changes nothing.
    pub open spec fn redemption(
        self,
        from: u64,
        n: int,
        holding: Holding,
        payout: Option<Payout>,
    ) -> Result<Option<(int, int, int)>, Error> {
        match self.requested(from, n, holding) {
            Err(error) => Err(error),
            Ok(requested) => match fill(
                self.pooled(),
                n,
                requested as int,
                self.rate_in_force(holding)->Ok_0 as int,
                payout,
            ) {
                Err(error) => Err(error),
                Ok(None) => Ok(None),
                Ok(Some((burned, released))) => match carried(
                    self.shares.balances@,
                    self.shares.principals@,
                    from,
                    burned,
                ) {
                    None => Err(Error::MathOverflow),
                    Some(principal) => Ok(Some((burned, principal as int, released))),
                },
            },
        }
    }

    pub fn new() -> (wrapper: Self)
        ensures
            wrapper.settings is None,
            wrapper.rate is None,
            wrapper.shares.supply == 0,
            wrapper.shares.balances@ == Map::<u64, i128>::empty(),
            wrapper.shares.principals@ == Map::<u64, i128>::empty(),
            wrapper.shares.allowances@ == Map::<u128, AllowanceValue>::empty(),
            wrapper.valid(),
            wrapper.shares.unheld() == 0,
    {
        SyWrapper { settings: None, rate: None, shares: Shares::new() }
    }

    fn write_initial_config(&mut self, config: Config)
        requires
            old(self).valid(),
            old(self).shares.balances@ == Map::<u64, i128>::empty(),
        ensures
            final(self).valid(),
            final(self).settings == Some(config),
            final(self).rate == Some(1_000_000_000_000_000_000i128),
            final(self).shares.supply == 0,
            final(self).shares.balances@ == old(self).shares.balances@,
            final(self).shares.principals@ == old(self).shares.principals@,
            final(self).shares.allowances@ == old(self).shares.allowances@,
    {
        proof {
            crate::ledger::lemma_total_empty();
        }
        self.settings = Some(config);
        self.rate = Some(WAD);
        self.shares.supply = 0;
    }

    /// Sets up a wrapper that holds the underlying itself, at a rate of one. The
    /// caller has established that `admin` asked, and that nobody holds a share.
    pub fn initialize(&mut self, admin: u64, underlying: u64) -> (result: Result<(), Error>)
        requires
            old(self).valid(),
            old(self).settings is None ==> old(self).shares.balances@ == Map::<u64, i128>::empty(),
        ensures
            final(self).valid(),
            result == (if old(self).settings is Some {
                Err::<(), Error>(Error::AlreadyInitialized)
            } else {
                Ok(())
            }),
            result is Ok ==> {
                &&& final(self).settings == Some(
                    Config { admin, underlying, pool: None, reserve_index: 0 },
                )
                &&& final(self).rate == Some(1_000_000_000_000_000_000i128)
                &&& final(self).shares.supply == 0
            },
            result is Err ==> {
                &&& final(self).settings == old(self).settings
                &&& final(self).rate == old(self).rate
                &&& final(self).shares.supply == old(self).shares.supply
            },
            final(self).shares.balances@ == old(self).shares.balances@,
            final(self).shares.principals@ == old(self).shares.principals@,
            final(self).shares.allowances@ == old(self).shares.allowances@,
    {
        if self.settings.is_some() {
            return Err(Error::AlreadyInitialized);
        }
        self.write_initial_config(Config { admin, underlying, pool: None, reserve_index: 0 });
        Ok(())
    }

    /// Sets up a wrapper backed by a pool: the underlying must be listed, and
    /// the pool's own record of it must name the same slot and seven decimals.
    /// The caller has established that `admin` asked, and that nobody holds a
    /// share.
    pub fn initialize_blend(
        &mut self,
        admin: u64,
        underlying: u64,
        pool: u64,
        reserves: &Vec<u64>,
        reserve: &Reserve,
    ) -> (result: Result<(), Error>)
        requires
            old(self).valid(),
            old(self).settings is None ==> old(self).shares.balances@ == Map::<u64, i128>::empty(),
            reserves@.len() <= u32::MAX,
        ensures
            final(self).valid(),
            result == (if old(self).settings is Some {
                Err::<(), Error>(Error::AlreadyInitialized)
            } else if first_slot(reserves@, underlying, reserve.config.index as int)
                && reserve.config.decimals == 7 {
                Ok(())
            } else {
                Err(Error::InvalidBlendReserve)
            }),
            result is Ok ==> {
                &&& final(self).settings == Some(
                    Config {
                        admin,
                        underlying,
                        pool: Some(pool),
                        reserve_index: reserve.config.index,
                    },
                )
                &&& final(self).rate == Some(1_000_000_000_000_000_000i128)
                &&& final(self).shares.supply == 0
            },
            result is Err ==> {
                &&& final(self).settings == old(self).settings
                &&& final(self).rate == old(self).rate
                &&& final(self).shares.supply == old(self).shares.supply
            },
            final(self).shares.balances@ == old(self).shares.balances@,
            final(self).shares.principals@ == old(self).shares.principals@,
            final(self).shares.allowances@ == old(self).shares.allowances@,
    {
        if self.settings.is_some() {
            return Err(Error::AlreadyInitialized);
        }
        let reserve_index: u32 = match find_reserve(reserves, underlying) {
            Some(index) => index,
            None => {
                return Err(Error::InvalidBlendReserve);
            },
        };
        if reserve.config.index != reserve_index || reserve.config.decimals != DECIMALS {
            return Err(Error::InvalidBlendReserve);
        }
        self.write_initial_config(Config { admin, underlying, pool: Some(pool), reserve_index });
        Ok(())
    }

    pub fn config(&self) -> (result: Result<Config, Error>)
        ensures
            result == (match self.settings {
                Some(config) => Ok::<Config, Error>(config),
                None => Err(Error::NotInitialized),
            }),
    {
        match self.settings {
            Some(config) => Ok(config),
            None => Err(Error::NotInitialized),
        }
    }

    /// Sets the rate of a wrapper without a pool. The caller has established
    /// that `admin` asked.
    pub fn set_exchange_rate(&mut self, admin: u64, exchange_rate: i128) -> (result: Result<(), Error>)
        requires
            old(self).valid(),
        ensures
            final(self).valid(),
            result == (match old(self).settings {
                None => Err::<(), Error>(Error::NotInitialized),
                Some(config) => if admin != config.admin {
                    Err(Error::NotInitialized)
                } else if config.pool is Some {
                    Err(Error::ReadOnlyExchangeRate)
                } else if exchange_rate <= 0 {
                    Err(Error::InvalidExchangeRate)
                } else {
                    Ok(())
                },
            }),
            final(self).rate == (if result is Ok {
                Some(exchange_rate)
            } else {
                old(self).rate
            }),
            final(self).settings == old(self).settings,
            final(self).shares == old(self).shares,
    {
        let config: Config = self.config()?;
        if admin != config.admin {
            return Err(Error::NotInitialized);
        }
        if config.pool.is_some() {
            return Err(Error::ReadOnlyExchangeRate);
        }
        Self::require_exchange_rate(exchange_rate)?;
        self.rate = Some(exchange_rate);
        Ok(())
    }

    pub fn require_positive_amount(n: i128) -> (result: Result<(), Error>)
        ensures
            result == (if n <= 0 {
                Err::<(), Error>(Error::InvalidAmount)
            } else {
                Ok(())
            }),
    {
        if n <= 0 {
            return Err(Error::InvalidAmount);
        }
        Ok(())
    }

    pub fn require_exchange_rate(exchange_rate: i128) -> (result: Result<(), Error>)
        ensures
            result == (if exchange_rate <= 0 {
                Err::<(), Error>(Error::InvalidExchangeRate)
            } else {
                Ok(())
            }),
    {
        if exchange_rate <= 0 {
            return Err(Error::InvalidExchangeRate);
        }
        Ok(())
    }

    pub fn share_balance(&self, holder: u64) -> (result: Result<i128, Error>)
        ensures
            result == (if self.settings is Some {
                Ok::<i128, Error>(amount(self.shares.balances@, holder))
            } else {
                Err(Error::NotInitialized)
            }),
    {
        self.config()?;
        Ok(self.shares.balances.get(holder))
    }

    pub fn total_shares(&self) -> (result: Result<i128, Error>)
        ensures
            result == (if self.settings is Some {
                Ok::<i128, Error>(self.shares.supply)
            } else {
                Err(Error::NotInitialized)
            }),
    {
        self.config()?;
        Ok(self.shares.supply)
    }

    pub fn balance(&self, id: u64) -> (held: i128)
        ensures
            held == amount(self.shares.balances@, id),
    {
        self.shares.balances.get(id)
    }

    pub fn total_supply(&self) -> (supply: i128)
        ensures
            supply == self.shares.supply,
    {
        self.shares.supply
    }

    pub fn decimals(&self) -> (decimals: u32)
        ensures
            decimals == 7,
    {
        DECIMALS
    }

    pub fn name(&self) -> (name: &'static str)
        ensures
            name@ == "Sidereal Standardized Yield"@,
    {
        "Sidereal Standardized Yield"
    }

    pub fn symbol(&self) -> (symbol: &'static str)
        ensures
            symbol@ == "sSY"@,
    {
        "sSY"
    }

    pub fn allowance(&self, ledger: u32, from: u64, spender: u64) -> (allowed: i128)
        ensures
            allowed == in_force(self.shares.allowances@, ledger, from, spender).amount,
    {
        self.shares.allowances.get(ledger, from, spender).amount
    }

    /// Sets an allowance. The caller has established that `from` asked.
    pub fn approve(
        &mut self,
        ledger: u32,
        from: u64,
        spender: u64,
        n: i128,
        expiration_ledger: u32,
    ) -> (result: Result<(), Error>)
        ensures
            result == (if n < 0 {
                Err::<(), Error>(Error::InvalidAmount)
            } else if n > 0 && expiration_ledger < ledger {
                Err(Error::InvalidExpiration)
            } else {
                Ok(())
            }),
            final(self).shares.allowances@ == (if result is Ok {
                filed(
                    old(self).shares.allowances@,
                    from,
                    spender,
                    AllowanceValue { amount: n, expiration_ledger },
                )
            } else {
                old(self).shares.allowances@
            }),
            final(self).settings == old(self).settings,
            final(self).rate == old(self).rate,
            final(self).shares.supply == old(self).shares.supply,
            final(self).shares.balances@ == old(self).shares.balances@,
            final(self).shares.principals@ == old(self).shares.principals@,
    {
        if n < 0 {
            return Err(Error::InvalidAmount);
        }
        if n > 0 && expiration_ledger < ledger {
            return Err(Error::InvalidExpiration);
        }
        self.shares.allowances.set(from, spender, AllowanceValue { amount: n, expiration_ledger });
        Ok(())
    }

    fn move_balance(&mut self, from: u64, to: u64, n: i128) -> (result: Result<(), Error>)
        requires
            old(self).valid(),
            n > 0,
        ensures
            final(self).valid(),
            final(self).shares.unheld() == old(self).shares.unheld(),
            final(self).settings == old(self).settings,
            final(self).rate == old(self).rate,
            final(self).shares.supply == old(self).shares.supply,
            final(self).shares.allowances@ == old(self).shares.allowances@,
            result == (match transfer_outcome(
                old(self).shares.balances@,
                old(self).shares.principals@,
                from,
                to,
                n as int,
            ) {
                Moved::Done => Ok::<(), Error>(()),
                Moved::Short => Err(Error::InsufficientBalance),
                Moved::Overflow => Err(Error::MathOverflow),
            }),
            result is Ok ==> {
                &&& final(self).shares.balances@ == shifted(
                    old(self).shares.balances@,
                    from,
                    to,
                    n as int,
                )
                &&& final(self).shares.principals@ == shifted(
                    old(self).shares.principals@,
                    from,
                    to,
                    carried(
                        old(self).shares.balances@,
                        old(self).shares.principals@,
                        from,
                        n as int,
                    )->0 as int,
                )
            },
            result is Err ==> {
                &&& final(self).shares.balances@ == old(self).shares.balances@
                &&& final(self).shares.principals@ == old(self).shares.principals@
            },
    {
        match self.shares.transfer(from, to, n) {
            Moved::Done => Ok(()),
            Moved::Short => Err(Error::InsufficientBalance),
            Moved::Overflow => Err(Error::MathOverflow),
        }
    }

    /// Moves shares, and with them their part of the principal. The caller has
    /// established that `from` asked.
    pub fn transfer(&mut self, from: u64, to: u64, n: i128) -> (result: Result<(), Error>)
        requires
            old(self).valid(),
        ensures
            final(self).valid(),
            final(self).shares.unheld() == old(self).shares.unheld(),
            final(self).settings == old(self).settings,
            final(self).rate == old(self).rate,
            final(self).shares.supply == old(self).shares.supply,
            final(self).shares.allowances@ == old(self).shares.allowances@,
            result == (if n <= 0 {
                Err::<(), Error>(Error::InvalidAmount)
            } else {
                match transfer_outcome(
                    old(self).shares.balances@,
                    old(self).shares.principals@,
                    from,
                    to,
                    n as int,
                ) {
                    Moved::Done => Ok(()),
                    Moved::Short => Err(Error::InsufficientBalance),
                    Moved::Overflow => Err(Error::MathOverflow),
                }
            }),
            result is Ok ==> {
                &&& final(self).shares.balances@ == shifted(
                    old(self).shares.balances@,
                    from,
                    to,
                    n as int,
                )
                &&& final(self).shares.principals@ == shifted(
                    old(self).shares.principals@,
                    from,
                    to,
                    carried(
                        old(self).shares.balances@,
                        old(self).shares.principals@,
                        from,
                        n as int,
                    )->0 as int,
                )
            },
            result is Err ==> {
                &&& final(self).shares.balances@ == old(self).shares.balances@
                &&& final(self).shares.principals@ == old(self).shares.principals@
            },
    {
        Self::require_positive_amount(n)?;
        self.move_balance(from, to, n)
    }

    /// Moves shares out of an allowance. The caller has established that
    /// `spender` asked.
    pub fn transfer_from(&mut self, ledger: u32, spender: u64, from: u64, to: u64, n: i128) -> (result:
        Result<(), Error>)
        requires
            old(self).valid(),
        ensures
            final(self).valid(),
            final(self).shares.unheld() == old(self).shares.unheld(),
            final(self).settings == old(self).settings,
            final(self).rate == old(self).rate,
            final(self).shares.supply == old(self).shares.supply,
            result == (if n <= 0 {
                Err::<(), Error>(Error::InvalidAmount)
            } else if in_force(old(self).shares.allowances@, ledger, from, spender).amount < n {
                Err(Error::InsufficientAllowance)
            } else {
                match transfer_outcome(
                    old(self).shares.balances@,
                    old(self).shares.principals@,
                    from,
                    to,
                    n as int,
                ) {
                    Moved::Done => Ok(()),
                    Moved::Short => Err(Error::InsufficientBalance),
                    Moved::Overflow => Err(Error::MathOverflow),
                }
            }),
            result is Ok ==> {
                &&& final(self).shares.balances@ == shifted(
                    old(self).shares.balances@,
                    from,
                    to,
                    n as int,
                )
                &&& final(self).shares.principals@ == shifted(
                    old(self).shares.principals@,
                    from,
                    to,
                    carried(
                        old(self).shares.balances@,
                        old(self).shares.principals@,
                        from,
                        n as int,
                    )->0 as int,
                )
                &&& final(self).shares.allowances@ == spent(
                    old(self).shares.allowances@,
                    ledger,
                    from,
                    spender,
                    n as int,
                )
            },
            result is Err ==> {
                &&& final(self).shares.balances@ == old(self).shares.balances@
                &&& final(self).shares.principals@ == old(self).shares.principals@
                &&& final(self).shares.allowances@ == old(self).shares.allowances@
            },
    {
        Self::require_positive_amount(n)?;
        if self.allowance(ledger, from, spender) < n {
            return Err(Error::InsufficientAllowance);
        }
        self.move_balance(from, to, n)?;
        self.shares.allowances.spend(ledger, from, spender, n);
        Ok(())
    }

    /// Underlying per share. `holding` is the wrapper's position in its pool; a
    /// wrapper without one does not look at it.
    pub fn exchange_rate(&self, holding: &Holding) -> (result: Result<i128, Error>)
        ensures
            result == self.rate_in_force(*holding),
    {
        let config: Config = self.config()?;
        if config.pool.is_some() {
            let aum: i128 = check_overflow(holding.assets())?;
            check_overflow(derived_exchange_rate(aum, self.shares.supply))
        } else {
            match self.rate {
                Some(rate) => Ok(rate),
                None => Ok(WAD),
            }
        }
    }

    pub fn underlying(&self) -> (result: Result<u64, Error>)
        ensures
            result == (match self.settings {
                Some(config) => Ok::<u64, Error>(config.underlying),
                None => Err(Error::NotInitialized),
            }),
    {
        let config: Config = self.config()?;
        Ok(config.underlying)
    }

    /// What a holder's shares are worth above what was paid in for them.
    pub fn accrued_yield(&self, holder: u64, holding: &Holding) -> (result: Result<i128, Error>)
        requires
            self.valid(),
        ensures
            result == (match self.rate_in_force(*holding) {
                Err(error) => Err::<i128, Error>(error),
                Ok(rate) => checked(
                    accrued_value(
                        amount(self.shares.balances@, holder) as int,
                        rate as int,
                        amount(self.shares.principals@, holder) as int,
                    ),
                ),
            }),
    {
        let rate: i128 = self.exchange_rate(holding)?;
        check_overflow(self.shares.accrued(holder, rate))
    }

    /// Prices a deposit before its underlying moves.
    pub fn begin_deposit(&self, n: i128, holding: &Holding) -> (result: Result<i128, Error>)
        ensures
            result == (if self.settings is None {
                Err::<i128, Error>(Error::NotInitialized)
            } else if n <= 0 {
                Err(Error::InvalidAmount)
            } else {
                self.rate_in_force(*holding)
            }),
    {
        self.config()?;
        Self::require_positive_amount(n)?;
        self.exchange_rate(holding)
    }

    /// The underlying a deposit added to the wrapper.
    fn measure_deposit(&self, n: i128, before: &Holding, after: &Holding) -> (result: Option<i128>)
        ensures
            result == self.added(n as int, *before, *after),
    {
        let pooled: bool = match self.settings {
            Some(config) => config.pool.is_some(),
            None => false,
        };
        if !pooled {
            return Some(n);
        }
        match (before.assets(), after.assets()) {
            (Some(worth_before), Some(worth_after)) => worth_after.checked_sub(worth_before),
            _ => None,
        }
    }

    /// Mints for a deposit whose underlying has moved: against what the pool
    /// position rose by, at the rate before it did. `before` and `after` are
    /// the position around the supply. The caller has established that `from`
    /// asked.
    pub fn deposit(&mut self, from: u64, n: i128, before: &Holding, after: &Holding) -> (result: Result<
        i128,
        Error,
    >)
        requires
            old(self).valid(),
        ensures
            final(self).valid(),
            final(self).shares.unheld() == old(self).shares.unheld(),
            final(self).settings == old(self).settings,
            final(self).rate == old(self).rate,
            final(self).shares.allowances@ == old(self).shares.allowances@,
            result == old(self).deposit_result(from, n as int, *before, *after),
            match result {
                Ok(minted) => {
                    &&& final(self).shares.supply == old(self).shares.supply + minted
                    &&& final(self).shares.balances@ == credited(
                        old(self).shares.balances@,
                        from,
                        minted as int,
                    )
                    &&& final(self).shares.principals@ == credited(
                        old(self).shares.principals@,
                        from,
                        n as int,
                    )
                },
                Err(_) => {
                    &&& final(self).shares.supply == old(self).shares.supply
                    &&& final(self).shares.balances@ == old(self).shares.balances@
                    &&& final(self).shares.principals@ == old(self).shares.principals@
                },
            },
    {
        let rate: i128 = self.begin_deposit(n, before)?;
        let added: i128 = check_overflow(self.measure_deposit(n, before, after))?;
        proof {
            if self.pooled() {
                self.lemma_pool_bounds(*before, *after);
            }
        }
        proof {
            if rate < 0 {
                lemma_reducible(added as int, WAD as int, rate as int);
            }
        }
        let minted: i128 = check_overflow(mul_div(added, WAD, rate))?;
        if minted <= 0 {
            return Err(Error::InvalidAmount);
        }
        proof {
            lemma_total_bounds(self.shares.balances@, from, from);
            lemma_total_bounds(self.shares.principals@, from, from);
        }
        let supply: i128 = check_overflow(self.shares.supply.checked_add(minted))?;
        let principal: i128 = check_overflow(self.shares.principals.get(from).checked_add(n))?;
        proof {
            lemma_credited(self.shares.balances@, from, minted as int);
            lemma_credited(self.shares.principals@, from, n as int);
        }
        let balance: i128 = self.shares.balances.get(from);
        self.shares.balances.set(from, balance + minted);
        self.shares.principals.set(from, principal);
        self.shares.supply = supply;
        Ok(minted)
    }

    /// Pool valuations and the rate derived from them stay clear of the least
    /// `i128`.
    proof fn lemma_pool_bounds(self, before: Holding, after: Holding)
        ensures
            self.pooled() && self.rate_in_force(before) is Ok ==> self.rate_in_force(before)->Ok_0
                > i128::MIN,
            before.worth() is Some && after.worth() is Some ==> after.worth()->0 - before.worth()->0
                > i128::MIN,
    {
        lemma_quot_fits_tightly(before);
        lemma_quot_fits_tightly(after);
        if self.pooled() && self.rate_in_force(before) is Ok {
            let aum = before.worth()->0 as int;
            if self.shares.supply > 0 {
                lemma_quot_fits(aum * 1_000_000_000_000_000_000, self.shares.supply as int);
                assert(aum * 1_000_000_000_000_000_000 != i128::MIN);
            }
        }
    }

    /// The underlying a redemption asks the pool for, or owes by itself.
    pub fn begin_redeem(&self, from: u64, n: i128, holding: &Holding) -> (result: Result<i128, Error>)
        ensures
            result == self.requested(from, n as int, *holding),
    {
        self.config()?;
        Self::require_positive_amount(n)?;
        let rate: i128 = self.exchange_rate(holding)?;
        if n > self.shares.balances.get(from) {
            return Err(Error::InsufficientBalance);
        }
        check_overflow(mul_div(n, rate, WAD))
    }

    /// What a redemption burns and releases, from what came out of the pool.
    fn measure_redemption(
        pooled: bool,
        n: i128,
        requested: i128,
        rate: i128,
        payout: Option<Payout>,
    ) -> (result: Result<Option<(i128, i128)>, Error>)
        requires
            n > 0,
            scaled(n as int, rate as int, 1_000_000_000_000_000_000) == Some(requested),
        ensures
            match fill(pooled, n as int, requested as int, rate as int, payout) {
                Err(error) => result == Err::<Option<(i128, i128)>, Error>(error),
                Ok(None) => result == Ok::<Option<(i128, i128)>, Error>(None),
                Ok(Some((burned, released))) => match result {
                    Ok(Some((b, r))) => b == burned && r == released && 0 <= b <= n,
                    _ => false,
                },
            },
    {
        if !pooled {
            return Ok(Some((n, requested)));
        }
        let payout: Payout = match payout {
            Some(payout) => payout,
            None => {
                return Ok(None);
            },
        };
        let received: i128 = check_overflow(payout.after.checked_sub(payout.before))?;
        if received <= 0 {
            return Ok(None);
        }
        if received >= requested {
            return Ok(Some((n, received)));
        }
        proof {
            lemma_partial_burn(n as int, rate as int, received as int);
        }
        let burned: i128 = check_overflow(mul_div(received, WAD, rate))?;
        Ok(Some((burned, received)))
    }

    /// Burns for a redemption. `holding` is the position the redemption was
    /// priced at, and `payout` the wrapper's balance around the pool's payment,
    /// `None` where the pool refused; a wrapper without a pool does not look at
    /// it. The result is the underlying to hand over: zero, with nothing burned,
    /// where none came out. The caller has established that `from` asked.
    pub fn redeem(&mut self, from: u64, n: i128, holding: &Holding, payout: Option<Payout>) -> (result:
        Result<i128, Error>)
        requires
            old(self).valid(),
        ensures
            final(self).valid(),
            final(self).shares.unheld() == old(self).shares.unheld(),
            final(self).settings == old(self).settings,
            final(self).rate == old(self).rate,
            final(self).shares.allowances@ == old(self).shares.allowances@,
            match old(self).redemption(from, n as int, *holding, payout) {
                Err(error) => result == Err::<i128, Error>(error),
                Ok(None) => result == Ok::<i128, Error>(0),
                Ok(Some((burned, principal, released))) => {
                    &&& result == Ok::<i128, Error>(released as i128)
                    &&& fits(released)
                    &&& final(self).shares.supply == old(self).shares.supply - burned
                    &&& final(self).shares.balances@ == debited(
                        old(self).shares.balances@,
                        from,
                        burned,
                    )
                    &&& final(self).shares.principals@ == debited(
                        old(self).shares.principals@,
                        from,
                        principal,
                    )
                },
            },
            !(old(self).redemption(from, n as int, *holding, payout) matches Ok(Some(_))) ==> {
                &&& final(self).shares.supply == old(self).shares.supply
                &&& final(self).shares.balances@ == old(self).shares.balances@
                &&& final(self).shares.principals@ == old(self).shares.principals@
            },
    {
        let requested: i128 = self.begin_redeem(from, n, holding)?;
        let rate: i128 = self.exchange_rate(holding)?;
        let config: Config = self.config()?;
        let (burned, released): (i128, i128) = match Self::measure_redemption(
            config.pool.is_some(),
            n,
            requested,
            rate,
            payout,
        )? {
            Some(both) => both,
            None => {
                return Ok(0);
            },
        };
        let principal: i128 = check_overflow(self.shares.principal_of(from, burned))?;
        proof {
            lemma_total_bounds(self.shares.balances@, from, from);
            lemma_total_bounds(self.shares.principals@, from, from);
            lemma_carried(self.shares.balances@, self.shares.principals@, from, burned as int);
            lemma_debited(self.shares.balances@, from, burned as int);
            lemma_debited(self.shares.principals@, from, principal as int);
        }
        let held: i128 = self.shares.balances.get(from);
        let paid_in: i128 = self.shares.principals.get(from);
        self.shares.balances.set(from, held - burned);
        self.shares.principals.set(from, paid_in - principal);
        self.shares.supply = self.shares.supply - burned;
        Ok(released)
    }
}

/// A valuation is far inside the range of its product.
proof fn lemma_quot_fits_tightly(holding: Holding)
    ensures
        match holding.worth() {
            Some(value) => -0x4000_0000_0000_0000_0000_0000_0000_0000int < value
                < 0x4000_0000_0000_0000_0000_0000_0000_0000int,
            None => true,
        },
{
    if holding.worth() is Some {
        let n = holding.b_tokens * holding.b_rate;
        lemma_quot_times(n, 1_000_000_000_000);
        lemma_quot_fits(n, 1_000_000_000_000);
    }
}

/// Part of what was asked for is paid for with part of the shares.
proof fn lemma_partial_burn(n: int, rate: int, received: int)
    requires
        n > 0,
        0 < received < quot(n * rate, 1_000_000_000_000_000_000),
    ensures
        rate > 0,
        0 <= quot(received * 1_000_000_000_000_000_000, rate) < n,
        quot(received * 1_000_000_000_000_000_000, rate) == received * 1_000_000_000_000_000_000
            / rate,
{
    let w = 1_000_000_000_000_000_000int;
    let asked = quot(n * rate, w);
    lemma_quot_times(n * rate, w);
    assert(rate > 0) by (nonlinear_arith)
        requires
            n > 0,
            n * rate > 0,
    ;
    lemma_floor(received * w, rate);
    let burned = received * w / rate;
    assert(burned < n) by (nonlinear_arith)
        requires
            rate > 0,
            rate * burned <= received * w,
            received * w < n * rate,
    ;
}

/// A deposit into a pool never lowers the rate for those already in: it mints
/// against what the position rose by, not against what was sent.
pub proof fn law_deposit_never_lowers_the_rate(
    wrapper: SyWrapper,
    from: u64,
    n: int,
    before: Holding,
    after: Holding,
)
    requires
        wrapper.valid(),
        wrapper.pooled(),
        before.worth() is Some,
        before.worth()->0 >= 0,
        wrapper.deposit_result(from, n, before, after) is Ok,
        fits(after.worth()->0 * 1_000_000_000_000_000_000),
    ensures
        ({
            let minted = wrapper.deposit_result(from, n, before, after)->Ok_0;
            let later = rate_value(after.worth()->0 as int, wrapper.shares.supply + minted);
            &&& later is Some
            &&& wrapper.rate_in_force(before)->Ok_0 <= later->0
        }),
{
    let w = 1_000_000_000_000_000_000int;
    let minted = wrapper.deposit_result(from, n, before, after)->Ok_0 as int;
    let rate = wrapper.rate_in_force(before)->Ok_0 as int;
    let supply = wrapper.shares.supply as int;
    let aum = before.worth()->0 as int;
    let added = wrapper.added(n, before, after)->0 as int;
    crate::ledger::lemma_total_bounds(wrapper.shares.balances@, from, from);
    if supply > 0 {
        lemma_quot_fits(aum * w, supply);
        lemma_floor(aum * w, supply);
    }
    lemma_quot_times(added * w, rate);
    assert(rate > 0);
    assert(added > 0) by {
        if added <= 0 {
            lemma_floor(-(added * w), rate);
        }
    }
    lemma_floor(added * w, rate);
    assert(rate * (supply + minted) == rate * supply + minted * rate && (supply == 0 ==> rate
        * supply == 0)) by (nonlinear_arith);
    assert(rate * supply == supply * rate && rate * supply == (aum * w / supply) * supply || supply
        == 0) by (nonlinear_arith)
        requires
            supply == 0 || rate == aum * w / supply,
    ;
    lemma_quot_reaches(after.worth()->0 * w, supply + minted, rate);
}

/// A redemption that the position pays in full, and no more than it asked for,
/// never lowers the rate for those who stay.
pub proof fn law_full_redemption_never_lowers_the_rate(
    wrapper: SyWrapper,
    from: u64,
    n: int,
    holding: Holding,
    payout: Payout,
)
    requires
        wrapper.valid(),
        wrapper.pooled(),
        holding.worth() is Some,
        holding.worth()->0 >= 0,
        n < wrapper.shares.supply,
        wrapper.requested(from, n, holding) is Ok,
        payout.after - payout.before == wrapper.requested(from, n, holding)->Ok_0,
    ensures
        ({
            let left = holding.worth()->0 - (payout.after - payout.before);
            let later = rate_value(left, wrapper.shares.supply - n);
            &&& later is Some
            &&& wrapper.rate_in_force(holding)->Ok_0 <= later->0
        }),
{
    let w = 1_000_000_000_000_000_000int;
    let rate = wrapper.rate_in_force(holding)->Ok_0 as int;
    let supply = wrapper.shares.supply as int;
    let aum = holding.worth()->0 as int;
    let paid = wrapper.requested(from, n, holding)->Ok_0 as int;
    lemma_quot_fits(aum * w, supply);
    lemma_floor(aum * w, supply);
    assert(n * rate >= 0 && rate * (supply - n) == rate * supply - n * rate && rate * supply
        == supply * rate && rate * (supply - n) >= 0) by (nonlinear_arith)
        requires
            n > 0,
            rate >= 0,
            supply > n,
    ;
    lemma_quot_times(n * rate, w);
    lemma_quot_reaches((aum - paid) * w, supply - n, rate);
}

/// Putting underlying in and taking it straight out again gains nothing: the
/// shares a deposit mints are worth at most what was paid for them.
pub proof fn law_round_trip_gains_nothing(n: int, rate: int)
    requires
        n > 0,
        rate > 0,
        scaled(n, 1_000_000_000_000_000_000, rate) is Some,
    ensures
        ({
            let minted = scaled(n, 1_000_000_000_000_000_000, rate)->0 as int;
            0 <= quot(minted * rate, 1_000_000_000_000_000_000) <= n
        }),
{
    let w = 1_000_000_000_000_000_000int;
    let minted = scaled(n, w, rate)->0 as int;
    lemma_floor(n * w, rate);
    assert(0 <= minted * rate <= n * w) by (nonlinear_arith)
        requires
            rate > 0,
            minted >= 0,
            minted * rate <= n * w,
    ;
    lemma_floor(minted * rate, w);
}

/// The rate in force, in plain terms. A wrapper with a pool is worth its pool
/// shares at their rate, rounded down, and its own rate is that worth per share,
/// rounded down, or one before there are shares. A wrapper without a pool has the
/// rate last set, or one.
pub proof fn law_rate_terms(wrapper: SyWrapper, holding: Holding)
    requires
        holding.b_tokens >= 0,
        holding.b_rate >= 0,
    ensures
        ({
            let w = 1_000_000_000_000_000_000int;
            let supply = wrapper.shares.supply as int;
            let value = holding.b_tokens * holding.b_rate;
            let found = wrapper.rate_in_force(holding);
            &&& wrapper.settings is None ==> found is Err
            &&& wrapper.settings matches Some(config) ==> match config.pool {
                Some(_) => {
                    &&& found matches Ok(rate) ==> holding.worth() matches Some(aum) && {
                        &&& aum * 1_000_000_000_000 <= value < (aum + 1) * 1_000_000_000_000
                        &&& supply <= 0 ==> rate == w
                        &&& supply > 0 ==> rate * supply <= aum * w < (rate + 1) * supply
                    }
                    &&& value <= i128::MAX && (value / 1_000_000_000_000) * w <= i128::MAX
                        ==> found is Ok
                },
                None => found == Ok::<i128, Error>(
                    match wrapper.rate {
                        Some(rate) => rate,
                        None => 1_000_000_000_000_000_000,
                    },
                ),
            }
        }),
{
    law_pool_shares_are_priced_at_the_rate(
        holding.b_tokens as int,
        0,
        holding.b_rate as int,
    );
    let n = holding.b_tokens * holding.b_rate;
    assert(n >= 0) by (nonlinear_arith)
        requires
            n == holding.b_tokens * holding.b_rate,
            holding.b_tokens >= 0,
            holding.b_rate >= 0,
    ;
    if fits(n) {
        lemma_quot_fits(n, 1_000_000_000_000);
        law_rate_is_assets_per_share(
            holding.worth()->0 as int,
            wrapper.shares.supply as int,
        );
    }
}

/// What a deposit mints: what it added, at the rate before it, rounded down. With
/// a pool, what it added is what the position rose by; without, it is the deposit
/// itself. It is owed wherever that mints something and all is in range.
pub proof fn law_deposit_terms(
    wrapper: SyWrapper,
    from: u64,
    n: i128,
    before: Holding,
    after: Holding,
)
    requires
        wrapper.valid(),
        before.b_tokens >= 0,
        before.b_rate >= 0,
    ensures
        ({
            let w = 1_000_000_000_000_000_000int;
            let pooled = wrapper.settings matches Some(config) && config.pool is Some;
            let rate = wrapper.rate_in_force(before);
            let added = if pooled {
                after.worth()->0 - before.worth()->0
            } else {
                n as int
            };
            let result = wrapper.deposit_result(from, n as int, before, after);
            &&& result matches Ok(minted) ==> {
                &&& n > 0 && minted > 0
                &&& rate is Ok && rate->Ok_0 > 0
                &&& pooled ==> before.worth() is Some && after.worth() is Some
                &&& minted * rate->Ok_0 <= added * w < (minted + 1) * rate->Ok_0
            }
            &&& wrapper.settings is Some && n > 0 && rate is Ok && rate->Ok_0 > 0 && (pooled
                ==> before.worth() is Some && after.worth() is Some) && added * w >= rate->Ok_0
                && added * w <= i128::MAX && wrapper.shares.supply + added * w <= i128::MAX
                && amount(wrapper.shares.principals@, from) + n <= i128::MAX ==> result is Ok
        }),
{
    let w = 1_000_000_000_000_000_000int;
    let rate = wrapper.rate_in_force(before)->Ok_0 as int;
    law_rate_terms(wrapper, before);
    let pooled = wrapper.pooled();
    let added = if pooled {
        after.worth()->0 - before.worth()->0
    } else {
        n as int
    };
    crate::ledger::lemma_total_bounds(wrapper.shares.balances@, from, from);
    crate::ledger::lemma_total_bounds(wrapper.shares.principals@, from, from);
    if wrapper.rate_in_force(before) is Ok && wrapper.settings is Some {
        if pooled && wrapper.shares.supply > 0 {
            let aum = before.worth()->0 as int;
            let supply = wrapper.shares.supply as int;
            assert(rate >= 0) by (nonlinear_arith)
                requires
                    aum >= 0 || (aum + 1) * 1_000_000_000_000 > 0,
                    aum * w < (rate + 1) * supply,
                    supply > 0,
                    w == 1_000_000_000_000_000_000,
            ;
        }
        if rate > 0 {
            law_scaled_is_the_quotient(added, w, rate, 1, added * w, rate);
            if added * w >= rate && fits(added * w) {
                let q = scaled(added, w, rate)->0 as int;
                assert(q >= 1 && q <= added * w) by (nonlinear_arith)
                    requires
                        added * w >= rate,
                        rate > 0,
                        q * rate <= added * w < (q + 1) * rate,
                ;
            }
        } else {
            lemma_quot_fits_tightly(before);
        }
    }
}

/// What a redemption burns and releases. It asks for the shares' worth at the
/// rate, rounded down. Without a pool that is what it releases, for all the
/// shares. With one it releases what came out of the pool: all the shares where
/// that is what was asked for or more, and otherwise the most that it pays for at
/// the rate; nothing at all where nothing came. The principal of what is burned
/// goes with it, rounded down.
pub proof fn law_redemption_terms(
    wrapper: SyWrapper,
    from: u64,
    n: i128,
    holding: Holding,
    payout: Option<Payout>,
)
    requires
        wrapper.valid(),
        wrapper.rate_in_force(holding) matches Ok(rate) ==> rate >= 0,
    ensures
        ({
            let w = 1_000_000_000_000_000_000int;
            let pooled = wrapper.settings matches Some(config) && config.pool is Some;
            let rate = wrapper.rate_in_force(holding)->Ok_0 as int;
            let held = amount(wrapper.shares.balances@, from) as int;
            let paid_in = amount(wrapper.shares.principals@, from) as int;
            let asked = wrapper.requested(from, n as int, holding);
            let received = payout->0.after - payout->0.before;
            let came = payout is Some && received > 0;
            let settled = wrapper.redemption(from, n as int, holding, payout);
            &&& asked matches Ok(requested) ==> {
                &&& 0 < n <= held
                &&& wrapper.rate_in_force(holding) is Ok
                &&& requested * w <= n * rate < (requested + 1) * w
            }
            &&& wrapper.rate_in_force(holding) is Ok && 0 < n <= held && n * rate <= i128::MAX
                ==> asked is Ok
            &&& settled matches Ok(None) ==> pooled && !came
            &&& settled matches Ok(Some((burned, principal, released))) ==> {
                &&& asked is Ok
                &&& pooled ==> came && released == received
                &&& !pooled ==> released == asked->Ok_0
                &&& !pooled || received >= asked->Ok_0 ==> burned == n
                &&& pooled && received < asked->Ok_0 ==> burned * rate <= received * w < (burned
                    + 1) * rate
                &&& principal * held <= paid_in * burned < (principal + 1) * held
            }
            &&& asked is Ok && pooled && !came && (payout is Some ==> fits(received)) ==> settled
                == Ok::<Option<(int, int, int)>, Error>(None)
            &&& asked is Ok && (pooled ==> came && received * w <= i128::MAX) && paid_in * n
                <= i128::MAX ==> (settled matches Ok(Some(_)))
        }),
{
    let w = 1_000_000_000_000_000_000int;
    let rate = wrapper.rate_in_force(holding)->Ok_0 as int;
    let held = amount(wrapper.shares.balances@, from) as int;
    let paid_in = amount(wrapper.shares.principals@, from) as int;
    crate::ledger::lemma_total_bounds(wrapper.shares.balances@, from, from);
    crate::ledger::lemma_total_bounds(wrapper.shares.principals@, from, from);
    if wrapper.rate_in_force(holding) is Ok && 0 < n <= held {
        assert(n * rate >= 0 && paid_in * n >= 0) by (nonlinear_arith)
            requires
                n > 0,
                rate >= 0,
                paid_in >= 0,
        ;
        law_scaled_is_the_quotient(n as int, rate, w, 1, n * rate, w);
        if wrapper.requested(from, n as int, holding) is Ok {
            let requested = wrapper.requested(from, n as int, holding)->Ok_0 as int;
            let settled = fill(wrapper.pooled(), n as int, requested, rate, payout);
            let received = payout->0.after - payout->0.before;
            if wrapper.pooled() && payout is Some && 0 < received < requested {
                lemma_partial_burn(n as int, rate, received);
                law_scaled_is_the_quotient(received, w, rate, 1, received * w, rate);
            }
            if settled matches Ok(Some(_)) {
                let burned = settled->Ok_0->Some_0.0;
                assert(0 <= paid_in * burned <= paid_in * n) by (nonlinear_arith)
                    requires
                        paid_in >= 0,
                        0 <= burned <= n,
                ;
                law_scaled_is_the_quotient(paid_in, burned, held, 1, paid_in * burned, held);
            }
        }
    }
}

/// Why a deposit or a redemption is refused, the first reason that holds: no
/// wrapper, an amount that is not positive, no rate, or, to redeem, more shares
/// than the holder has.
pub proof fn law_refusals(
    wrapper: SyWrapper,
    from: u64,
    n: i128,
    before: Holding,
    after: Holding,
    payout: Option<Payout>,
)
    ensures
        ({
            let deposit = wrapper.deposit_result(from, n as int, before, after);
            let redeemed = wrapper.redemption(from, n as int, before, payout);
            let rate = wrapper.rate_in_force(before);
            &&& wrapper.settings is None ==> {
                &&& deposit is Err && deposit->Err_0 == Error::NotInitialized
                &&& redeemed is Err && redeemed->Err_0 == Error::NotInitialized
            }
            &&& wrapper.settings is Some && n <= 0 ==> {
                &&& deposit is Err && deposit->Err_0 == Error::InvalidAmount
                &&& redeemed is Err && redeemed->Err_0 == Error::InvalidAmount
            }
            &&& wrapper.settings is Some && n > 0 && rate is Err ==> {
                &&& deposit is Err && deposit->Err_0 == rate->Err_0
                &&& redeemed is Err && redeemed->Err_0 == rate->Err_0
            }
            &&& wrapper.settings is Some && n > 0 && rate is Ok && n > amount(
                wrapper.shares.balances@,
                from,
            ) ==> redeemed is Err && redeemed->Err_0 == Error::InsufficientBalance
        }),
{
}

} // verus!
