//! The principal token: a claim on face value at maturity, minted and redeemed
//! by the tokenizer.

pub use crate::allowance::AllowanceValue;
use crate::allowance::{filed, in_force, spent, AllowanceBook};
use crate::fixed::fits;
use crate::ledger::{
    amount, backed, credited, debited, lemma_credited, lemma_debited, lemma_shifted,
    lemma_total_bounds, lemma_total_empty, shifted, total, Ledger,
};
use vstd::prelude::*;

verus! {

/// Display decimals.
pub const DECIMALS: u32 = 7;

#[derive(Clone, Copy, Debug, PartialEq, Eq, Structural)]
pub struct Config {
    pub admin: u64,
    pub tokenizer: u64,
    pub sy_token: u64,
    pub maturity: u64,
}

#[derive(Clone, Copy, Debug, PartialEq, Eq, Structural)]
pub enum Error {
    AlreadyInitialized,
    NotInitialized,
    InvalidMaturity,
    InvalidAmount,
    LiveMarket,
    InsufficientBalance,
    InsufficientAllowance,
    MathOverflow,
    InvalidExpiration,
}

/// The principal token of one market.
#[derive(Clone, Debug)]
pub struct PtToken {
    pub settings: Option<Config>,
    pub supply: i128,
    pub balances: Ledger,
    pub allowances: AllowanceBook,
}

impl PtToken {
    /// What every operation keeps: no balance is negative, and no more is held
    /// than was issued.
    pub open spec fn valid(self) -> bool {
        backed(self.balances@, self.supply as int)
    }

    /// Issued tokens that no recorded account holds. No operation changes it:
    /// where it is zero, the supply is the sum of the balances.
    pub open spec fn unheld(self) -> int {
        self.supply - total(self.balances@)
    }

    pub fn new() -> (token: Self)
        ensures
            token.settings is None,
            token.supply == 0,
            token.balances@ == Map::<u64, i128>::empty(),
            token.allowances@ == Map::<u128, AllowanceValue>::empty(),
            token.valid(),
            token.unheld() == 0,
    {
        proof {
            lemma_total_empty();
        }
        PtToken {
            settings: None,
            supply: 0,
            balances: Ledger::new(),
            allowances: AllowanceBook::new(),
        }
    }

    pub fn initialize(
        &mut self,
        now: u64,
        admin: u64,
        tokenizer: u64,
        sy_token: u64,
        maturity: u64,
    ) -> (result: Result<(), Error>)
        ensures
            result == (if old(self).settings is Some {
                Err::<(), Error>(Error::AlreadyInitialized)
            } else if maturity <= now {
                Err(Error::InvalidMaturity)
            } else {
                Ok(())
            }),
            final(self).settings == (if result is Ok {
                Some(Config { admin, tokenizer, sy_token, maturity })
            } else {
                old(self).settings
            }),
            final(self).supply == old(self).supply,
            final(self).balances@ == old(self).balances@,
            final(self).allowances@ == old(self).allowances@,
    {
        if self.settings.is_some() {
            return Err(Error::AlreadyInitialized);
        }
        if maturity <= now {
            return Err(Error::InvalidMaturity);
        }
        self.settings = Some(Config { admin, tokenizer, sy_token, maturity });
        Ok(())
    }

    pub fn config(&self) -> (result: Result<Config, Error>)
        ensures
            result == (match self.settings {
                Some(config) => Ok::<Config, Error>(config),
                None => Err(Error::NotInitialized),
            }),
    {
        match self.settings {
            Some(config) => Ok(config),
            None => Err(Error::NotInitialized),
        }
    }

    pub fn maturity(&self) -> (result: Result<u64, Error>)
        ensures
            result == (match self.settings {
                Some(config) => Ok::<u64, Error>(config.maturity),
                None => Err(Error::NotInitialized),
            }),
    {
        let config: Config = self.config()?;
        Ok(config.maturity)
    }

    pub fn is_matured(&self, now: u64) -> (result: Result<bool, Error>)
        ensures
            result == (match self.settings {
                Some(config) => Ok::<bool, Error>(now >= config.maturity),
                None => Err(Error::NotInitialized),
            }),
    {
        let config: Config = self.config()?;
        Ok(now >= config.maturity)
    }

    fn require_matured(&self, now: u64) -> (result: Result<(), Error>)
        ensures
            result == (match self.settings {
                Some(config) => if now < config.maturity {
                    Err::<(), Error>(Error::LiveMarket)
                } else {
                    Ok(())
                },
                None => Err(Error::NotInitialized),
            }),
    {
        let config: Config = self.config()?;
        if now < config.maturity {
            return Err(Error::LiveMarket);
        }
        Ok(())
    }

    pub fn require_positive_amount(n: i128) -> (result: Result<(), Error>)
        ensures
            result == (if n <= 0 {
                Err::<(), Error>(Error::InvalidAmount)
            } else {
                Ok(())
            }),
    {
        if n <= 0 {
            return Err(Error::InvalidAmount);
        }
        Ok(())
    }

    /// Once the market has matured, PT stands one for one for SY face.
    pub fn redeemable_sy(&self, now: u64, pt_amount: i128) -> (result: Result<i128, Error>)
        ensures
            result == (match self.settings {
                None => Err::<i128, Error>(Error::NotInitialized),
                Some(config) => if now < config.maturity {
                    Err(Error::LiveMarket)
                } else if pt_amount <= 0 {
                    Err(Error::InvalidAmount)
                } else {
                    Ok(pt_amount)
                },
            }),
    {
        self.require_matured(now)?;
        Self::require_positive_amount(pt_amount)?;
        Ok(pt_amount)
    }

    /// Mints to an account. The caller has established that the tokenizer asked.
    pub fn mint(&mut self, to: u64, n: i128) -> (result: Result<(), Error>)
        requires
            old(self).valid(),
        ensures
            final(self).valid(),
            final(self).unheld() == old(self).unheld(),
            final(self).settings == old(self).settings,
            final(self).allowances@ == old(self).allowances@,
            result == (if old(self).settings is None {
                Err::<(), Error>(Error::NotInitialized)
            } else if n <= 0 {
                Err(Error::InvalidAmount)
            } else if !fits(old(self).supply + n) {
                Err(Error::MathOverflow)
            } else {
                Ok(())
            }),
            result is Ok ==> final(self).supply == old(self).supply + n && final(self).balances@
                == credited(old(self).balances@, to, n as int),
            result is Err ==> final(self).supply == old(self).supply && final(self).balances@ == old(self).balances@,
    {
        self.config()?;
        Self::require_positive_amount(n)?;
        proof {
            lemma_total_bounds(self.balances@, to, to);
        }
        let supply: i128 = match self.supply.checked_add(n) {
            Some(supply) => supply,
            None => {
                return Err(Error::MathOverflow);
            },
        };
        proof {
            lemma_credited(self.balances@, to, n as int);
        }
        let balance: i128 = self.balances.get(to);
        self.balances.set(to, balance + n);
        self.supply = supply;
        Ok(())
    }

    pub fn balance(&self, id: u64) -> (held: i128)
        ensures
            held == amount(self.balances@, id),
    {
        self.balances.get(id)
    }

    pub fn total_supply(&self) -> (supply: i128)
        ensures
            supply == self.supply,
    {
        self.supply
    }

    pub fn decimals(&self) -> (decimals: u32)
        ensures
            decimals == 7,
    {
        DECIMALS
    }

    pub fn name(&self) -> (name: &'static str)
        ensures
            name@ == "Sidereal Principal Token"@,
    {
        "Sidereal Principal Token"
    }

    pub fn symbol(&self) -> (symbol: &'static str)
        ensures
            symbol@ == "sPT"@,
    {
        "sPT"
    }

    pub fn allowance(&self, ledger: u32, from: u64, spender: u64) -> (allowed: i128)
        ensures
            allowed == in_force(self.allowances@, ledger, from, spender).amount,
    {
        self.allowances.get(ledger, from, spender).amount
    }

    /// Sets an allowance. The caller has established that `from` asked.
    pub fn approve(
        &mut self,
        ledger: u32,
        from: u64,
        spender: u64,
        n: i128,
        expiration_ledger: u32,
    ) -> (result: Result<(), Error>)
        ensures
            result == (if n < 0 {
                Err::<(), Error>(Error::InvalidAmount)
            } else if n > 0 && expiration_ledger < ledger {
                Err(Error::InvalidExpiration)
            } else {
                Ok(())
            }),
            final(self).allowances@ == (if result is Ok {
                filed(
                    old(self).allowances@,
                    from,
                    spender,
                    AllowanceValue { amount: n, expiration_ledger },
                )
            } else {
                old(self).allowances@
            }),
            final(self).settings == old(self).settings,
            final(self).supply == old(self).supply,
            final(self).balances@ == old(self).balances@,
    {
        if n < 0 {
            return Err(Error::InvalidAmount);
        }
        if n > 0 && expiration_ledger < ledger {
            return Err(Error::InvalidExpiration);
        }
        self.allowances.set(from, spender, AllowanceValue { amount: n, expiration_ledger });
        Ok(())
    }

    fn move_balance(&mut self, from: u64, to: u64, n: i128) -> (result: Result<(), Error>)
        requires
            old(self).valid(),
            n > 0,
        ensures
            final(self).valid(),
            final(self).unheld() == old(self).unheld(),
            final(self).settings == old(self).settings,
            final(self).supply == old(self).supply,
            final(self).allowances@ == old(self).allowances@,
            result == (if amount(old(self).balances@, from) < n {
                Err::<(), Error>(Error::InsufficientBalance)
            } else {
                Ok(())
            }),
            final(self).balances@ == (if result is Ok {
                shifted(old(self).balances@, from, to, n as int)
            } else {
                old(self).balances@
            }),
    {
        let from_balance: i128 = self.balances.get(from);
        if from_balance < n {
            return Err(Error::InsufficientBalance);
        }
        proof {
            lemma_shifted(self.balances@, from, to, n as int);
        }
        self.balances.set(from, from_balance - n);
        let to_balance: i128 = self.balances.get(to);
        self.balances.set(to, to_balance + n);
        Ok(())
    }

    /// Moves tokens. The caller has established that `from` asked.
    pub fn transfer(&mut self, from: u64, to: u64, n: i128) -> (result: Result<(), Error>)
        requires
            old(self).valid(),
        ensures
            final(self).valid(),
            final(self).unheld() == old(self).unheld(),
            final(self).settings == old(self).settings,
            final(self).supply == old(self).supply,
            final(self).allowances@ == old(self).allowances@,
            result == (if n <= 0 {
                Err::<(), Error>(Error::InvalidAmount)
            } else if amount(old(self).balances@, from) < n {
                Err(Error::InsufficientBalance)
            } else {
                Ok(())
            }),
            final(self).balances@ == (if result is Ok {
                shifted(old(self).balances@, from, to, n as int)
            } else {
                old(self).balances@
            }),
    {
        Self::require_positive_amount(n)?;
        self.move_balance(from, to, n)
    }

    /// Moves tokens out of an allowance. The caller has established that
    /// `spender` asked.
    pub fn transfer_from(&mut self, ledger: u32, spender: u64, from: u64, to: u64, n: i128) -> (result: Result<
        (),
        Error,
    >)
        requires
            old(self).valid(),
        ensures
            final(self).valid(),
            final(self).unheld() == old(self).unheld(),
            final(self).settings == old(self).settings,
            final(self).supply == old(self).supply,
            result == (if n <= 0 {
                Err::<(), Error>(Error::InvalidAmount)
            } else if in_force(old(self).allowances@, ledger, from, spender).amount < n {
                Err(Error::InsufficientAllowance)
            } else if amount(old(self).balances@, from) < n {
                Err(Error::InsufficientBalance)
            } else {
                Ok(())
            }),
            result is Ok ==> final(self).balances@ == shifted(
                old(self).balances@,
                from,
                to,
                n as int,
            ) && final(self).allowances@ == spent(
                old(self).allowances@,
                ledger,
                from,
                spender,
                n as int,
            ),
            result is Err ==> final(self).balances@ == old(self).balances@ && final(self).allowances@
                == old(self).allowances@,
    {
        Self::require_positive_amount(n)?;
        if self.allowance(ledger, from, spender) < n {
            return Err(Error::InsufficientAllowance);
        }
        self.move_balance(from, to, n)?;
        self.allowances.spend(ledger, from, spender, n);
        Ok(())
    }

    fn burn_balance(&mut self, from: u64, n: i128) -> (result: Result<(), Error>)
        requires
            old(self).valid(),
            n > 0,
        ensures
            final(self).valid(),
            final(self).unheld() == old(self).unheld(),
            final(self).settings == old(self).settings,
            final(self).allowances@ == old(self).allowances@,
            result == (if amount(old(self).balances@, from) < n {
                Err::<(), Error>(Error::InsufficientBalance)
            } else {
                Ok(())
            }),
            result is Ok ==> final(self).supply == old(self).supply - n && final(self).balances@
                == debited(old(self).balances@, from, n as int),
            result is Err ==> final(self).supply == old(self).supply && final(self).balances@ == old(self).balances@,
    {
        let from_balance: i128 = self.balances.get(from);
        if from_balance < n {
            return Err(Error::InsufficientBalance);
        }
        proof {
            lemma_debited(self.balances@, from, n as int);
        }
        self.balances.set(from, from_balance - n);
        self.supply = self.supply - n;
        Ok(())
    }

    /// Burns tokens. The caller has established that `from` asked.
    pub fn burn(&mut self, from: u64, n: i128) -> (result: Result<(), Error>)
        requires
            old(self).valid(),
        ensures
            final(self).valid(),
            final(self).unheld() == old(self).unheld(),
            final(self).settings == old(self).settings,
            final(self).allowances@ == old(self).allowances@,
            result == (if n <= 0 {
                Err::<(), Error>(Error::InvalidAmount)
            } else if amount(old(self).balances@, from) < n {
                Err(Error::InsufficientBalance)
            } else {
                Ok(())
            }),
            result is Ok ==> final(self).supply == old(self).supply - n && final(self).balances@
                == debited(old(self).balances@, from, n as int),
            result is Err ==> final(self).supply == old(self).supply && final(self).balances@ == old(self).balances@,
    {
        Self::require_positive_amount(n)?;
        self.burn_balance(from, n)
    }

    /// Burns tokens out of an allowance. The caller has established that
    /// `spender` asked.
    pub fn burn_from(&mut self, ledger: u32, spender: u64, from: u64, n: i128) -> (result: Result<
        (),
        Error,
    >)
        requires
            old(self).valid(),
        ensures
            final(self).valid(),
            final(self).unheld() == old(self).unheld(),
            final(self).settings == old(self).settings,
            result == (if n <= 0 {
                Err::<(), Error>(Error::InvalidAmount)
            } else if in_force(old(self).allowances@, ledger, from, spender).amount < n {
                Err(Error::InsufficientAllowance)
            } else if amount(old(self).balances@, from) < n {
                Err(Error::InsufficientBalance)
            } else {
                Ok(())
            }),
            result is Ok ==> final(self).supply == old(self).supply - n && final(self).balances@
                == debited(old(self).balances@, from, n as int) && final(self).allowances@ == spent(
                old(self).allowances@,
                ledger,
                from,
                spender,
                n as int,
            ),
            result is Err ==> final(self).supply == old(self).supply && final(self).balances@ == old(self).balances@ && final(self).allowances@ == old(self).allowances@,
    {
        Self::require_positive_amount(n)?;
        if self.allowance(ledger, from, spender) < n {
            return Err(Error::InsufficientAllowance);
        }
        self.burn_balance(from, n)?;
        self.allowances.spend(ledger, from, spender, n);
        Ok(())
    }
}

/// A transfer takes from one account exactly what it gives the other, and
/// touches no third; a transfer to oneself changes nothing.
pub proof fn law_transfer_conserves(token: PtToken, from: u64, to: u64, n: int, other: u64)
    requires
        token.valid(),
        0 < n <= amount(token.balances@, from),
        other != from,
        other != to,
    ensures
        ({
            let after = shifted(token.balances@, from, to, n);
            &&& total(after) == total(token.balances@)
            &&& amount(after, other) == amount(token.balances@, other)
            &&& from == to ==> amount(after, from) == amount(token.balances@, from)
            &&& from != to ==> amount(after, from) == amount(token.balances@, from) - n
                && amount(after, to) == amount(token.balances@, to) + n
        }),
{
    lemma_shifted(token.balances@, from, to, n);
}

} // verus!
