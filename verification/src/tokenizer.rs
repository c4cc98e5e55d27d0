//! The tokenizer: splits SY into principal and yield, recombines them, redeems
//! principal at maturity, and pays yield out of what principal does not need.
//!
//! Amounts held elsewhere (the escrow, the PT supply, the live rate) are given
//! to each call; what each call decides is returned for the caller to perform.

use crate::fixed::{
    ceil_div, fits, lemma_ceil, lemma_floor, lemma_floor_le_ceil, lemma_quot_times, min_of, quot,
    WAD,
};
use crate::wide;
use crate::wide::narrowed;
use soroban_sdk::Env;
use vstd::prelude::*;

verus! {

pub const BPS_DENOMINATOR: i128 = 10_000;

/// The highest cut of claimed yield a market may charge.
pub const MAX_YIELD_FEE_BPS: i128 = 2_000;

#[derive(Clone, Copy, Debug, PartialEq, Eq, Structural)]
pub struct Config {
    pub admin: u64,
    pub sy_token: u64,
    pub pt_token: u64,
    pub yt_token: u64,
    pub maturity: u64,
    /// Where the protocol's cut of claimed yield is paid, in SY shares.
    pub fee_recipient: u64,
    /// The protocol's cut of claimed yield, in basis points.
    pub yield_fee_bps: i128,
}

/// A holder's PT and YT balances.
#[derive(Clone, Copy, Debug, PartialEq, Eq, Structural)]
pub struct Position {
    pub pt_balance: i128,
    pub yt_balance: i128,
}

#[derive(Clone, Copy, Debug, PartialEq, Eq, Structural)]
pub enum Error {
    AlreadyInitialized,
    NotInitialized,
    InvalidMaturity,
    InvalidAmount,
    AmountMismatch,
    Matured,
    MathOverflow,
    LiveMarket,
    /// Retired: a shortfall is priced, never refused.
    Insolvent,
    InvalidFee,
    NotAdmin,
    /// A fee-bearing market named a recipient that would break the accounting:
    /// the tokenizer itself, or one of the market's tokens.
    InvalidFeeRecipient,
}

#[derive(Clone, Copy, Debug, PartialEq, Eq, Structural)]
pub struct YieldFeeSet {
    pub admin: u64,
    pub old_fee_bps: i128,
    pub new_fee_bps: i128,
}

/// How a claim is paid: `pay` leaves the escrow and the holder's banked yield,
/// `net` goes to the holder and `fee` to the fee recipient.
#[derive(Clone, Copy, Debug, PartialEq, Eq, Structural)]
pub struct YieldPayment {
    pub pay: i128,
    pub net: i128,
    pub fee: i128,
}

/// The tokenizer of one market.
#[derive(Clone, Copy, Debug, PartialEq, Eq, Structural)]
pub struct Tokenizer {
    pub settings: Option<Config>,
    /// The SY rate frozen at maturity.
    pub frozen_rate: Option<i128>,
    /// The last SY rate observed before maturity.
    pub observed_rate: Option<i128>,
}

// ---------------------------------------------------------------------------
// Amounts
// ---------------------------------------------------------------------------

/// An exact quotient as a result.
pub open spec fn scaled(a: int, b: int, c: int) -> Result<i128, Error> {
    match narrowed(quot(a * b, c)) {
        Some(value) => Ok(value),
        None => Err(Error::MathOverflow),
    }
}

/// The SY that `pt` PT is worth at `rate`, or its share of a short escrow if
/// that is less.
pub open spec fn principal_for(pt: int, rate: int, escrow: int, pt_supply: int) -> Result<i128, Error> {
    match scaled(pt, WAD as int, rate) {
        Err(error) => Err(error),
        Ok(full) => match scaled(escrow, pt, pt_supply) {
            Err(error) => Err(error),
            Ok(pro_rata) => Ok(min_of(full as int, pro_rata as int) as i128),
        },
    }
}

/// `principal_for`, refused where nothing would be paid.
pub open spec fn principal_paid(pt: int, rate: int, escrow: int, pt_supply: int) -> Result<i128, Error> {
    match principal_for(pt, rate, escrow, pt_supply) {
        Err(error) => Err(error),
        Ok(paid) => if paid <= 0 {
            Err(Error::InvalidAmount)
        } else {
            Ok(paid)
        },
    }
}

/// The escrow that redeeming every PT at its face takes, rounded up.
pub open spec fn reservation(pt_supply: int, rate: int) -> int {
    quot(pt_supply * WAD + rate - 1, rate)
}

/// What the escrow holds beyond the reservation.
pub open spec fn surplus(escrow: int, pt_supply: int, rate: int) -> int {
    if escrow > reservation(pt_supply, rate) {
        escrow - reservation(pt_supply, rate)
    } else {
        0
    }
}

/// How a claim of `owed` is paid out of an escrow.
pub open spec fn payment(fee_bps: int, rate: int, owed: int, escrow: int, pt_supply: int) -> Result<
    YieldPayment,
    Error,
> {
    let pay = min_of(owed, surplus(escrow, pt_supply, rate));
    let fee = quot(pay * fee_bps, BPS_DENOMINATOR as int);
    if !fits(reservation(pt_supply, rate)) {
        Err(Error::MathOverflow)
    } else {
        Ok(YieldPayment { pay: pay as i128, net: (pay - fee) as i128, fee: fee as i128 })
    }
}

fn mul_div_floor(env: &Env, a: i128, b: i128, c: i128) -> (result: Result<i128, Error>)
    requires
        c != 0,
    ensures
        result == scaled(a as int, b as int, c as int),
{
    match wide::mul_div_floor(env, a, b, c) {
        Some(value) => Ok(value),
        None => Err(Error::MathOverflow),
    }
}

fn mul_div_ceil(env: &Env, a: i128, b: i128, c: i128) -> (result: Result<i128, Error>)
    requires
        c != 0,
    ensures
        result == (match narrowed(quot(a * b + c - 1, c as int)) {
            Some(value) => Ok::<i128, Error>(value),
            None => Err(Error::MathOverflow),
        }),
{
    match wide::mul_div_ceil(env, a, b, c) {
        Some(value) => Ok(value),
        None => Err(Error::MathOverflow),
    }
}

fn principal(env: &Env, pt: i128, rate: i128, escrow: i128, pt_supply: i128) -> (result: Result<
    i128,
    Error,
>)
    requires
        rate != 0,
        pt_supply != 0,
    ensures
        result == principal_for(pt as int, rate as int, escrow as int, pt_supply as int),
{
    let full: i128 = mul_div_floor(env, pt, WAD, rate)?;
    let pro_rata: i128 = mul_div_floor(env, escrow, pt, pt_supply)?;
    if full < pro_rata {
        Ok(full)
    } else {
        Ok(pro_rata)
    }
}

/// A recipient that a fee can be paid to.
pub open spec fn payable(contract: u64, sy_token: u64, pt_token: u64, yt_token: u64, recipient: u64) -> bool {
    recipient != contract && recipient != sy_token && recipient != pt_token && recipient
        != yt_token
}

fn is_payable(contract: u64, sy_token: u64, pt_token: u64, yt_token: u64, recipient: u64) -> (result: bool)
    ensures
        result == payable(contract, sy_token, pt_token, yt_token, recipient),
{
    recipient != contract && recipient != sy_token && recipient != pt_token && recipient != yt_token
}

impl Tokenizer {
    /// What every operation keeps: an accepted fee.
    pub open spec fn valid(self) -> bool {
        self.settings matches Some(config) ==> 0 <= config.yield_fee_bps <= MAX_YIELD_FEE_BPS
    }

    /// The rate the escrow is valued at: the live rate before maturity, and
    /// from then on the frozen one, which is the last rate observed before.
    pub open spec fn effective(self, config: Config, now: u64, live_rate: i128) -> i128 {
        if now < config.maturity {
            live_rate
        } else {
            match (self.frozen_rate, self.observed_rate) {
                (Some(rate), _) => rate,
                (None, Some(rate)) => rate,
                (None, None) => live_rate,
            }
        }
    }

    /// The tokenizer once its rate was taken at `now`.
    pub open spec fn rated(self, config: Config, now: u64, live_rate: i128) -> Tokenizer {
        if now < config.maturity {
            Tokenizer { observed_rate: Some(live_rate), ..self }
        } else {
            Tokenizer { frozen_rate: Some(self.effective(config, now, live_rate)), ..self }
        }
    }

    pub fn new() -> (tokenizer: Self)
        ensures
            tokenizer == (Tokenizer { settings: None, frozen_rate: None, observed_rate: None }),
            tokenizer.valid(),
    {
        Tokenizer { settings: None, frozen_rate: None, observed_rate: None }
    }

    /// Opens a market. `contract` is the tokenizer's own account.
    pub fn initialize(
        &mut self,
        now: u64,
        contract: u64,
        admin: u64,
        sy_token: u64,
        pt_token: u64,
        yt_token: u64,
        maturity: u64,
        fee_recipient: u64,
        yield_fee_bps: i128,
    ) -> (result: Result<(), Error>)
        requires
            old(self).valid(),
        ensures
            final(self).valid(),
            result == (if old(self).settings is Some {
                Err::<(), Error>(Error::AlreadyInitialized)
            } else if maturity <= now {
                Err(Error::InvalidMaturity)
            } else if !(0 <= yield_fee_bps <= MAX_YIELD_FEE_BPS) {
                Err(Error::InvalidFee)
            } else if yield_fee_bps > 0 && !payable(
                contract,
                sy_token,
                pt_token,
                yt_token,
                fee_recipient,
            ) {
                Err(Error::InvalidFeeRecipient)
            } else {
                Ok(())
            }),
            *final(self) == (if result is Ok {
                Tokenizer {
                    settings: Some(
                        Config {
                            admin,
                            sy_token,
                            pt_token,
                            yt_token,
                            maturity,
                            fee_recipient,
                            yield_fee_bps,
                        },
                    ),
                    ..*old(self)
                }
            } else {
                *old(self)
            }),
    {
        if self.settings.is_some() {
            return Err(Error::AlreadyInitialized);
        }
        if maturity <= now {
            return Err(Error::InvalidMaturity);
        }
        if yield_fee_bps < 0 || yield_fee_bps > MAX_YIELD_FEE_BPS {
            return Err(Error::InvalidFee);
        }
        if yield_fee_bps > 0 && !is_payable(contract, sy_token, pt_token, yt_token, fee_recipient) {
            return Err(Error::InvalidFeeRecipient);
        }
        self.settings = Some(
            Config { admin, sy_token, pt_token, yt_token, maturity, fee_recipient, yield_fee_bps },
        );
        Ok(())
    }

    pub fn config(&self) -> (result: Result<Config, Error>)
        ensures
            result == (match self.settings {
                Some(config) => Ok::<Config, Error>(config),
                None => Err(Error::NotInitialized),
            }),
    {
        match self.settings {
            Some(config) => Ok(config),
            None => Err(Error::NotInitialized),
        }
    }

    /// Changes the cut of claimed yield. The recipient is fixed, so a market
    /// that named an unpayable one can never charge.
    pub fn set_fee(&mut self, contract: u64, admin: u64, yield_fee_bps: i128) -> (result: Result<
        YieldFeeSet,
        Error,
    >)
        requires
            old(self).valid(),
        ensures
            final(self).valid(),
            match old(self).settings {
                None => result == Err::<YieldFeeSet, Error>(Error::NotInitialized) && *final(self)
                    == *old(self),
                Some(config) => {
                    &&& result == (if admin != config.admin {
                        Err::<YieldFeeSet, Error>(Error::NotAdmin)
                    } else if !(0 <= yield_fee_bps <= MAX_YIELD_FEE_BPS) {
                        Err(Error::InvalidFee)
                    } else if yield_fee_bps > 0 && !payable(
                        contract,
                        config.sy_token,
                        config.pt_token,
                        config.yt_token,
                        config.fee_recipient,
                    ) {
                        Err(Error::InvalidFeeRecipient)
                    } else {
                        Ok(
                            YieldFeeSet {
                                admin,
                                old_fee_bps: config.yield_fee_bps,
                                new_fee_bps: yield_fee_bps,
                            },
                        )
                    })
                    &&& *final(self) == (if result is Ok {
                        Tokenizer {
                            settings: Some(Config { yield_fee_bps, ..config }),
                            ..*old(self)
                        }
                    } else {
                        *old(self)
                    })
                },
            },
    {
        let config: Config = self.config()?;
        if admin != config.admin {
            return Err(Error::NotAdmin);
        }
        if yield_fee_bps < 0 || yield_fee_bps > MAX_YIELD_FEE_BPS {
            return Err(Error::InvalidFee);
        }
        if yield_fee_bps > 0 && !is_payable(
            contract,
            config.sy_token,
            config.pt_token,
            config.yt_token,
            config.fee_recipient,
        ) {
            return Err(Error::InvalidFeeRecipient);
        }
        self.settings = Some(Config { yield_fee_bps, ..config });
        Ok(YieldFeeSet { admin, old_fee_bps: config.yield_fee_bps, new_fee_bps: yield_fee_bps })
    }

    pub fn maturity(&self) -> (result: Result<u64, Error>)
        ensures
            result == (match self.settings {
                Some(config) => Ok::<u64, Error>(config.maturity),
                None => Err(Error::NotInitialized),
            }),
    {
        let config: Config = self.config()?;
        Ok(config.maturity)
    }

    pub fn is_matured(&self, now: u64) -> (result: Result<bool, Error>)
        ensures
            result == (match self.settings {
                Some(config) => Ok::<bool, Error>(now >= config.maturity),
                None => Err(Error::NotInitialized),
            }),
    {
        let config: Config = self.config()?;
        Ok(now >= config.maturity)
    }

    pub open spec fn live(self, now: u64) -> Result<Config, Error> {
        match self.settings {
            None => Err(Error::NotInitialized),
            Some(config) => if now >= config.maturity {
                Err(Error::Matured)
            } else {
                Ok(config)
            },
        }
    }

    pub open spec fn matured(self, now: u64) -> Result<Config, Error> {
        match self.settings {
            None => Err(Error::NotInitialized),
            Some(config) => if now < config.maturity {
                Err(Error::LiveMarket)
            } else {
                Ok(config)
            },
        }
    }

    fn require_live(&self, now: u64) -> (result: Result<Config, Error>)
        ensures
            result == self.live(now),
    {
        let config: Config = self.config()?;
        if now >= config.maturity {
            return Err(Error::Matured);
        }
        Ok(config)
    }

    fn require_matured(&self, now: u64) -> (result: Result<Config, Error>)
        ensures
            result == self.matured(now),
    {
        let config: Config = self.config()?;
        if now < config.maturity {
            return Err(Error::LiveMarket);
        }
        Ok(config)
    }

    pub fn require_positive_amount(n: i128) -> (result: Result<(), Error>)
        ensures
            result == (if n <= 0 {
                Err::<(), Error>(Error::InvalidAmount)
            } else {
                Ok(())
            }),
    {
        if n <= 0 {
            return Err(Error::InvalidAmount);
        }
        Ok(())
    }

    /// Records a live rate before maturity.
    pub fn observe_rate(&mut self, now: u64, live_rate: i128) -> (result: Result<i128, Error>)
        requires
            old(self).valid(),
        ensures
            final(self).valid(),
            match old(self).live(now) {
                Err(error) => result == Err::<i128, Error>(error) && *final(self) == *old(self),
                Ok(config) => result == Ok::<i128, Error>(live_rate) && *final(self) == old(
                    self).rated(config, now, live_rate),
            },
    {
        self.require_live(now)?;
        self.observed_rate = Some(live_rate);
        Ok(live_rate)
    }

    /// The rate the escrow is valued at, recorded or frozen as it is taken. The
    /// live rate counts after maturity only where none was ever observed.
    fn effective_rate(&mut self, config: &Config, now: u64, live_rate: i128) -> (rate: i128)
        ensures
            rate == old(self).effective(*config, now, live_rate),
            *final(self) == old(self).rated(*config, now, live_rate),
    {
        if now < config.maturity {
            self.observed_rate = Some(live_rate);
            return live_rate;
        }
        let rate: i128 = match self.frozen_rate {
            Some(rate) => rate,
            None => match self.observed_rate {
                Some(rate) => rate,
                None => live_rate,
            },
        };
        self.frozen_rate = Some(rate);
        rate
    }

    /// Freezes the maturity rate, once, and returns it.
    pub fn freeze_maturity_rate(&mut self, now: u64, live_rate: i128) -> (result: Result<i128, Error>)
        requires
            old(self).valid(),
        ensures
            final(self).valid(),
            match old(self).matured(now) {
                Err(error) => result == Err::<i128, Error>(error) && *final(self) == *old(self),
                Ok(config) => result == Ok::<i128, Error>(
                    old(self).effective(config, now, live_rate),
                ) && *final(self) == old(self).rated(config, now, live_rate),
            },
    {
        let config: Config = self.require_matured(now)?;
        Ok(self.effective_rate(&config, now, live_rate))
    }

    /// The frozen rate, or zero if there is none yet.
    pub fn maturity_rate(&self) -> (result: Result<i128, Error>)
        ensures
            result == (if self.settings is None {
                Err::<i128, Error>(Error::NotInitialized)
            } else {
                match self.frozen_rate {
                    Some(rate) => Ok(rate),
                    None => Ok(0),
                }
            }),
    {
        self.config()?;
        match self.frozen_rate {
            Some(rate) => Ok(rate),
            None => Ok(0),
        }
    }

    /// What splitting is quoted at a rate: equal PT and YT, which may be nothing.
    pub open spec fn split_quote(self, now: u64, live_rate: i128, sy_amount: i128) -> Result<
        (i128, i128),
        Error,
    > {
        match self.live(now) {
            Err(error) => Err(error),
            Ok(_) => if sy_amount <= 0 {
                Err(Error::InvalidAmount)
            } else {
                match scaled(sy_amount as int, live_rate as int, WAD as int) {
                    Err(error) => Err(error),
                    Ok(face) => Ok((face, face)),
                }
            },
        }
    }

    /// The tokenizer after a split, and what the split mints.
    pub open spec fn after_split(self, now: u64, live_rate: i128, sy_amount: i128) -> (
        Tokenizer,
        Result<(i128, i128), Error>,
    ) {
        match self.live(now) {
            Err(error) => (self, Err(error)),
            Ok(config) => if sy_amount <= 0 {
                (self, Err(Error::InvalidAmount))
            } else {
                match scaled(sy_amount as int, live_rate as int, WAD as int) {
                    Err(error) => (self, Err(error)),
                    Ok(face) => if face <= 0 {
                        (self, Err(Error::InvalidAmount))
                    } else {
                        (self.rated(config, now, live_rate), Ok((face, face)))
                    },
                }
            },
        }
    }

    /// PT and YT that `sy_amount` SY splits into at a rate.
    pub fn preview_split(&self, env: &Env, now: u64, live_rate: i128, sy_amount: i128) -> (result: Result<
        (i128, i128),
        Error,
    >)
        ensures
            result == self.split_quote(now, live_rate, sy_amount),
    {
        self.require_live(now)?;
        Self::require_positive_amount(sy_amount)?;
        let face: i128 = mul_div_floor(env, sy_amount, live_rate, WAD)?;
        Ok((face, face))
    }

    /// What a recombination at a rate is quoted: its principal, refused where
    /// `recombine` refuses it.
    pub open spec fn recombine_quote(
        self,
        now: u64,
        live_rate: i128,
        escrow: i128,
        pt_supply: i128,
        pt_amount: i128,
        yt_amount: i128,
    ) -> Result<i128, Error> {
        match self.live(now) {
            Err(error) => Err(error),
            Ok(_) => if pt_amount <= 0 || yt_amount <= 0 {
                Err(Error::InvalidAmount)
            } else if pt_amount != yt_amount {
                Err(Error::AmountMismatch)
            } else {
                principal_paid(
                    pt_amount as int,
                    live_rate as int,
                    escrow as int,
                    pt_supply as int,
                )
            },
        }
    }

    /// The tokenizer after a recombination, and what the recombination pays.
    pub open spec fn recombined(
        self,
        now: u64,
        live_rate: i128,
        escrow: i128,
        pt_supply: i128,
        pt_amount: i128,
        yt_amount: i128,
    ) -> (Tokenizer, Result<i128, Error>) {
        match self.live(now) {
            Err(error) => (self, Err(error)),
            Ok(config) => if pt_amount <= 0 || yt_amount <= 0 {
                (self, Err(Error::InvalidAmount))
            } else if pt_amount != yt_amount {
                (self, Err(Error::AmountMismatch))
            } else {
                match principal_paid(
                    pt_amount as int,
                    live_rate as int,
                    escrow as int,
                    pt_supply as int,
                ) {
                    Err(error) => (self, Err(error)),
                    Ok(paid) => (self.rated(config, now, live_rate), Ok(paid)),
                }
            },
        }
    }

    /// The checks made of a recombination before its rate and supply are read.
    pub fn check_recombine(&self, now: u64, pt_amount: i128, yt_amount: i128) -> (result: Result<
        (),
        Error,
    >)
        ensures
            result == (match self.live(now) {
                Err(error) => Err::<(), Error>(error),
                Ok(_) => if pt_amount <= 0 || yt_amount <= 0 {
                    Err(Error::InvalidAmount)
                } else if pt_amount != yt_amount {
                    Err(Error::AmountMismatch)
                } else {
                    Ok(())
                },
            }),
    {
        self.require_live(now)?;
        Self::require_positive_amount(pt_amount)?;
        Self::require_positive_amount(yt_amount)?;
        if pt_amount != yt_amount {
            return Err(Error::AmountMismatch);
        }
        Ok(())
    }

    /// SY that recombining equal PT and YT returns, refused where `recombine`
    /// would refuse.
    pub fn preview_recombine(
        &self,
        env: &Env,
        now: u64,
        live_rate: i128,
        escrow: i128,
        pt_supply: i128,
        pt_amount: i128,
        yt_amount: i128,
    ) -> (result: Result<i128, Error>)
        requires
            self.live(now) is Ok && pt_amount > 0 && pt_amount == yt_amount ==> live_rate != 0
                && pt_supply != 0,
        ensures
            result == self.recombine_quote(
                now,
                live_rate,
                escrow,
                pt_supply,
                pt_amount,
                yt_amount,
            ),
    {
        self.check_recombine(now, pt_amount, yt_amount)?;
        let sy_equivalent: i128 = principal(env, pt_amount, live_rate, escrow, pt_supply)?;
        Self::require_positive_amount(sy_equivalent)?;
        Ok(sy_equivalent)
    }

    /// A holder's position, from the balances the two tokens report.
    pub fn position(&self, pt_balance: i128, yt_balance: i128) -> (result: Result<Position, Error>)
        ensures
            result == (if self.settings is Some {
                Ok::<Position, Error>(Position { pt_balance, yt_balance })
            } else {
                Err(Error::NotInitialized)
            }),
    {
        self.config()?;
        Ok(Position { pt_balance, yt_balance })
    }

    /// The face that splitting `sy_amount` SY mints of PT and of YT. The caller
    /// escrows the SY and mints both.
    pub fn split(&mut self, env: &Env, now: u64, live_rate: i128, sy_amount: i128) -> (result: Result<
        (i128, i128),
        Error,
    >)
        requires
            old(self).valid(),
        ensures
            final(self).valid(),
            (*final(self), result) == old(self).after_split(now, live_rate, sy_amount),
    {
        self.require_live(now)?;
        Self::require_positive_amount(sy_amount)?;
        let face: i128 = mul_div_floor(env, sy_amount, live_rate, WAD)?;
        Self::require_positive_amount(face)?;
        self.observed_rate = Some(live_rate);
        Ok((face, face))
    }

    /// The SY that recombining equal PT and YT pays. The caller burns both and
    /// pays it.
    pub fn recombine(
        &mut self,
        env: &Env,
        now: u64,
        live_rate: i128,
        escrow: i128,
        pt_supply: i128,
        pt_amount: i128,
        yt_amount: i128,
    ) -> (result: Result<i128, Error>)
        requires
            old(self).valid(),
            old(self).live(now) is Ok && pt_amount > 0 && pt_amount == yt_amount ==> live_rate != 0
                && pt_supply != 0,
        ensures
            final(self).valid(),
            (*final(self), result) == old(self).recombined(
                now,
                live_rate,
                escrow,
                pt_supply,
                pt_amount,
                yt_amount,
            ),
    {
        self.check_recombine(now, pt_amount, yt_amount)?;
        let sy_equivalent: i128 = principal(env, pt_amount, live_rate, escrow, pt_supply)?;
        Self::require_positive_amount(sy_equivalent)?;
        self.observed_rate = Some(live_rate);
        Ok(sy_equivalent)
    }

    /// The SY that redeeming PT pays after maturity. The caller burns the PT and
    /// pays it.
    pub fn redeem_at_maturity(
        &mut self,
        env: &Env,
        now: u64,
        live_rate: i128,
        escrow: i128,
        pt_supply: i128,
        pt_amount: i128,
    ) -> (result: Result<i128, Error>)
        requires
            old(self).valid(),
            old(self).matured(now) matches Ok(config) ==> pt_amount > 0 ==> old(self).effective(
                config,
                now,
                live_rate,
            ) != 0 && pt_supply != 0,
        ensures
            final(self).valid(),
            result == (match old(self).matured(now) {
                Err(error) => Err(error),
                Ok(config) => if pt_amount <= 0 {
                    Err(Error::InvalidAmount)
                } else {
                    principal_paid(
                        pt_amount as int,
                        old(self).effective(config, now, live_rate) as int,
                        escrow as int,
                        pt_supply as int,
                    )
                },
            }),
            *final(self) == (if result is Ok {
                old(self).rated(old(self).settings->Some_0, now, live_rate)
            } else {
                *old(self)
            }),
    {
        let config: Config = self.require_matured(now)?;
        Self::require_positive_amount(pt_amount)?;
        let mut frozen: Tokenizer = *self;
        let rate: i128 = frozen.effective_rate(&config, now, live_rate);
        let sy_to_pay: i128 = principal(env, pt_amount, rate, escrow, pt_supply)?;
        Self::require_positive_amount(sy_to_pay)?;
        *self = frozen;
        Ok(sy_to_pay)
    }

    /// Takes the rate a claim is settled at: live before maturity, frozen after.
    pub fn claim_rate(&mut self, now: u64, live_rate: i128) -> (result: Result<i128, Error>)
        requires
            old(self).valid(),
        ensures
            final(self).valid(),
            match old(self).settings {
                None => result == Err::<i128, Error>(Error::NotInitialized) && *final(self) == *old(
                    self),
                Some(config) => result == Ok::<i128, Error>(
                    old(self).effective(config, now, live_rate),
                ) && *final(self) == old(self).rated(config, now, live_rate),
            },
    {
        let config: Config = self.config()?;
        Ok(self.effective_rate(&config, now, live_rate))
    }

    /// Pays a holder's settled yield out of what the escrow holds beyond the
    /// face of every PT. The rest of `owed` stays banked.
    pub fn claim_yield(&self, env: &Env, rate: i128, owed: i128, escrow: i128, pt_supply: i128) -> (result: Result<
        YieldPayment,
        Error,
    >)
        requires
            self.valid(),
            rate != 0,
            fits(surplus(escrow as int, pt_supply as int, rate as int)),
        ensures
            result == (match self.settings {
                None => Err(Error::NotInitialized),
                Some(config) => payment(
                    config.yield_fee_bps as int,
                    rate as int,
                    owed as int,
                    escrow as int,
                    pt_supply as int,
                ),
            }),
    {
        let config: Config = self.config()?;
        let reserved: i128 = mul_div_ceil(env, pt_supply, WAD, rate)?;
        let spare: i128 = if escrow > reserved {
            escrow - reserved
        } else {
            0
        };
        let pay: i128 = if owed < spare {
            owed
        } else {
            spare
        };
        proof {
            lemma_fee(pay as int, config.yield_fee_bps as int);
        }
        let fee: i128 = mul_div_floor(env, pay, config.yield_fee_bps, BPS_DENOMINATOR)?;
        Ok(YieldPayment { pay, net: pay - fee, fee })
    }
}

/// A cut within the ceiling is between nothing and the whole.
proof fn lemma_fee(pay: int, fee_bps: int)
    requires
        0 <= fee_bps <= MAX_YIELD_FEE_BPS,
    ensures
        pay >= 0 ==> 0 <= quot(pay * fee_bps, BPS_DENOMINATOR as int) <= pay,
        pay <= 0 ==> pay <= quot(pay * fee_bps, BPS_DENOMINATOR as int) <= 0,
        pay >= 0 ==> 5 * quot(pay * fee_bps, BPS_DENOMINATOR as int) <= pay,
{
    let n: int = pay * fee_bps;
    lemma_quot_times(n, BPS_DENOMINATOR as int);
    let q: int = quot(n, BPS_DENOMINATOR as int);
    if pay >= 0 {
        assert(0 <= n <= pay * 2_000) by (nonlinear_arith)
            requires
                n == pay * fee_bps,
                0 <= fee_bps <= 2_000,
                pay >= 0,
        ;
    } else {
        assert(pay * 2_000 <= n <= 0) by (nonlinear_arith)
            requires
                n == pay * fee_bps,
                0 <= fee_bps <= 2_000,
                pay <= 0,
        ;
    }
}

// ---------------------------------------------------------------------------
// Laws
// ---------------------------------------------------------------------------

/// Once frozen, the maturity rate never moves again, whatever the live rate and
/// however often it is asked for.
pub proof fn law_frozen_rate_never_moves(
    tokenizer: Tokenizer,
    config: Config,
    first: u64,
    first_live: i128,
    later: u64,
    later_live: i128,
)
    requires
        first >= config.maturity,
        later >= config.maturity,
    ensures
        ({
            let frozen = tokenizer.rated(config, first, first_live);
            &&& frozen.effective(config, later, later_live) == tokenizer.effective(
                config,
                first,
                first_live,
            )
            &&& frozen.rated(config, later, later_live) == frozen
        }),
{
}

/// A market that was ever observed freezes at its last observation: when the
/// freeze happens, and the live rate then, make no difference.
pub proof fn law_freeze_takes_the_last_observation(
    tokenizer: Tokenizer,
    config: Config,
    seen: u64,
    seen_rate: i128,
    later: u64,
    late_live: i128,
)
    requires
        seen < config.maturity <= later,
        tokenizer.frozen_rate is None,
    ensures
        tokenizer.rated(config, seen, seen_rate).effective(config, later, late_live) == seen_rate,
{
}

/// A split never mints face the escrowed SY does not cover: the SY that the new
/// face needs behind it is at most the SY put in.
pub proof fn law_split_is_covered(sy_amount: int, rate: int)
    requires
        sy_amount > 0,
        rate > 0,
        scaled(sy_amount, rate, WAD as int) is Ok,
    ensures
        scaled(sy_amount, rate, WAD as int)->Ok_0 * WAD <= sy_amount * rate,
        ceil_div(scaled(sy_amount, rate, WAD as int)->Ok_0 * WAD, rate) <= sy_amount,
{
    let n: int = sy_amount * rate;
    assert(n >= 0) by (nonlinear_arith)
        requires
            n == sy_amount * rate,
            sy_amount > 0,
            rate > 0,
    ;
    lemma_floor(n, WAD as int);
    let face: int = n / (WAD as int);
    lemma_ceil(face * WAD, rate);
    let c: int = ceil_div(face * WAD, rate);
    assert(c <= sy_amount) by (nonlinear_arith)
        requires
            rate * c - rate < face * WAD,
            face * WAD <= sy_amount * rate,
            rate > 0,
    ;
}

/// Splitting and recombining at one rate never returns more SY than went in.
pub proof fn law_split_and_recombine_gains_nothing(
    sy_amount: int,
    rate: int,
    escrow: int,
    pt_supply: int,
)
    requires
        sy_amount > 0,
        rate > 0,
        escrow >= 0,
        pt_supply > 0,
        scaled(sy_amount, rate, WAD as int) is Ok,
        scaled(sy_amount, rate, WAD as int)->Ok_0 > 0,
        principal_paid(
            scaled(sy_amount, rate, WAD as int)->Ok_0 as int,
            rate,
            escrow,
            pt_supply,
        ) is Ok,
    ensures
        principal_paid(
            scaled(sy_amount, rate, WAD as int)->Ok_0 as int,
            rate,
            escrow,
            pt_supply,
        )->Ok_0 <= sy_amount,
{
    law_split_is_covered(sy_amount, rate);
    let face: int = scaled(sy_amount, rate, WAD as int)->Ok_0 as int;
    assert(face * WAD >= 0) by (nonlinear_arith)
        requires
            face >= 0,
    ;
    lemma_floor(face * WAD, rate);
    lemma_floor_le_ceil(face * WAD, rate);
}

/// A split mints its preview, and is refused where its preview is, or where the
/// preview shows that there would be nothing to mint.
pub proof fn law_split_mints_its_preview(
    tokenizer: Tokenizer,
    now: u64,
    live_rate: i128,
    sy_amount: i128,
)
    ensures
        ({
            let quote = tokenizer.split_quote(now, live_rate, sy_amount);
            let (after, minted) = tokenizer.after_split(now, live_rate, sy_amount);
            &&& minted == (match quote {
                Ok((pt, yt)) if pt <= 0 => Err::<(i128, i128), Error>(Error::InvalidAmount),
                _ => quote,
            })
            &&& quote matches Ok((pt, yt)) ==> pt == yt
            &&& minted is Err ==> after == tokenizer
        }),
{
}

/// A preview of a recombination is what the recombination returns on the same
/// arguments, paid or refused alike. What is paid is the lesser of the face at
/// the rate and a fair share of the escrow, and never nothing.
pub proof fn law_recombine_pays_its_preview(
    tokenizer: Tokenizer,
    now: u64,
    live_rate: i128,
    escrow: i128,
    pt_supply: i128,
    pt_amount: i128,
    yt_amount: i128,
)
    ensures
        ({
            let quote = tokenizer.recombine_quote(
                now,
                live_rate,
                escrow,
                pt_supply,
                pt_amount,
                yt_amount,
            );
            let (after, paid) = tokenizer.recombined(
                now,
                live_rate,
                escrow,
                pt_supply,
                pt_amount,
                yt_amount,
            );
            &&& quote == paid
            &&& paid is Err ==> after == tokenizer
            &&& paid matches Ok(sy) ==> {
                &&& sy > 0
                &&& sy == min_of(
                    quot(pt_amount * WAD, live_rate as int),
                    quot(escrow * pt_amount, pt_supply as int),
                )
            }
        }),
{
}

/// A redemption pays at most the face at the rate, and at most a fair share of
/// the escrow: what is left per remaining PT is never less than before.
pub proof fn law_redemption_is_fair(pt: int, rate: int, escrow: int, pt_supply: int)
    requires
        0 < pt <= pt_supply,
        rate > 0,
        escrow >= 0,
        principal_paid(pt, rate, escrow, pt_supply) is Ok,
    ensures
        ({
            let paid = principal_paid(pt, rate, escrow, pt_supply)->Ok_0;
            &&& 0 < paid <= escrow
            &&& paid * rate <= pt * WAD
            &&& paid * pt_supply <= escrow * pt
            &&& (escrow - paid) * pt_supply >= escrow * (pt_supply - pt)
        }),
{
    let paid: int = principal_paid(pt, rate, escrow, pt_supply)->Ok_0 as int;
    let a: int = pt * WAD;
    let b: int = escrow * pt;
    assert(a >= 0 && b >= 0) by (nonlinear_arith)
        requires
            a == pt * 1_000_000_000_000_000_000,
            b == escrow * pt,
            pt > 0,
            escrow >= 0,
    ;
    lemma_floor(a, rate);
    lemma_floor(b, pt_supply);
    let full: int = a / rate;
    let pro_rata: int = b / pt_supply;
    assert(paid <= full && paid <= pro_rata);
    assert(paid * rate <= pt * WAD) by (nonlinear_arith)
        requires
            paid <= full,
            rate * full <= pt * WAD,
            rate > 0,
    ;
    assert(paid * pt_supply <= escrow * pt) by (nonlinear_arith)
        requires
            paid <= pro_rata,
            pt_supply * pro_rata <= escrow * pt,
            pt_supply > 0,
    ;
    assert(paid <= escrow) by (nonlinear_arith)
        requires
            paid * pt_supply <= escrow * pt,
            0 < pt <= pt_supply,
            escrow >= 0,
    ;
    assert((escrow - paid) * pt_supply >= escrow * (pt_supply - pt)) by (nonlinear_arith)
        requires
            paid * pt_supply <= escrow * pt,
    ;
}

/// Principal is senior to yield: a claim pays only out of what the escrow holds
/// beyond every PT's face, so what is left still covers all of it. The holder
/// and the fee together get exactly what leaves the escrow, never more than was
/// owed, and the fee is at most a fifth of it.
pub proof fn law_principal_is_senior(
    fee_bps: int,
    rate: int,
    owed: int,
    escrow: int,
    pt_supply: int,
)
    requires
        0 <= fee_bps <= MAX_YIELD_FEE_BPS,
        rate > 0,
        0 <= owed <= i128::MAX,
        0 <= escrow <= i128::MAX,
        pt_supply >= 0,
        payment(fee_bps, rate, owed, escrow, pt_supply) is Ok,
    ensures
        ({
            let paid = payment(fee_bps, rate, owed, escrow, pt_supply)->Ok_0;
            &&& 0 <= paid.fee <= paid.pay <= owed
            &&& paid.net + paid.fee == paid.pay
            &&& 5 * paid.fee <= paid.pay
            &&& paid.pay > 0 ==> (escrow - paid.pay) * rate >= pt_supply * WAD
            &&& escrow * rate <= pt_supply * WAD ==> paid.pay == 0
        }),
{
    let n: int = pt_supply * WAD;
    assert(n >= 0) by (nonlinear_arith)
        requires
            n == pt_supply * 1_000_000_000_000_000_000,
            pt_supply >= 0,
    ;
    lemma_ceil(n, rate);
    let reserved: int = reservation(pt_supply, rate);
    assert(reserved == ceil_div(n, rate));
    let pay: int = min_of(owed, surplus(escrow, pt_supply, rate));
    lemma_fee(pay, fee_bps);
    if pay > 0 {
        assert((escrow - pay) * rate >= n) by (nonlinear_arith)
            requires
                escrow - pay >= reserved,
                n <= rate * reserved,
                rate > 0,
        ;
    }
    if escrow * rate <= n {
        assert(escrow <= reserved) by (nonlinear_arith)
            requires
                escrow * rate <= n,
                n <= rate * reserved,
                rate > 0,
        ;
    }
}

/// What a split mints: equal PT and YT, each the asset value of the SY at the
/// rate, rounded down, and never nothing. It is granted exactly in a live market,
/// for a positive amount that mints something in range, and records the rate.
pub proof fn law_split_terms(tokenizer: Tokenizer, now: u64, live_rate: i128, sy_amount: i128)
    requires
        live_rate > 0,
    ensures
        ({
            let w = 1_000_000_000_000_000_000int;
            let (after, minted) = tokenizer.after_split(now, live_rate, sy_amount);
            &&& minted is Ok <==> {
                &&& tokenizer.settings matches Some(config) && now < config.maturity
                &&& sy_amount > 0
                &&& w <= sy_amount * live_rate < (i128::MAX + 1) * w
            }
            &&& minted matches Ok((pt, yt)) ==> {
                &&& pt == yt
                &&& pt > 0
                &&& pt * w <= sy_amount * live_rate < (pt + 1) * w
                &&& after.observed_rate == Some(live_rate)
                &&& after.settings == tokenizer.settings
                &&& after.frozen_rate == tokenizer.frozen_rate
            }
            &&& minted is Err ==> after == tokenizer
        }),
{
    let w = 1_000_000_000_000_000_000int;
    if sy_amount > 0 {
        let n: int = sy_amount * live_rate;
        assert(n > 0) by (nonlinear_arith)
            requires
                n == sy_amount * live_rate,
                sy_amount > 0,
                live_rate > 0,
        ;
        lemma_floor(n, w);
    }
}

/// What principal is paid: the most SY that neither the face at the rate nor a
/// fair share of the escrow falls short of. It is refused exactly where that is
/// nothing, or where either of the two is out of range.
pub proof fn law_principal_terms(pt: int, rate: int, escrow: int, pt_supply: int)
    requires
        pt > 0,
        rate > 0,
        escrow >= 0,
        pt_supply > 0,
    ensures
        ({
            let w = 1_000_000_000_000_000_000int;
            let result = principal_paid(pt, rate, escrow, pt_supply);
            &&& result is Ok <==> {
                &&& rate <= pt * w < (i128::MAX + 1) * rate
                &&& pt_supply <= escrow * pt < (i128::MAX + 1) * pt_supply
            }
            &&& result matches Ok(paid) ==> {
                &&& paid > 0
                &&& paid * rate <= pt * w
                &&& paid * pt_supply <= escrow * pt
                &&& pt * w < (paid + 1) * rate || escrow * pt < (paid + 1) * pt_supply
            }
        }),
{
    let w = 1_000_000_000_000_000_000int;
    let a: int = pt * w;
    let b: int = escrow * pt;
    assert(a > 0 && b >= 0) by (nonlinear_arith)
        requires
            a == pt * w,
            b == escrow * pt,
            pt > 0,
            w > 0,
            escrow >= 0,
    ;
    lemma_floor(a, rate);
    lemma_floor(b, pt_supply);
    let full: int = a / rate;
    let share: int = b / pt_supply;
    let top: int = i128::MAX as int;
    assert((full <= top <==> a < (top + 1) * rate) && (full >= 1 <==> rate <= a)) by (nonlinear_arith)
        requires
            rate > 0,
            rate * full <= a < rate * full + rate,
    ;
    assert((share <= top <==> b < (top + 1) * pt_supply) && (share >= 1 <==> pt_supply <= b))
        by (nonlinear_arith)
        requires
            pt_supply > 0,
            pt_supply * share <= b < pt_supply * share + pt_supply,
    ;
    let paid: int = min_of(full, share);
    assert(paid * rate <= a && paid * pt_supply <= b && (a < (paid + 1) * rate || b < (paid + 1)
        * pt_supply)) by (nonlinear_arith)
        requires
            paid == full && full <= share || paid == share && share <= full,
            rate > 0,
            pt_supply > 0,
            rate * full <= a < rate * full + rate,
            pt_supply * share <= b < pt_supply * share + pt_supply,
    ;
}

/// When a recombination is owed: in a live market, for equal positive amounts,
/// wherever the principal is. It then records the rate and changes nothing else.
pub proof fn law_recombine_terms(
    tokenizer: Tokenizer,
    now: u64,
    live_rate: i128,
    escrow: i128,
    pt_supply: i128,
    pt_amount: i128,
    yt_amount: i128,
)
    requires
        live_rate > 0,
        escrow >= 0,
        pt_supply > 0,
    ensures
        ({
            let w = 1_000_000_000_000_000_000int;
            let (after, paid) = tokenizer.recombined(
                now,
                live_rate,
                escrow,
                pt_supply,
                pt_amount,
                yt_amount,
            );
            &&& paid is Ok <==> {
                &&& tokenizer.settings matches Some(config) && now < config.maturity
                &&& pt_amount == yt_amount && pt_amount > 0
                &&& live_rate <= pt_amount * w < (i128::MAX + 1) * live_rate
                &&& pt_supply <= escrow * pt_amount < (i128::MAX + 1) * pt_supply
            }
            &&& paid matches Ok(sy) ==> {
                &&& sy > 0
                &&& sy * live_rate <= pt_amount * w
                &&& sy * pt_supply <= escrow * pt_amount
                &&& pt_amount * w < (sy + 1) * live_rate || escrow * pt_amount < (sy + 1)
                    * pt_supply
                &&& after.observed_rate == Some(live_rate)
                &&& after.settings == tokenizer.settings
                &&& after.frozen_rate == tokenizer.frozen_rate
            }
            &&& paid is Err ==> after == tokenizer
        }),
{
    if pt_amount > 0 {
        law_principal_terms(
            pt_amount as int,
            live_rate as int,
            escrow as int,
            pt_supply as int,
        );
    }
}

/// Which rate counts: before maturity the live one, which is recorded; from
/// maturity on the one frozen, or else the last one recorded, or else the live
/// one, and it stays frozen. Neither touches the settings.
pub proof fn law_rate_terms(tokenizer: Tokenizer, config: Config, now: u64, live_rate: i128)
    ensures
        ({
            let rate = tokenizer.effective(config, now, live_rate);
            let after = tokenizer.rated(config, now, live_rate);
            &&& now < config.maturity ==> rate == live_rate && after.observed_rate == Some(live_rate)
                && after.frozen_rate == tokenizer.frozen_rate
            &&& now >= config.maturity ==> {
                &&& tokenizer.frozen_rate matches Some(frozen) ==> rate == frozen
                &&& tokenizer.frozen_rate is None ==> (tokenizer.observed_rate matches Some(seen)
                    ==> rate == seen)
                &&& tokenizer.frozen_rate is None && tokenizer.observed_rate is None ==> rate
                    == live_rate
                &&& after.frozen_rate == Some(rate)
                &&& after.observed_rate == tokenizer.observed_rate
            }
            &&& after.settings == tokenizer.settings
        }),
{
}

/// How a claim is paid, where `reserved` is the SY that the face of all PT takes
/// at the rate, rounded up: what is owed, as far as the escrow holds it beyond the
/// reservation. The fee is the market's rate of that, rounded down, and the holder
/// gets the rest. It is refused only where the reservation is out of range.
pub proof fn law_claim_terms(
    fee_bps: int,
    rate: int,
    owed: int,
    escrow: int,
    pt_supply: int,
    reserved: int,
)
    requires
        0 <= fee_bps <= 2_000,
        rate > 0,
        0 <= owed <= i128::MAX,
        0 <= escrow <= i128::MAX,
        pt_supply >= 0,
        (reserved - 1) * rate < pt_supply * 1_000_000_000_000_000_000,
        pt_supply * 1_000_000_000_000_000_000 <= reserved * rate,
    ensures
        ({
            let result = payment(fee_bps, rate, owed, escrow, pt_supply);
            &&& result is Ok <==> reserved <= i128::MAX
            &&& result matches Ok(paid) ==> {
                &&& paid.pay == (if escrow <= reserved {
                    0
                } else if owed < escrow - reserved {
                    owed
                } else {
                    escrow - reserved
                })
                &&& paid.fee * 10_000 <= paid.pay * fee_bps < (paid.fee + 1) * 10_000
                &&& paid.net == paid.pay - paid.fee
            }
        }),
{
    let n: int = pt_supply * 1_000_000_000_000_000_000;
    lemma_ceil(n, rate);
    let c: int = ceil_div(n, rate);
    assert(c == reserved) by (nonlinear_arith)
        requires
            rate > 0,
            (reserved - 1) * rate < n <= reserved * rate,
            c * rate - rate < n <= c * rate,
    ;
    assert(reservation(pt_supply, rate) == c);
    let pay: int = min_of(owed, surplus(escrow, pt_supply, rate));
    lemma_fee(pay, fee_bps);
    let m: int = pay * fee_bps;
    assert(m >= 0) by (nonlinear_arith)
        requires
            m == pay * fee_bps,
            pay >= 0,
            fee_bps >= 0,
    ;
    lemma_floor(m, 10_000);
}

/// When a market is live and when it has matured: before its maturity, and from
/// then on. Either gives the market's own settings.
pub proof fn law_maturity_terms(tokenizer: Tokenizer, now: u64)
    ensures
        tokenizer.live(now) is Ok <==> (tokenizer.settings matches Some(config) && now
            < config.maturity),
        tokenizer.matured(now) is Ok <==> (tokenizer.settings matches Some(config) && now
            >= config.maturity),
        tokenizer.live(now) matches Ok(config) ==> tokenizer.settings == Some(config),
        tokenizer.matured(now) matches Ok(config) ==> tokenizer.settings == Some(config),
{
}

/// Who a fee can be paid to: anyone but the tokenizer and the market's three
/// tokens.
pub proof fn law_fee_recipient_terms(
    contract: u64,
    sy_token: u64,
    pt_token: u64,
    yt_token: u64,
    recipient: u64,
)
    ensures
        payable(contract, sy_token, pt_token, yt_token, recipient) <==> !set![
            contract,
            sy_token,
            pt_token,
            yt_token,
        ].contains(recipient),
{
}

/// Why a split or a recombination is refused, the first reason that holds: no
/// market, a matured one, an amount that is not positive, or, to recombine, amounts
/// that differ.
pub proof fn law_refusals(
    tokenizer: Tokenizer,
    now: u64,
    live_rate: i128,
    sy_amount: i128,
    escrow: i128,
    pt_supply: i128,
    pt_amount: i128,
    yt_amount: i128,
)
    ensures
        ({
            let split = tokenizer.after_split(now, live_rate, sy_amount).1;
            let joined = tokenizer.recombined(
                now,
                live_rate,
                escrow,
                pt_supply,
                pt_amount,
                yt_amount,
            ).1;
            &&& tokenizer.settings is None ==> {
                &&& split is Err && split->Err_0 == Error::NotInitialized
                &&& joined is Err && joined->Err_0 == Error::NotInitialized
            }
            &&& tokenizer.settings matches Some(config) ==> {
                &&& now >= config.maturity ==> {
                    &&& split is Err && split->Err_0 == Error::Matured
                    &&& joined is Err && joined->Err_0 == Error::Matured
                }
                &&& now < config.maturity ==> {
                    &&& sy_amount <= 0 ==> split is Err && split->Err_0 == Error::InvalidAmount
                    &&& pt_amount <= 0 || yt_amount <= 0 ==> joined is Err && joined->Err_0
                        == Error::InvalidAmount
                    &&& pt_amount > 0 && yt_amount > 0 && pt_amount != yt_amount ==> joined is Err
                        && joined->Err_0 == Error::AmountMismatch
                }
            }
        }),
{
}

} // verus!
