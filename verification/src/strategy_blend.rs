//! The strategy that supplies a vault's underlying to a Blend pool.
//!
//! Only the supplied position is valued. Underlying that merely sits at the
//! strategy's address is not: anyone can send it there. A withdrawal may still
//! pay it out, and then as many pool shares as the same withdrawal from the pool
//! would have burned are left out of the valuation for good, with whatever
//! interest they earn, so that spending idle underlying moves the rate no more
//! than taking it from the pool does.

use crate::blend_adapter::{
    assets_value, find_reserve, first_slot, lemma_quot_fits, supplied, Holding, Positions, Reserve,
    BLEND_SCALAR_12,
};
use crate::fixed::{ceil_div, fits, lemma_ceil, min_of};
use crate::ratio::{law_reduction_only_helps, mul_div_ceil, scaled_ceil};
use crate::strategy_interface::StrategyError;
use vstd::prelude::*;

verus! {

/// The decimals an underlying must have.
pub const DECIMALS: u32 = 7;

/// Everything but the slot is fixed at initialization, and the slot moves only
/// to another that holds the same underlying.
#[derive(Clone, Copy, Debug, PartialEq, Eq, Structural)]
pub struct Config {
    pub admin: u64,
    /// The only address that may deposit and withdraw.
    pub vault: u64,
    pub underlying: u64,
    pub pool: u64,
    pub reserve_index: u32,
}

#[derive(Clone, Copy, Debug, PartialEq, Eq, Structural)]
pub struct Deposited {
    pub amount: i128,
    /// What the valuation rose by.
    pub credited: i128,
}

#[derive(Clone, Copy, Debug, PartialEq, Eq, Structural)]
pub struct Withdrawn {
    pub requested: i128,
    pub delivered: i128,
}

#[derive(Clone, Copy, Debug, PartialEq, Eq, Structural)]
pub struct ReserveMigrated {
    pub old_index: u32,
    pub new_index: u32,
}

/// How a withdrawal is to be paid: from idle underlying first, and the pool is
/// asked for the rest.
#[derive(Clone, Copy, Debug, PartialEq, Eq, Structural)]
pub struct Sourcing {
    pub idle_used: i128,
    pub shortfall: i128,
}

/// The pool's account of the strategy: its positions there, and the reserve of
/// the underlying.
#[derive(Clone, Debug)]
pub struct Upstream {
    pub positions: Positions,
    pub reserve: Reserve,
}

/// One strategy.
#[derive(Clone, Copy, Debug, PartialEq, Eq, Structural)]
pub struct StrategyBlend {
    pub settings: Option<Config>,
    /// Pool shares left out of the valuation: idle underlying was paid out in
    /// their stead.
    pub excluded: i128,
}

/// The pool shares that count, of those held.
pub open spec fn valued(b_tokens: int, excluded: int) -> int {
    if excluded == 0 {
        b_tokens
    } else if b_tokens > excluded {
        b_tokens - excluded
    } else {
        0
    }
}

/// How a withdrawal of `n` is paid.
pub open spec fn sourced(n: int, idle: int) -> Sourcing {
    Sourcing { idle_used: min_of(idle, n) as i128, shortfall: (n - min_of(idle, n)) as i128 }
}

/// What the pool paid: nothing where it was not asked or refused, and never
/// less than nothing.
pub open spec fn pool_paid(shortfall: int, idle_before: int, idle_after: Option<i128>) -> Option<int> {
    match idle_after {
        None => Some(0),
        Some(idle_after) => if shortfall <= 0 {
            Some(0)
        } else if !fits(idle_after - idle_before) {
            None
        } else if idle_after - idle_before > 0 {
            Some(idle_after - idle_before)
        } else {
            Some(0)
        },
    }
}

/// What a withdrawal delivers, or why it fails.
pub open spec fn delivery(n: int, min_underlying_out: int, idle_before: int, idle_after: Option<i128>) -> Result<
    i128,
    StrategyError,
> {
    let sourcing = sourced(n, idle_before);
    match pool_paid(sourcing.shortfall as int, idle_before, idle_after) {
        None => Err(StrategyError::MathOverflow),
        Some(paid) => if !fits(sourcing.idle_used + paid) {
            Err(StrategyError::MathOverflow)
        } else if sourcing.idle_used + paid <= 0 {
            Err(StrategyError::WithdrawalFailed)
        } else if sourcing.idle_used + paid < min_underlying_out {
            Err(StrategyError::SlippageExceeded)
        } else {
            Ok((sourcing.idle_used + paid) as i128)
        },
    }
}

/// The pool shares left out after `idle_used` of idle underlying was paid out:
/// those that withdrawing as much from the pool would have burned, as far as
/// there are any that count. Shares that have no value in range are left as they
/// are.
pub open spec fn excluded_after(excluded: int, b_tokens: int, b_rate: int, idle_used: int) -> int {
    let left = valued(b_tokens, excluded);
    if idle_used <= 0 || b_rate <= 0 || left <= 0 || !fits(left * b_rate) {
        excluded
    } else {
        excluded + min_of(ceil_div(idle_used * 1_000_000_000_000, b_rate), left)
    }
}

/// The slot an underlying is in, by the pool's list and by its own record.
pub open spec fn slot_of(reserves: Seq<u64>, underlying: u64, reserve: Reserve) -> Result<u32, StrategyError> {
    if first_slot(reserves, underlying, reserve.config.index as int) && reserve.config.decimals == 7 {
        Ok(reserve.config.index)
    } else {
        Err(StrategyError::UpstreamMismatch)
    }
}

/// Finds the slot that lists an underlying. The pool's own record of it must
/// name the same slot and seven decimals.
pub fn derive_reserve_index(reserves: &Vec<u64>, underlying: u64, reserve: &Reserve) -> (result: Result<
    u32,
    StrategyError,
>)
    requires
        reserves@.len() <= u32::MAX,
    ensures
        result == slot_of(reserves@, underlying, *reserve),
{
    let index: u32 = match find_reserve(reserves, underlying) {
        Some(index) => index,
        None => {
            return Err(StrategyError::UpstreamMismatch);
        },
    };
    if reserve.config.index != index || reserve.config.decimals != DECIMALS {
        return Err(StrategyError::UpstreamMismatch);
    }
    Ok(index)
}

fn check_overflow(value: Option<i128>) -> (result: Result<i128, StrategyError>)
    ensures
        result == (match value {
            Some(value) => Ok::<i128, StrategyError>(value),
            None => Err(StrategyError::MathOverflow),
        }),
{
    match value {
        Some(value) => Ok(value),
        None => Err(StrategyError::MathOverflow),
    }
}

/// Splits a withdrawal between idle underlying and the pool.
fn source(n: i128, idle: i128) -> (sourcing: Sourcing)
    requires
        fits(n - min_of(idle as int, n as int)),
    ensures
        sourcing == sourced(n as int, idle as int),
{
    let idle_used: i128 = if idle < n {
        idle
    } else {
        n
    };
    Sourcing { idle_used, shortfall: n - idle_used }
}

impl StrategyBlend {
    pub open spec fn valid(self) -> bool {
        self.excluded >= 0
    }

    /// The pool shares held, read in the strategy's slot.
    pub open spec fn b_tokens(self, upstream: Upstream) -> i128 {
        match self.settings {
            Some(config) => supplied(upstream.positions.supply@, config.reserve_index),
            None => 0,
        }
    }

    /// What the pool shares that count are worth, or why they cannot be valued:
    /// a reserve that is no longer in the slot is not priced at all.
    pub open spec fn assets_at(self, upstream: Upstream) -> Result<i128, StrategyError> {
        match self.settings {
            None => Err(StrategyError::NotInitialized),
            Some(config) => if upstream.reserve.config.index != config.reserve_index {
                Err(StrategyError::UpstreamMismatch)
            } else {
                match assets_value(
                    valued(self.b_tokens(upstream) as int, self.excluded as int),
                    upstream.reserve.data.b_rate as int,
                ) {
                    Some(assets) => Ok(assets),
                    None => Err(StrategyError::MathOverflow),
                }
            },
        }
    }

    /// Whether a call with an amount is one the vault may make.
    pub open spec fn admitted(self, caller: u64, n: int) -> Result<(), StrategyError> {
        match self.settings {
            None => Err(StrategyError::NotInitialized),
            Some(config) => if caller != config.vault {
                Err(StrategyError::NotVault)
            } else if n <= 0 {
                Err(StrategyError::InvalidAmount)
            } else {
                Ok(())
            },
        }
    }

    /// What a deposit is credited with, or why it is refused.
    pub open spec fn credit(self, caller: u64, n: int, before: Upstream, after: Upstream) -> Result<
        i128,
        StrategyError,
    > {
        match self.admitted(caller, n) {
            Err(error) => Err(error),
            Ok(_) => match self.assets_at(before) {
                Err(error) => Err(error),
                Ok(worth_before) => match self.assets_at(after) {
                    Err(error) => Err(error),
                    Ok(worth_after) => if !fits(worth_after - worth_before) {
                        Err(StrategyError::MathOverflow)
                    } else if worth_after - worth_before <= 0 {
                        Err(StrategyError::UpstreamMismatch)
                    } else {
                        Ok((worth_after - worth_before) as i128)
                    },
                },
            },
        }
    }

    /// The pool shares left out once idle underlying was spent, going by the
    /// pool's account. An account that was not read, or that has the underlying
    /// in another slot, says nothing of what the shares are worth.
    pub open spec fn exclusion(self, idle_used: int, upstream: Option<Upstream>) -> int {
        match (self.settings, upstream) {
            (Some(config), Some(upstream)) => if upstream.reserve.config.index
                == config.reserve_index {
                excluded_after(
                    self.excluded as int,
                    self.b_tokens(upstream) as int,
                    upstream.reserve.data.b_rate as int,
                    idle_used,
                )
            } else {
                self.excluded as int
            },
            _ => self.excluded as int,
        }
    }

    /// What a withdrawal delivers and leaves excluded, or why it is refused. The
    /// pool's account decides on the exclusion alone: whatever it says, idle
    /// underlying is paid out.
    pub open spec fn withdrawal(
        self,
        caller: u64,
        n: int,
        min_underlying_out: int,
        idle_before: int,
        idle_after: Option<i128>,
        upstream: Option<Upstream>,
    ) -> Result<(i128, i128), StrategyError> {
        match self.admitted(caller, n) {
            Err(error) => Err(error),
            Ok(_) => match delivery(n, min_underlying_out, idle_before, idle_after) {
                Err(error) => Err(error),
                Ok(delivered) => Ok(
                    (
                        delivered,
                        self.exclusion(sourced(n, idle_before).idle_used as int, upstream) as i128,
                    ),
                ),
            },
        }
    }

    /// What could be paid out now.
    pub open spec fn payable(self, upstream: Upstream, idle: int, pool_liquidity: int) -> Result<
        i128,
        StrategyError,
    > {
        match self.assets_at(upstream) {
            Err(error) => Err(error),
            Ok(worth) => {
                let deliverable = idle + min_of(worth as int, pool_liquidity);
                if !fits(deliverable) {
                    Err(StrategyError::MathOverflow)
                } else {
                    Ok(min_of(deliverable, worth as int) as i128)
                }
            },
        }
    }

    pub fn new() -> (strategy: Self)
        ensures
            strategy.settings is None,
            strategy.excluded == 0,
            strategy.valid(),
    {
        StrategyBlend { settings: None, excluded: 0 }
    }

    /// Binds the strategy for good to one vault, one underlying and one pool.
    /// The caller has established that `admin` asked.
    pub fn initialize(
        &mut self,
        admin: u64,
        vault: u64,
        underlying: u64,
        pool: u64,
        reserves: &Vec<u64>,
        reserve: &Reserve,
    ) -> (result: Result<(), StrategyError>)
        requires
            reserves@.len() <= u32::MAX,
        ensures
            final(self).excluded == old(self).excluded,
            match (old(self).settings, slot_of(reserves@, underlying, *reserve)) {
                (Some(_), _) => {
                    &&& result == Err::<(), StrategyError>(StrategyError::AlreadyInitialized)
                    &&& final(self).settings == old(self).settings
                },
                (None, Err(error)) => {
                    &&& result == Err::<(), StrategyError>(error)
                    &&& final(self).settings == old(self).settings
                },
                (None, Ok(reserve_index)) => {
                    &&& result == Ok::<(), StrategyError>(())
                    &&& final(self).settings == Some(
                        Config { admin, vault, underlying, pool, reserve_index },
                    )
                },
            },
    {
        if self.settings.is_some() {
            return Err(StrategyError::AlreadyInitialized);
        }
        let reserve_index: u32 = derive_reserve_index(reserves, underlying, reserve)?;
        self.settings = Some(Config { admin, vault, underlying, pool, reserve_index });
        Ok(())
    }

    pub fn config(&self) -> (result: Result<Config, StrategyError>)
        ensures
            result == (match self.settings {
                Some(config) => Ok::<Config, StrategyError>(config),
                None => Err(StrategyError::NotInitialized),
            }),
    {
        match self.settings {
            Some(config) => Ok(config),
            None => Err(StrategyError::NotInitialized),
        }
    }

    pub fn underlying(&self) -> (result: Result<u64, StrategyError>)
        ensures
            result == (match self.settings {
                Some(config) => Ok::<u64, StrategyError>(config.underlying),
                None => Err(StrategyError::NotInitialized),
            }),
    {
        let config: Config = self.config()?;
        Ok(config.underlying)
    }

    pub fn vault(&self) -> (result: Result<u64, StrategyError>)
        ensures
            result == (match self.settings {
                Some(config) => Ok::<u64, StrategyError>(config.vault),
                None => Err(StrategyError::NotInitialized),
            }),
    {
        let config: Config = self.config()?;
        Ok(config.vault)
    }

    /// The pool shares that count, and their rate.
    fn valued_holding(&self, upstream: &Upstream) -> (result: Result<Holding, StrategyError>)
        requires
            self.valid(),
        ensures
            match self.settings {
                None => result == Err::<Holding, StrategyError>(StrategyError::NotInitialized),
                Some(config) => if upstream.reserve.config.index != config.reserve_index {
                    result == Err::<Holding, StrategyError>(StrategyError::UpstreamMismatch)
                } else {
                    match result {
                        Ok(holding) => {
                            &&& holding.b_tokens == valued(
                                self.b_tokens(*upstream) as int,
                                self.excluded as int,
                            )
                            &&& holding.b_rate == upstream.reserve.data.b_rate
                        },
                        Err(_) => false,
                    }
                },
            },
    {
        let config: Config = self.config()?;
        let held: Holding = Holding::read(
            &upstream.positions,
            &upstream.reserve,
            config.reserve_index,
        );
        if upstream.reserve.config.index != config.reserve_index {
            return Err(StrategyError::UpstreamMismatch);
        }
        let b_tokens: i128 = if self.excluded == 0 {
            held.b_tokens
        } else if held.b_tokens > self.excluded {
            held.b_tokens - self.excluded
        } else {
            0
        };
        Ok(Holding { b_tokens, b_rate: held.b_rate })
    }

    /// What the supplied position is worth, leaving out what was excluded. Idle
    /// underlying and unclaimed rewards do not count.
    pub fn total_assets(&self, upstream: &Upstream) -> (result: Result<i128, StrategyError>)
        requires
            self.valid(),
        ensures
            result == self.assets_at(*upstream),
    {
        let holding: Holding = self.valued_holding(upstream)?;
        check_overflow(holding.assets())
    }

    /// What a redemption could be paid now: idle underlying and what the pool
    /// has in cash, but never more than the position is worth.
    pub fn max_withdraw(&self, upstream: &Upstream, idle: i128, pool_liquidity: i128) -> (result: Result<
        i128,
        StrategyError,
    >)
        requires
            self.valid(),
        ensures
            result == self.payable(*upstream, idle as int, pool_liquidity as int),
    {
        let worth: i128 = self.total_assets(upstream)?;
        let realizable: i128 = if worth < pool_liquidity {
            worth
        } else {
            pool_liquidity
        };
        let deliverable: i128 = check_overflow(idle.checked_add(realizable))?;
        Ok(
            if deliverable < worth {
                deliverable
            } else {
                worth
            },
        )
    }

    /// The checks made before the pool is read.
    pub fn require_vault(&self, caller: u64, n: i128) -> (result: Result<(), StrategyError>)
        ensures
            result == self.admitted(caller, n as int),
    {
        let config: Config = self.config()?;
        if caller != config.vault {
            return Err(StrategyError::NotVault);
        }
        if n <= 0 {
            return Err(StrategyError::InvalidAmount);
        }
        Ok(())
    }

    /// Values the position before a deposit. The caller has established that
    /// `caller` asked.
    pub fn begin_deposit(&self, caller: u64, n: i128, before: &Upstream) -> (result: Result<
        i128,
        StrategyError,
    >)
        requires
            self.valid(),
        ensures
            result == (match self.admitted(caller, n as int) {
                Err(error) => Err::<i128, StrategyError>(error),
                Ok(_) => self.assets_at(*before),
            }),
    {
        self.require_vault(caller, n)?;
        self.total_assets(before)
    }

    /// Measures a deposit once it has been supplied: the credit is what the
    /// valuation rose by, not what was sent.
    pub fn deposit(&self, caller: u64, n: i128, before: &Upstream, after: &Upstream) -> (result: Result<
        Deposited,
        StrategyError,
    >)
        requires
            self.valid(),
        ensures
            result == (match self.credit(caller, n as int, *before, *after) {
                Err(error) => Err::<Deposited, StrategyError>(error),
                Ok(credited) => Ok(Deposited { amount: n, credited }),
            }),
    {
        let worth_before: i128 = self.begin_deposit(caller, n, before)?;
        let worth_after: i128 = self.total_assets(after)?;
        let credited: i128 = check_overflow(worth_after.checked_sub(worth_before))?;
        if credited <= 0 {
            return Err(StrategyError::UpstreamMismatch);
        }
        Ok(Deposited { amount: n, credited })
    }

    /// Splits a withdrawal between what lies idle and what the pool must be
    /// asked for. The caller has established that `caller` asked.
    pub fn begin_withdraw(&self, caller: u64, n: i128, idle: i128) -> (result: Result<
        Sourcing,
        StrategyError,
    >)
        requires
            fits(n - min_of(idle as int, n as int)),
        ensures
            result == (match self.admitted(caller, n as int) {
                Err(error) => Err::<Sourcing, StrategyError>(error),
                Ok(_) => Ok(sourced(n as int, idle as int)),
            }),
    {
        self.require_vault(caller, n)?;
        Ok(source(n, idle))
    }

    /// The pool shares to leave out once idle underlying was spent.
    fn exclude(&self, idle_used: i128, upstream: Option<&Upstream>) -> (excluded: i128)
        requires
            self.valid(),
        ensures
            excluded >= 0,
            excluded == self.exclusion(
                idle_used as int,
                match upstream {
                    Some(upstream) => Some(*upstream),
                    None => None,
                },
            ),
    {
        let upstream: &Upstream = match upstream {
            Some(upstream) => upstream,
            None => {
                return self.excluded;
            },
        };
        let holding: Holding = match self.valued_holding(upstream) {
            Ok(holding) => holding,
            Err(_) => {
                return self.excluded;
            },
        };
        if idle_used <= 0 || holding.b_rate <= 0 || holding.b_tokens <= 0
            || holding.assets().is_none() {
            return self.excluded;
        }
        proof {
            lemma_exclusion(idle_used as int, holding.b_tokens as int, holding.b_rate as int);
        }
        match mul_div_ceil(idle_used, BLEND_SCALAR_12, holding.b_rate) {
            Some(tokens) if tokens < holding.b_tokens => self.excluded + tokens,
            _ => self.excluded + holding.b_tokens,
        }
    }

    /// Settles a withdrawal once the pool was asked. `idle_before` and
    /// `idle_after` are the strategy's own balance around the request to the
    /// pool, `idle_after` `None` where none was made or the pool refused;
    /// `upstream` is the pool's account afterwards, where it could be read. It
    /// counts only where idle underlying was spent.
    pub fn withdraw(
        &mut self,
        caller: u64,
        n: i128,
        min_underlying_out: i128,
        idle_before: i128,
        idle_after: Option<i128>,
        upstream: Option<&Upstream>,
    ) -> (result: Result<Withdrawn, StrategyError>)
        requires
            old(self).valid(),
            fits(n - min_of(idle_before as int, n as int)),
        ensures
            final(self).valid(),
            final(self).settings == old(self).settings,
            match old(self).withdrawal(
                caller,
                n as int,
                min_underlying_out as int,
                idle_before as int,
                idle_after,
                match upstream {
                    Some(upstream) => Some(*upstream),
                    None => None,
                },
            ) {
                Err(error) => {
                    &&& result == Err::<Withdrawn, StrategyError>(error)
                    &&& final(self).excluded == old(self).excluded
                },
                Ok((delivered, excluded)) => {
                    &&& result == Ok::<Withdrawn, StrategyError>(
                        Withdrawn { requested: n, delivered },
                    )
                    &&& final(self).excluded == excluded
                },
            },
    {
        let sourcing: Sourcing = self.begin_withdraw(caller, n, idle_before)?;
        let paid: i128 = match idle_after {
            Some(idle_after) if sourcing.shortfall > 0 => {
                let change: i128 = check_overflow(idle_after.checked_sub(idle_before))?;
                if change > 0 {
                    change
                } else {
                    0
                }
            },
            _ => 0,
        };
        let delivered: i128 = check_overflow(sourcing.idle_used.checked_add(paid))?;
        if delivered <= 0 {
            return Err(StrategyError::WithdrawalFailed);
        }
        if delivered < min_underlying_out {
            return Err(StrategyError::SlippageExceeded);
        }
        self.excluded = self.exclude(sourcing.idle_used, upstream);
        Ok(Withdrawn { requested: n, delivered })
    }

    /// Follows the underlying to the slot the pool has moved it to. No slot is
    /// taken on the caller's word: it is found again as at initialization. The
    /// caller has established that `admin` asked.
    pub fn migrate_reserve_index(&mut self, admin: u64, reserves: &Vec<u64>, reserve: &Reserve) -> (result:
        Result<ReserveMigrated, StrategyError>)
        requires
            reserves@.len() <= u32::MAX,
        ensures
            final(self).excluded == old(self).excluded,
            match old(self).settings {
                None => {
                    &&& result == Err::<ReserveMigrated, StrategyError>(
                        StrategyError::NotInitialized,
                    )
                    &&& final(self).settings is None
                },
                Some(config) => match slot_of(reserves@, config.underlying, *reserve) {
                    _ if admin != config.admin => {
                        &&& result == Err::<ReserveMigrated, StrategyError>(StrategyError::NotVault)
                        &&& final(self).settings == old(self).settings
                    },
                    Err(error) => {
                        &&& result == Err::<ReserveMigrated, StrategyError>(error)
                        &&& final(self).settings == old(self).settings
                    },
                    Ok(new_index) => {
                        &&& result == Ok::<ReserveMigrated, StrategyError>(
                            ReserveMigrated { old_index: config.reserve_index, new_index },
                        )
                        &&& final(self).settings == Some(
                            Config { reserve_index: new_index, ..config },
                        )
                    },
                },
            },
    {
        let config: Config = self.config()?;
        if admin != config.admin {
            return Err(StrategyError::NotVault);
        }
        let new_index: u32 = derive_reserve_index(reserves, config.underlying, reserve)?;
        let old_index: u32 = config.reserve_index;
        self.settings = Some(Config { reserve_index: new_index, ..config });
        Ok(ReserveMigrated { old_index, new_index })
    }
}

/// Where the shares that a payment stands for are out of range, they are more
/// than all that count.
proof fn lemma_exclusion(idle_used: int, left: int, b_rate: int)
    requires
        idle_used > 0,
        left > 0,
        b_rate > 0,
        fits(left),
        fits(left * b_rate),
    ensures
        ceil_div(idle_used * 1_000_000_000_000, b_rate) > 0,
        match scaled_ceil(idle_used, 1_000_000_000_000, b_rate) {
            Some(tokens) => tokens == ceil_div(idle_used * 1_000_000_000_000, b_rate),
            None => ceil_div(idle_used * 1_000_000_000_000, b_rate) >= left,
        },
{
    let n = idle_used * 1_000_000_000_000;
    lemma_ceil(n, b_rate);
    if fits(n) {
        law_reduction_only_helps(idle_used, 1_000_000_000_000, b_rate);
    } else {
        let tokens = ceil_div(n, b_rate);
        assert(tokens >= left) by (nonlinear_arith)
            requires
                n <= tokens * b_rate,
                left * b_rate <= n,
                b_rate > 0,
        ;
    }
}

/// Whatever the pool's account says, and whether or not it could be read, a
/// withdrawal delivers what lies idle and what the pool paid: an account decides
/// only on what is left out of the valuation.
pub proof fn law_idle_is_never_stranded(
    strategy: StrategyBlend,
    caller: u64,
    n: int,
    min_underlying_out: int,
    idle_before: int,
    idle_after: Option<i128>,
    upstream: Option<Upstream>,
)
    requires
        strategy.admitted(caller, n) is Ok,
        0 < idle_before <= i128::MAX,
        min_underlying_out <= min_of(idle_before, n),
        fits(n),
    ensures
        idle_after is None ==> (strategy.withdrawal(
            caller,
            n,
            min_underlying_out,
            idle_before,
            idle_after,
            upstream,
        ) matches Ok((delivered, _)) && delivered == min_of(idle_before, n)),
        match strategy.withdrawal(
            caller,
            n,
            min_underlying_out,
            idle_before,
            idle_after,
            upstream,
        ) {
            Ok((delivered, _)) => delivered >= min_of(idle_before, n) && strategy.withdrawal(
                caller,
                n,
                min_underlying_out,
                idle_before,
                idle_after,
                None,
            ) == Ok::<(i128, i128), StrategyError>((delivered, strategy.excluded)),
            Err(error) => error == StrategyError::MathOverflow,
        },
{
}

/// What can be paid out never exceeds what the position is worth, nor what lies
/// idle and in the pool together.
pub proof fn law_payable_is_bounded(
    strategy: StrategyBlend,
    upstream: Upstream,
    idle: int,
    pool_liquidity: int,
)
    requires
        strategy.payable(upstream, idle, pool_liquidity) is Ok,
    ensures
        strategy.payable(upstream, idle, pool_liquidity)->Ok_0 <= strategy.assets_at(
            upstream,
        )->Ok_0,
        strategy.payable(upstream, idle, pool_liquidity)->Ok_0 <= idle + pool_liquidity,
{
}

/// A withdrawal of what was quoted as payable delivers it, where the pool pays
/// what it is asked for out of the cash it has.
pub proof fn law_payable_is_delivered(
    strategy: StrategyBlend,
    upstream: Upstream,
    idle: int,
    pool_liquidity: int,
    n: int,
    idle_after: i128,
)
    requires
        0 <= idle <= i128::MAX,
        strategy.payable(upstream, idle, pool_liquidity) is Ok,
        0 < n <= strategy.payable(upstream, idle, pool_liquidity)->Ok_0,
        idle_after - idle == min_of(
            sourced(n, idle).shortfall as int,
            min_of(strategy.assets_at(upstream)->Ok_0 as int, pool_liquidity),
        ),
    ensures
        delivery(n, n, idle, Some(idle_after)) == Ok::<i128, StrategyError>(n as i128),
{
}

/// Paying out idle underlying takes at least as much off the valuation as was
/// paid, and less than one more pool share is worth: the donation that paid it
/// cannot come back as a rise of the rate.
pub proof fn law_spent_idle_leaves_the_valuation(
    b_tokens: int,
    excluded: int,
    b_rate: int,
    idle_used: int,
)
    requires
        0 <= excluded <= i128::MAX,
        0 <= b_tokens <= i128::MAX,
        b_rate > 0,
        idle_used > 0,
        assets_value(valued(b_tokens, excluded), b_rate) is Some,
        idle_used <= assets_value(valued(b_tokens, excluded), b_rate)->0,
    ensures
        ({
            let before = assets_value(valued(b_tokens, excluded), b_rate)->0;
            let later = excluded_after(excluded, b_tokens, b_rate, idle_used);
            let after = assets_value(valued(b_tokens, later), b_rate);
            &&& after is Some
            &&& 0 <= after->0 <= before - idle_used
            &&& (before - idle_used - after->0 - 1) * 1_000_000_000_000 < b_rate
        }),
{
    let s = 1_000_000_000_000int;
    let left = valued(b_tokens, excluded);
    let tokens = ceil_div(idle_used * s, b_rate);
    lemma_ceil(idle_used * s, b_rate);
    assert(left * b_rate >= 0) by (nonlinear_arith)
        requires
            left >= 0,
            b_rate > 0,
    ;
    lemma_quot_fits(left * b_rate, s);
    let before = left * b_rate / s;
    // The shares that count are worth the payment, so they cover its tokens.
    assert(tokens <= left) by (nonlinear_arith)
        requires
            b_rate > 0,
            idle_used * s <= left * b_rate,
            tokens * b_rate - b_rate < idle_used * s,
    ;
    let later = excluded_after(excluded, b_tokens, b_rate, idle_used);
    assert(later == excluded + tokens);
    assert(valued(b_tokens, later) == left - tokens);
    assert((left - tokens) * b_rate == left * b_rate - tokens * b_rate && (left - tokens) * b_rate
        >= 0) by (nonlinear_arith)
        requires
            tokens <= left,
            b_rate > 0,
    ;
    lemma_quot_fits((left - tokens) * b_rate, s);
}

/// What was excluded stays out at every later rate: the valuation is that of
/// the pool shares that count, and interest on the others never enters it.
pub proof fn law_exclusion_keeps_its_interest_out(b_tokens: int, excluded: int, b_rate: int, later: int)
    requires
        0 < excluded <= b_tokens <= i128::MAX,
        0 < b_rate <= later,
        fits((b_tokens - excluded) * later),
    ensures
        assets_value(valued(b_tokens, excluded), b_rate) == assets_value(
            b_tokens - excluded,
            b_rate,
        ),
        assets_value(valued(b_tokens, excluded), later) == assets_value(b_tokens - excluded, later),
        assets_value(valued(b_tokens, excluded), b_rate) is Some,
        assets_value(valued(b_tokens, excluded), b_rate)->0 <= assets_value(
            valued(b_tokens, excluded),
            later,
        )->0,
{
    let left = b_tokens - excluded;
    assert(0 <= left * b_rate <= left * later) by (nonlinear_arith)
        requires
            left >= 0,
            0 < b_rate <= later,
    ;
    crate::blend_adapter::law_interest_only_adds(left, b_rate, later);
}

/// A deposit is credited with exactly what the valuation rose by, and never
/// with nothing.
pub proof fn law_deposit_is_measured(
    strategy: StrategyBlend,
    caller: u64,
    n: int,
    before: Upstream,
    after: Upstream,
)
    requires
        strategy.credit(caller, n, before, after) is Ok,
    ensures
        strategy.credit(caller, n, before, after)->Ok_0 == strategy.assets_at(after)->Ok_0
            - strategy.assets_at(before)->Ok_0,
        strategy.credit(caller, n, before, after)->Ok_0 > 0,
{
}

/// A slot is only ever taken up where the pool lists the same underlying in it
/// and its own record of the underlying agrees.
pub proof fn law_slot_holds_the_underlying(config: Config, reserves: Seq<u64>, reserve: Reserve)
    requires
        slot_of(reserves, config.underlying, reserve) is Ok,
    ensures
        ({
            let index = slot_of(reserves, config.underlying, reserve)->Ok_0;
            &&& reserves[index as int] == config.underlying
            &&& reserve.config.index == index
        }),
{
}

/// What a withdrawal delivers: idle underlying first, up to what was asked for,
/// and for the rest what the strategy's own balance rose by when the pool was
/// asked, which counts for nothing where it fell or the pool was not asked. It
/// fails only where that is nothing, less than the minimum, or out of range.
pub proof fn law_delivery_terms(
    n: i128,
    min_underlying_out: i128,
    idle_before: i128,
    idle_after: Option<i128>,
)
    requires
        n > 0,
        idle_before >= 0,
    ensures
        ({
            let sourcing = sourced(n as int, idle_before as int);
            let rise = idle_after->0 - idle_before;
            let came = if idle_after is Some && idle_before < n && rise > 0 {
                rise
            } else {
                0
            };
            let result = delivery(
                n as int,
                min_underlying_out as int,
                idle_before as int,
                idle_after,
            );
            &&& sourcing.idle_used <= n && sourcing.idle_used <= idle_before
            &&& sourcing.idle_used == n || sourcing.idle_used == idle_before
            &&& sourcing.shortfall == n - sourcing.idle_used
            &&& result matches Ok(delivered) ==> delivered == sourcing.idle_used + came
                && delivered > 0 && delivered >= min_underlying_out
            &&& (idle_after is Some ==> rise >= i128::MIN) && sourcing.idle_used + came > 0
                && sourcing.idle_used + came >= min_underlying_out && sourcing.idle_used + came
                <= i128::MAX ==> result is Ok
        }),
{
}

/// What the strategy's position is worth: the pool shares in its slot that were
/// not left out, at the pool's rate, rounded down. It is valued exactly where the
/// pool still has the underlying in that slot and the product is in range.
pub proof fn law_valuation_terms(strategy: StrategyBlend, upstream: Upstream)
    requires
        strategy.valid(),
        strategy.settings matches Some(config) && {
            &&& upstream.positions.supply@.contains_key(config.reserve_index)
            &&& upstream.positions.supply@[config.reserve_index] >= 0
        },
        upstream.reserve.data.b_rate >= 0,
    ensures
        ({
            let index = strategy.settings->0.reserve_index;
            let held = upstream.positions.supply@[index];
            let counted = if held > strategy.excluded {
                held - strategy.excluded
            } else {
                0
            };
            let value = counted * upstream.reserve.data.b_rate;
            &&& strategy.assets_at(upstream) is Ok <==> upstream.reserve.config.index == index
                && value <= i128::MAX
            &&& strategy.assets_at(upstream) matches Ok(assets) ==> assets * 1_000_000_000_000
                <= value < (assets + 1) * 1_000_000_000_000
        }),
{
    let index = strategy.settings->0.reserve_index;
    let held = upstream.positions.supply@[index];
    let counted = valued(held as int, strategy.excluded as int);
    crate::blend_adapter::law_pool_shares_are_priced_at_the_rate(
        counted,
        0,
        upstream.reserve.data.b_rate as int,
    );
}

/// What could be paid out now: all that the position is worth, or, where that is
/// less, all that lies idle and in the pool together.
pub proof fn law_payable_terms(
    strategy: StrategyBlend,
    upstream: Upstream,
    idle: i128,
    pool_liquidity: i128,
)
    requires
        idle >= 0,
        pool_liquidity >= 0,
        strategy.assets_at(upstream) matches Ok(worth) && worth >= 0,
    ensures
        ({
            let worth = strategy.assets_at(upstream)->Ok_0;
            let result = strategy.payable(upstream, idle as int, pool_liquidity as int);
            &&& result matches Ok(most) ==> {
                &&& most <= worth && most <= idle + pool_liquidity
                &&& most == worth || most == idle + pool_liquidity
            }
            &&& idle + worth <= i128::MAX ==> result is Ok
        }),
{
}

/// What spending idle underlying leaves out of the valuation, where `tokens` is
/// the pool shares that as much would have burned, rounded up: that many more, and
/// never more than were still counted. Nothing is left out where none was spent.
pub proof fn law_exclusion_terms(
    strategy: StrategyBlend,
    upstream: Upstream,
    idle_used: int,
    tokens: int,
)
    requires
        strategy.valid(),
        strategy.assets_at(upstream) is Ok,
        upstream.positions.supply@.contains_key(strategy.settings->0.reserve_index),
        upstream.positions.supply@[strategy.settings->0.reserve_index] > strategy.excluded,
        upstream.reserve.data.b_rate > 0,
        idle_used >= 0,
        (tokens - 1) * upstream.reserve.data.b_rate < idle_used * 1_000_000_000_000,
        idle_used * 1_000_000_000_000 <= tokens * upstream.reserve.data.b_rate,
    ensures
        ({
            let held = upstream.positions.supply@[strategy.settings->0.reserve_index];
            let later = strategy.exclusion(idle_used, Some(upstream));
            &&& later == (if strategy.excluded + tokens < held {
                strategy.excluded + tokens
            } else {
                held as int
            })
            &&& strategy.exclusion(idle_used, None) == strategy.excluded
        }),
{
    let rate = upstream.reserve.data.b_rate as int;
    let n = idle_used * 1_000_000_000_000;
    assert(rate * tokens - rate < n <= rate * tokens) by (nonlinear_arith)
        requires
            (tokens - 1) * rate < n <= tokens * rate,
    ;
    crate::fixed::lemma_ceil_unique(n, rate, tokens);
    if idle_used == 0 {
        assert(tokens == 0) by (nonlinear_arith)
            requires
                rate * tokens - rate < 0 <= rate * tokens,
                rate > 0,
        ;
    }
}

/// When a deposit is owed a credit: asked for by the vault, of something, where
/// the position can be valued before and after and is worth more afterwards.
pub proof fn law_deposit_is_owed(
    strategy: StrategyBlend,
    caller: u64,
    n: int,
    before: Upstream,
    after: Upstream,
)
    ensures
        strategy.credit(caller, n, before, after) is Ok <==> {
            &&& strategy.settings matches Some(config) && caller == config.vault
            &&& n > 0
            &&& strategy.assets_at(before) is Ok && strategy.assets_at(after) is Ok
            &&& 0 < strategy.assets_at(after)->Ok_0 - strategy.assets_at(before)->Ok_0 <= i128::MAX
        },
        strategy.admitted(caller, n) is Ok <==> (strategy.settings matches Some(config) && caller
            == config.vault) && n > 0,
{
}

/// When a slot is found: where the pool's own record of the underlying, with seven
/// decimals, names the first place in the pool's list that holds it.
pub proof fn law_slot_terms(reserves: Seq<u64>, underlying: u64, reserve: Reserve)
    ensures
        ({
            let index = reserve.config.index as int;
            &&& slot_of(reserves, underlying, reserve) is Ok <==> {
                &&& reserve.config.decimals == 7
                &&& index < reserves.len() && reserves[index] == underlying
                &&& !reserves.take(index).contains(underlying)
            }
            &&& slot_of(reserves, underlying, reserve) matches Ok(found) ==> found == index
        }),
{
    let index = reserve.config.index as int;
    if index < reserves.len() {
        let head = reserves.take(index);
        if head.contains(underlying) {
            let i = choose|i: int| 0 <= i < head.len() && head[i] == underlying;
            assert(reserves[i] == underlying);
        }
        if !first_slot(reserves, underlying, index) && reserves[index] == underlying {
            let i = choose|i: int| 0 <= i < index && reserves[i] == underlying;
            assert(head[i] == underlying);
        }
    }
}

/// Why a withdrawal is refused, the first reason that holds: no strategy, a caller
/// that is not the vault, nothing asked for, nothing to deliver, or less than the
/// minimum.
pub proof fn law_withdrawal_refusals(
    strategy: StrategyBlend,
    caller: u64,
    n: i128,
    min_underlying_out: i128,
    idle_before: i128,
    idle_after: Option<i128>,
    upstream: Option<Upstream>,
)
    requires
        idle_before >= 0,
        idle_after matches Some(after) ==> after >= idle_before,
    ensures
        ({
            let result = strategy.withdrawal(
                caller,
                n as int,
                min_underlying_out as int,
                idle_before as int,
                idle_after,
                upstream,
            );
            let spent = if idle_before < n {
                idle_before
            } else {
                n
            };
            let came = if idle_before < n && idle_after is Some {
                idle_after->0 - idle_before
            } else {
                0
            };
            &&& strategy.settings is None ==> result is Err && result->Err_0
                == StrategyError::NotInitialized
            &&& strategy.settings matches Some(config) ==> {
                &&& caller != config.vault ==> result is Err && result->Err_0
                    == StrategyError::NotVault
                &&& caller == config.vault && n <= 0 ==> result is Err && result->Err_0
                    == StrategyError::InvalidAmount
                &&& caller == config.vault && n > 0 ==> {
                    &&& spent + came == 0 ==> result is Err && result->Err_0
                        == StrategyError::WithdrawalFailed
                    &&& 0 < spent + came < min_underlying_out ==> result is Err && result->Err_0
                        == StrategyError::SlippageExceeded
                }
            }
        }),
{
}

/// A strategy that the pool has no supply on record for is worth nothing, where
/// the pool still has the underlying in the strategy's slot.
pub proof fn law_no_supply_is_worth_nothing(strategy: StrategyBlend, upstream: Upstream)
    requires
        strategy.valid(),
        strategy.settings matches Some(config) && {
            &&& !upstream.positions.supply@.contains_key(config.reserve_index)
            &&& upstream.reserve.config.index == config.reserve_index
        },
    ensures
        strategy.assets_at(upstream) matches Ok(assets) && assets == 0,
{
    assert(0 * upstream.reserve.data.b_rate == 0);
    lemma_quot_fits(0, 1_000_000_000_000);
}

} // verus!
