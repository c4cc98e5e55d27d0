//! The yield token: a claim on what the SY backing a face amount earns.
//!
//! A holder's yield basis is the number of SY shares that back their face at
//! the rates they acquired it at. Settling at a rate banks the shares that the
//! same face no longer needs, and re-strikes the basis at that rate.

pub use crate::allowance::AllowanceValue;
use crate::allowance::{filed, in_force, spent, AllowanceBook};
use crate::fixed::{ceil_div, fits, lemma_ceil, lemma_ceil_unique, lemma_div_antitone, WAD};
use crate::ledger::{
    amount, backed, credited, debited, lemma_credited, lemma_debited, lemma_shifted,
    lemma_total_bounds, lemma_total_empty, nonnegative, shifted, total, Ledger,
};
use crate::wide;
use soroban_sdk::Env;
use vstd::prelude::*;

verus! {

/// Display decimals.
pub const DECIMALS: u32 = 7;

#[derive(Clone, Copy, Debug, PartialEq, Eq, Structural)]
pub struct Config {
    pub admin: u64,
    pub tokenizer: u64,
    pub sy_token: u64,
    pub maturity: u64,
}

#[derive(Clone, Copy, Debug, PartialEq, Eq, Structural)]
pub enum Error {
    AlreadyInitialized,
    NotInitialized,
    InvalidMaturity,
    InvalidAmount,
    InvalidExchangeRate,
    ExchangeRateRegression,
    InsufficientBalance,
    InsufficientAllowance,
    MathOverflow,
    InvalidExpiration,
    /// More was to be consumed than the holder has banked.
    ConsumeExceedsBanked,
}

/// Where the rate of a holder's own call comes from. Both sources are the
/// tokenizer's, so every rate yield is banked at is on record for the freeze.
#[derive(Clone, Copy, Debug, PartialEq, Eq, Structural)]
pub enum RateSource {
    /// Observe the live rate and record it.
    ObserveRate,
    /// The one rate frozen for maturity.
    FreezeMaturityRate,
}

/// The yield token of one market.
#[derive(Clone, Debug)]
pub struct YtToken {
    pub settings: Option<Config>,
    pub supply: i128,
    pub balances: Ledger,
    pub allowances: AllowanceBook,
    pub basis: Ledger,
    pub accrued: Ledger,
    pub total_basis: i128,
    pub total_accrued: i128,
}

/// The three ledgers and their totals, as a value.
#[verifier::ext_equal]
pub struct Ledgers {
    pub supply: int,
    pub balances: Map<u64, i128>,
    pub total_basis: int,
    pub basis: Map<u64, i128>,
    pub total_accrued: int,
    pub accrued: Map<u64, i128>,
}

// ---------------------------------------------------------------------------
// The yield engine
// ---------------------------------------------------------------------------

/// SY shares that `face` needs behind it at `rate`, rounded up.
pub open spec fn shares_for(face: int, rate: int) -> int {
    ceil_div(face * WAD, rate)
}

/// The basis behind `n` out of a position of `balance`, rounded up.
pub open spec fn slice(basis: int, n: int, balance: int) -> int {
    ceil_div(basis * n, balance)
}

/// What a settle at `rate` would bank for a holder, if the ledger can hold it.
pub open spec fn owing(ledgers: Ledgers, holder: u64, rate: int) -> Result<int, Error> {
    let balance = amount(ledgers.balances, holder) as int;
    let basis = amount(ledgers.basis, holder) as int;
    let required = shares_for(balance, rate);
    if balance <= 0 {
        Ok(0)
    } else if rate <= 0 {
        Err(Error::InvalidExchangeRate)
    } else if !fits(required) {
        Err(Error::MathOverflow)
    } else if basis <= required {
        Ok(0)
    } else if !fits(ledgers.total_accrued + basis - required) {
        Err(Error::MathOverflow)
    } else {
        Ok(basis - required)
    }
}

/// The ledgers once `owed` shares of a holder's basis were banked.
pub open spec fn banked(ledgers: Ledgers, holder: u64, owed: int) -> Ledgers {
    if owed == 0 {
        ledgers
    } else {
        Ledgers {
            basis: debited(ledgers.basis, holder, owed),
            total_basis: ledgers.total_basis - owed,
            accrued: credited(ledgers.accrued, holder, owed),
            total_accrued: ledgers.total_accrued + owed,
            ..ledgers
        }
    }
}

/// Settling a holder at a rate.
pub open spec fn settling(ledgers: Ledgers, holder: u64, rate: int) -> Result<Ledgers, Error> {
    match owing(ledgers, holder, rate) {
        Err(error) => Err(error),
        Ok(owed) => Ok(banked(ledgers, holder, owed)),
    }
}

/// Moving `n` YT and the basis behind it.
pub open spec fn moving(ledgers: Ledgers, from: u64, to: u64, n: int) -> Result<Ledgers, Error> {
    let balance = amount(ledgers.balances, from) as int;
    if balance < n {
        Err(Error::InsufficientBalance)
    } else {
        Ok(
            Ledgers {
                balances: shifted(ledgers.balances, from, to, n),
                basis: shifted(
                    ledgers.basis,
                    from,
                    to,
                    slice(amount(ledgers.basis, from) as int, n, balance),
                ),
                ..ledgers
            },
        )
    }
}

/// Burning `n` YT and retiring the basis behind it.
pub open spec fn burning(ledgers: Ledgers, from: u64, n: int) -> Result<Ledgers, Error> {
    let balance = amount(ledgers.balances, from) as int;
    let retired = slice(amount(ledgers.basis, from) as int, n, balance);
    if balance < n {
        Err(Error::InsufficientBalance)
    } else {
        Ok(
            Ledgers {
                balances: debited(ledgers.balances, from, n),
                supply: ledgers.supply - n,
                basis: debited(ledgers.basis, from, retired),
                total_basis: ledgers.total_basis - retired,
                ..ledgers
            },
        )
    }
}

/// Settling both parties, then moving `n` YT between them.
pub open spec fn transferring(ledgers: Ledgers, from: u64, to: u64, n: int, rate: int) -> Result<
    Ledgers,
    Error,
> {
    match settling(ledgers, from, rate) {
        Err(error) => Err(error),
        Ok(first) => match settling(first, to, rate) {
            Err(error) => Err(error),
            Ok(second) => moving(second, from, to, n),
        },
    }
}

/// Settling a holder, then burning `n` of their YT.
pub open spec fn retiring(ledgers: Ledgers, from: u64, n: int, rate: int) -> Result<Ledgers, Error> {
    match settling(ledgers, from, rate) {
        Err(error) => Err(error),
        Ok(settled) => burning(settled, from, n),
    }
}

/// Settling a recipient, then minting `n` YT to them with its own basis.
pub open spec fn minting(ledgers: Ledgers, to: u64, n: int, rate: int) -> Result<Ledgers, Error> {
    match settling(ledgers, to, rate) {
        Err(error) => Err(error),
        Ok(settled) => if rate <= 0 {
            Err(Error::InvalidExchangeRate)
        } else if !fits(shares_for(n, rate)) || !fits(settled.total_basis + shares_for(n, rate))
            || !fits(settled.supply + n) {
            Err(Error::MathOverflow)
        } else {
            Ok(
                Ledgers {
                    balances: credited(settled.balances, to, n),
                    supply: settled.supply + n,
                    basis: credited(settled.basis, to, shares_for(n, rate)),
                    total_basis: settled.total_basis + shares_for(n, rate),
                    ..settled
                },
            )
        },
    }
}

impl Ledgers {
    /// No entry is negative, and each total covers its entries.
    pub open spec fn valid(self) -> bool {
        &&& backed(self.balances, self.supply)
        &&& backed(self.basis, self.total_basis)
        &&& backed(self.accrued, self.total_accrued)
        &&& self.supply <= i128::MAX
        &&& self.total_basis <= i128::MAX
        &&& self.total_accrued <= i128::MAX
    }

    /// Each total less its entries. No operation changes any of the three:
    /// where they are zero, every total is exactly the sum of its entries.
    pub open spec fn unrecorded(self) -> (int, int, int) {
        (
            self.supply - total(self.balances),
            self.total_basis - total(self.basis),
            self.total_accrued - total(self.accrued),
        )
    }
}

/// The required shares are nonnegative, and fewer at a higher rate.
pub proof fn lemma_shares_for(face: int, r1: int, r2: int)
    requires
        face >= 0,
        0 < r1 <= r2,
    ensures
        0 <= shares_for(face, r2) <= shares_for(face, r1),
        face > 0 ==> shares_for(face, r2) > 0,
{
    assert(face * WAD >= 0 && (face > 0 ==> face * WAD > 0)) by (nonlinear_arith)
        requires
            face >= 0,
    ;
    lemma_ceil(face * WAD, r2);
    lemma_div_antitone(face * WAD, r1, r2);
}

/// A slice is between nothing and the whole basis, and at least proportional.
pub proof fn lemma_slice(basis: int, n: int, balance: int)
    requires
        basis >= 0,
        0 < n <= balance,
    ensures
        0 <= slice(basis, n, balance) <= basis,
        slice(basis, n, balance) * balance >= basis * n,
        n == balance ==> slice(basis, n, balance) == basis,
{
    assert(0 <= basis * n <= basis * balance) by (nonlinear_arith)
        requires
            basis >= 0,
            0 < n <= balance,
    ;
    lemma_ceil(basis * n, balance);
    let s: int = slice(basis, n, balance);
    assert(s <= basis) by (nonlinear_arith)
        requires
            balance * s - balance < basis * n,
            basis * n <= basis * balance,
            balance > 0,
    ;
    if n == balance {
        assert(balance * basis - balance < basis * n <= balance * basis) by (nonlinear_arith)
            requires
                n == balance,
                balance > 0,
        ;
        lemma_ceil_unique(basis * n, balance, basis);
    }
}

/// Banking keeps the ledgers valid, the unrecorded parts, and the sum of basis
/// and banked yield.
pub proof fn lemma_settling(ledgers: Ledgers, holder: u64, rate: int)
    requires
        ledgers.valid(),
        settling(ledgers, holder, rate) is Ok,
    ensures
        ({
            let after = settling(ledgers, holder, rate)->Ok_0;
            &&& after.valid()
            &&& after.unrecorded() == ledgers.unrecorded()
            &&& after.balances == ledgers.balances
            &&& after.supply == ledgers.supply
            &&& after.total_basis + after.total_accrued == ledgers.total_basis + ledgers.total_accrued
            &&& amount(after.basis, holder) + amount(after.accrued, holder) == amount(
                ledgers.basis,
                holder,
            ) + amount(ledgers.accrued, holder)
            &&& forall|other: u64|
                other != holder ==> #[trigger] amount(after.basis, other) == amount(
                    ledgers.basis,
                    other,
                ) && amount(after.accrued, other) == amount(ledgers.accrued, other)
        }),
{
    let owed: int = owing(ledgers, holder, rate)->Ok_0;
    if owed != 0 {
        lemma_shares_for(amount(ledgers.balances, holder) as int, rate, rate);
        lemma_total_bounds(ledgers.accrued, holder, holder);
        lemma_debited(ledgers.basis, holder, owed);
        lemma_credited(ledgers.accrued, holder, owed);
    }
}

/// Settling the same holder again at the same rate finds nothing to bank.
pub proof fn law_settle_is_idempotent(ledgers: Ledgers, holder: u64, rate: int)
    requires
        ledgers.valid(),
        settling(ledgers, holder, rate) is Ok,
    ensures
        settling(settling(ledgers, holder, rate)->Ok_0, holder, rate) == settling(
            ledgers,
            holder,
            rate,
        ),
{
    lemma_settling(ledgers, holder, rate);
    lemma_total_bounds(ledgers.balances, holder, holder);
    if amount(ledgers.balances, holder) > 0 {
        lemma_shares_for(amount(ledgers.balances, holder) as int, rate, rate);
    }
}

/// Yield telescopes: settling on the way up banks exactly what one settle at
/// the end does, rounding included.
pub proof fn law_yield_telescopes(ledgers: Ledgers, holder: u64, r1: int, r2: int)
    requires
        ledgers.valid(),
        0 < r1 <= r2,
        settling(ledgers, holder, r1) is Ok,
        settling(ledgers, holder, r2) is Ok,
    ensures
        settling(settling(ledgers, holder, r1)->Ok_0, holder, r2) is Ok,
        ({
            let stepwise = settling(settling(ledgers, holder, r1)->Ok_0, holder, r2)->Ok_0;
            let direct = settling(ledgers, holder, r2)->Ok_0;
            &&& amount(stepwise.basis, holder) == amount(direct.basis, holder)
            &&& amount(stepwise.accrued, holder) == amount(direct.accrued, holder)
            &&& stepwise.total_basis == direct.total_basis
            &&& stepwise.total_accrued == direct.total_accrued
        }),
{
    let first: Ledgers = settling(ledgers, holder, r1)->Ok_0;
    lemma_settling(ledgers, holder, r1);
    lemma_settling(ledgers, holder, r2);
    let balance: int = amount(ledgers.balances, holder) as int;
    if balance > 0 {
        lemma_shares_for(balance, r1, r2);
        let o1: int = owing(ledgers, holder, r1)->Ok_0;
        let o2: int = owing(ledgers, holder, r2)->Ok_0;
        assert(o1 <= o2);
        assert(amount(first.basis, holder) == amount(ledgers.basis, holder) - o1);
        assert(first.total_accrued == ledgers.total_accrued + o1);
        lemma_total_bounds(ledgers.accrued, holder, holder);
        assert(owing(first, holder, r2) == Ok::<int, Error>(o2 - o1));
    }
}

/// On a dip nothing is banked and the basis is held, so a position earns again
/// only above the rate it was struck at.
pub proof fn law_dip_pays_nothing(ledgers: Ledgers, holder: u64, rate: int)
    requires
        rate > 0,
        fits(shares_for(amount(ledgers.balances, holder) as int, rate)),
        amount(ledgers.basis, holder) <= shares_for(amount(ledgers.balances, holder) as int, rate),
    ensures
        settling(ledgers, holder, rate) == Ok::<Ledgers, Error>(ledgers),
{
}

/// What a position of `balance` with `basis` behind it can claim at a rate.
pub open spec fn claim(basis: int, balance: int, rate: int) -> int {
    let required = shares_for(balance, rate);
    if basis > required {
        basis - required
    } else {
        0
    }
}

/// Splitting a position in two gives the parts, together, at most one share
/// more to claim than the whole had: the unit a ceiling can be worth.
pub proof fn law_split_position_claims_no_more(basis: int, balance: int, n: int, rate: int)
    requires
        basis >= 0,
        0 < n < balance,
        rate > 0,
    ensures
        claim(basis - slice(basis, n, balance), balance - n, rate) + claim(
            slice(basis, n, balance),
            n,
            rate,
        ) <= claim(basis, balance, rate) + 1,
{
    let w: int = WAD as int;
    let m: int = slice(basis, n, balance);
    let y: int = balance - n;
    lemma_slice(basis, n, balance);
    lemma_ceil(basis * n, balance);
    lemma_ceil(n * w, rate);
    lemma_ceil(y * w, rate);
    lemma_ceil(balance * w, rate);
    let sn: int = shares_for(n, rate);
    let sy: int = shares_for(y, rate);
    let sx: int = shares_for(balance, rate);
    assert(n * w + y * w == balance * w) by (nonlinear_arith)
        requires
            y == balance - n,
    ;
    // Two ceilings are worth at least one of the sum, and at most one more.
    assert(sx <= sn + sy && sn + sy <= sx + 1) by (nonlinear_arith)
        requires
            rate > 0,
            rate * sn - rate < n * w <= rate * sn,
            rate * sy - rate < y * w <= rate * sy,
            rate * sx - rate < balance * w <= rate * sx,
            n * w + y * w == balance * w,
    ;
    if basis < sx {
        // Under water as a whole: neither part is above its own requirement.
        assert(basis * rate < balance * w) by (nonlinear_arith)
            requires
                basis <= sx - 1,
                rate * sx - rate < balance * w,
                rate > 0,
        ;
        lemma_underwater_part(basis, n, balance, rate, m, sn);
        lemma_remaining_part(basis, n, balance, rate, m, y, w, sy);
    } else {
        lemma_receiver_part(basis, n, balance, rate, m, y, w, sn, sy, sx);
    }
}

proof fn lemma_underwater_part(basis: int, n: int, balance: int, rate: int, m: int, sn: int)
    requires
        0 < n < balance,
        rate > 0,
        basis >= 0,
        basis * rate < balance * WAD,
        balance * m - balance < basis * n,
        n * WAD <= rate * sn,
    ensures
        m <= sn,
{
    let w: int = WAD as int;
    // balance * rate * (m - 1) < basis * rate * n < balance * w * n <= balance * rate * sn
    if m > sn {
        assert(basis * n * rate < balance * w * n) by (nonlinear_arith)
            requires
                basis * rate < balance * w,
                n > 0,
        ;
        assert(balance * sn <= balance * m - balance) by (nonlinear_arith)
            requires
                m >= sn + 1,
                balance > 0,
        ;
        assert(balance * sn * rate < basis * n * rate) by (nonlinear_arith)
            requires
                balance * sn <= balance * m - balance,
                balance * m - balance < basis * n,
                rate > 0,
        ;
        assert(balance * w * n <= balance * sn * rate) by (nonlinear_arith)
            requires
                n * w <= rate * sn,
                balance > 0,
        ;
    }
}

proof fn lemma_remaining_part(
    basis: int,
    n: int,
    balance: int,
    rate: int,
    m: int,
    y: int,
    w: int,
    sy: int,
)
    requires
        basis * rate < balance * w,
        m * balance >= basis * n,
        y == balance - n,
        y * w <= rate * sy,
        0 < n < balance,
        rate > 0,
        w > 0,
    ensures
        basis - m <= sy,
{
    // balance * (basis - m) <= basis * y, so balance * rate * (basis - m) <
    // balance * w * y <= balance * rate * sy.
    assert(balance * (basis - m) <= basis * y) by (nonlinear_arith)
        requires
            m * balance >= basis * n,
            y == balance - n,
    ;
    if basis - m > sy {
        assert(basis * y * rate < balance * w * y) by (nonlinear_arith)
            requires
                basis * rate < balance * w,
                y > 0,
        ;
        assert(balance * w * y <= balance * sy * rate) by (nonlinear_arith)
            requires
                y * w <= rate * sy,
                balance > 0,
        ;
        assert(balance * sy * rate <= balance * (basis - m) * rate) by (nonlinear_arith)
            requires
                basis - m > sy,
                balance > 0,
                rate > 0,
        ;
        assert(balance * (basis - m) * rate <= basis * y * rate) by (nonlinear_arith)
            requires
                balance * (basis - m) <= basis * y,
                rate > 0,
        ;
    }
}

proof fn lemma_receiver_part(
    basis: int,
    n: int,
    balance: int,
    rate: int,
    m: int,
    y: int,
    w: int,
    sn: int,
    sy: int,
    sx: int,
)
    requires
        w == WAD,
        basis >= sx,
        0 <= m <= basis,
        balance * m - balance < basis * n <= balance * m,
        y == balance - n,
        0 < n < balance,
        rate > 0,
        n * w + y * w == balance * w,
        sx <= sn + sy,
        sn + sy <= sx + 1,
        rate * sn - rate < n * w,
        rate * sy - rate < y * w <= rate * sy,
        balance * w <= rate * sx,
    ensures
        claim_of(basis - m, sy) + claim_of(m, sn) <= basis - sx + 1,
{
    if basis - m > sy && m > sn {
    } else if m > sn {
        // The sender is under water: what it keeps is still at least its
        // requirement less one.
        assert(basis - m >= sy - 1) by {
            assert(balance * (basis - m) > basis * y - balance) by (nonlinear_arith)
                requires
                    balance * m - balance < basis * n,
                    y == balance - n,
            ;
            if basis - m < sy - 1 {
                assert(balance * (basis - m) <= balance * (sy - 2)) by (nonlinear_arith)
                    requires
                        basis - m <= sy - 2,
                        balance > 0,
                ;
                assert(basis * y < balance * (sy - 1)) by (nonlinear_arith)
                    requires
                        balance * (basis - m) > basis * y - balance,
                        balance * (basis - m) <= balance * (sy - 2),
                ;
                assert(basis * y * rate < balance * (sy - 1) * rate) by (nonlinear_arith)
                    requires
                        basis * y < balance * (sy - 1),
                        rate > 0,
                ;
                assert(balance * (sy - 1) * rate <= balance * (y * w)) by (nonlinear_arith)
                    requires
                        rate * sy - rate < y * w,
                        balance > 0,
                ;
                assert(basis * y * rate >= balance * (y * w)) by (nonlinear_arith)
                    requires
                        basis >= sx,
                        balance * w <= rate * sx,
                        rate > 0,
                        y > 0,
                ;
            }
        }
    } else if basis - m > sy {
        // The receiver's part is at least its requirement.
        assert(m >= sn) by {
            assert(balance * m * rate >= basis * n * rate) by (nonlinear_arith)
                requires
                    basis * n <= balance * m,
                    rate > 0,
            ;
            assert(basis * n * rate >= balance * (n * w)) by (nonlinear_arith)
                requires
                    basis >= sx,
                    balance * w <= rate * sx,
                    rate > 0,
                    n > 0,
            ;
            assert(m * rate >= n * w) by (nonlinear_arith)
                requires
                    balance * m * rate >= balance * (n * w),
                    balance > 0,
            ;
            assert(m >= sn) by (nonlinear_arith)
                requires
                    m * rate >= n * w,
                    rate * sn - rate < n * w,
                    rate > 0,
            ;
        }
    }
}

/// What is above a requirement.
spec fn claim_of(basis: int, required: int) -> int {
    if basis > required {
        basis - required
    } else {
        0
    }
}

// ---------------------------------------------------------------------------
// Lemmas for moving and burning
// ---------------------------------------------------------------------------

pub proof fn lemma_moving(ledgers: Ledgers, from: u64, to: u64, n: int)
    requires
        ledgers.valid(),
        n > 0,
        moving(ledgers, from, to, n) is Ok,
    ensures
        ({
            let after = moving(ledgers, from, to, n)->Ok_0;
            &&& after.valid()
            &&& after.unrecorded() == ledgers.unrecorded()
            &&& after.total_basis == ledgers.total_basis
            &&& after.total_accrued == ledgers.total_accrued
            &&& after.supply == ledgers.supply
        }),
        0 <= slice(amount(ledgers.basis, from) as int, n, amount(ledgers.balances, from) as int)
            <= amount(ledgers.basis, from),
{
    let balance: int = amount(ledgers.balances, from) as int;
    lemma_total_bounds(ledgers.basis, from, to);
    lemma_slice(amount(ledgers.basis, from) as int, n, balance);
    lemma_shifted(ledgers.balances, from, to, n);
    lemma_shifted(
        ledgers.basis,
        from,
        to,
        slice(amount(ledgers.basis, from) as int, n, balance),
    );
}

pub proof fn lemma_burning(ledgers: Ledgers, from: u64, n: int)
    requires
        ledgers.valid(),
        n > 0,
        burning(ledgers, from, n) is Ok,
    ensures
        ({
            let after = burning(ledgers, from, n)->Ok_0;
            &&& after.valid()
            &&& after.unrecorded() == ledgers.unrecorded()
        }),
        0 <= slice(amount(ledgers.basis, from) as int, n, amount(ledgers.balances, from) as int)
            <= amount(ledgers.basis, from),
{
    let balance: int = amount(ledgers.balances, from) as int;
    lemma_total_bounds(ledgers.basis, from, from);
    lemma_slice(amount(ledgers.basis, from) as int, n, balance);
    lemma_debited(ledgers.balances, from, n);
    lemma_debited(
        ledgers.basis,
        from,
        slice(amount(ledgers.basis, from) as int, n, balance),
    );
}

pub proof fn lemma_minting(ledgers: Ledgers, to: u64, n: int, rate: int)
    requires
        ledgers.valid(),
        n > 0,
        minting(ledgers, to, n, rate) is Ok,
    ensures
        ({
            let after = minting(ledgers, to, n, rate)->Ok_0;
            &&& after.valid()
            &&& after.unrecorded() == ledgers.unrecorded()
            &&& after.total_basis + after.total_accrued == ledgers.total_basis + ledgers.total_accrued
                + shares_for(n, rate)
            &&& after.supply == ledgers.supply + n
        }),
{
    lemma_settling(ledgers, to, rate);
    let settled: Ledgers = settling(ledgers, to, rate)->Ok_0;
    lemma_shares_for(n, rate, rate);
    lemma_total_bounds(settled.balances, to, to);
    lemma_total_bounds(settled.basis, to, to);
    lemma_credited(settled.balances, to, n);
    lemma_credited(settled.basis, to, shares_for(n, rate));
}

/// A settle reads nothing of another holder that a first settle could change,
/// except the banked total.
proof fn lemma_settle_other(ledgers: Ledgers, first: u64, second: u64, rate: int)
    requires
        ledgers.valid(),
        first != second,
        settling(ledgers, first, rate) is Ok,
    ensures
        ({
            let after = settling(ledgers, first, rate)->Ok_0;
            &&& amount(after.balances, second) == amount(ledgers.balances, second)
            &&& amount(after.basis, second) == amount(ledgers.basis, second)
            &&& amount(after.accrued, second) == amount(ledgers.accrued, second)
        }),
{
    lemma_settling(ledgers, first, rate);
}

// ---------------------------------------------------------------------------
// The token
// ---------------------------------------------------------------------------

/// SY shares needed behind `face` at `rate`, rounded up.
pub fn shares_for_face(env: &Env, face: i128, rate: i128) -> (result: Result<i128, Error>)
    ensures
        result == (if rate <= 0 {
            Err::<i128, Error>(Error::InvalidExchangeRate)
        } else if face <= 0 {
            Ok(0)
        } else if fits(shares_for(face as int, rate as int)) {
            Ok(shares_for(face as int, rate as int) as i128)
        } else {
            Err(Error::MathOverflow)
        }),
{
    if rate <= 0 {
        return Err(Error::InvalidExchangeRate);
    }
    if face <= 0 {
        return Ok(0);
    }
    proof {
        assert(face * WAD >= 0) by (nonlinear_arith)
            requires
                face >= 0,
        ;
    }
    match wide::mul_div_ceil(env, face, WAD, rate) {
        Some(shares) => Ok(shares),
        None => Err(Error::MathOverflow),
    }
}

/// The basis behind `n` out of a position of `balance`.
fn basis_slice(env: &Env, basis: i128, n: i128, balance: i128) -> (result: i128)
    requires
        basis >= 0,
        0 < n <= balance,
    ensures
        result == slice(basis as int, n as int, balance as int),
        0 <= result <= basis,
{
    proof {
        lemma_slice(basis as int, n as int, balance as int);
        assert(basis * n >= 0) by (nonlinear_arith)
            requires
                basis >= 0,
                n > 0,
        ;
    }
    match wide::mul_div_ceil(env, basis, n, balance) {
        Some(part) => part,
        None => basis,
    }
}

impl YtToken {
    /// The ledgers, as a value.
    pub open spec fn ledgers(self) -> Ledgers {
        Ledgers {
            supply: self.supply as int,
            balances: self.balances@,
            total_basis: self.total_basis as int,
            basis: self.basis@,
            total_accrued: self.total_accrued as int,
            accrued: self.accrued@,
        }
    }

    /// What every operation keeps.
    pub open spec fn valid(self) -> bool {
        self.ledgers().valid()
    }

    pub fn new() -> (token: Self)
        ensures
            token.settings is None,
            token.ledgers() == (Ledgers {
                supply: 0,
                balances: Map::empty(),
                total_basis: 0,
                basis: Map::empty(),
                total_accrued: 0,
                accrued: Map::empty(),
            }),
            token.allowances@ == Map::<u128, AllowanceValue>::empty(),
            token.valid(),
            token.ledgers().unrecorded() == (0int, 0int, 0int),
    {
        proof {
            lemma_total_empty();
        }
        YtToken {
            settings: None,
            supply: 0,
            balances: Ledger::new(),
            allowances: AllowanceBook::new(),
            basis: Ledger::new(),
            accrued: Ledger::new(),
            total_basis: 0,
            total_accrued: 0,
        }
    }

    pub fn initialize(
        &mut self,
        now: u64,
        admin: u64,
        tokenizer: u64,
        sy_token: u64,
        maturity: u64,
    ) -> (result: Result<(), Error>)
        ensures
            result == (if old(self).settings is Some {
                Err::<(), Error>(Error::AlreadyInitialized)
            } else if maturity <= now {
                Err(Error::InvalidMaturity)
            } else {
                Ok(())
            }),
            final(self).settings == (if result is Ok {
                Some(Config { admin, tokenizer, sy_token, maturity })
            } else {
                old(self).settings
            }),
            final(self).ledgers() == old(self).ledgers(),
            final(self).allowances@ == old(self).allowances@,
    {
        if self.settings.is_some() {
            return Err(Error::AlreadyInitialized);
        }
        if maturity <= now {
            return Err(Error::InvalidMaturity);
        }
        self.settings = Some(Config { admin, tokenizer, sy_token, maturity });
        Ok(())
    }

    pub fn config(&self) -> (result: Result<Config, Error>)
        ensures
            result == (match self.settings {
                Some(config) => Ok::<Config, Error>(config),
                None => Err(Error::NotInitialized),
            }),
    {
        match self.settings {
            Some(config) => Ok(config),
            None => Err(Error::NotInitialized),
        }
    }

    pub fn maturity(&self) -> (result: Result<u64, Error>)
        ensures
            result == (match self.settings {
                Some(config) => Ok::<u64, Error>(config.maturity),
                None => Err(Error::NotInitialized),
            }),
    {
        let config: Config = self.config()?;
        Ok(config.maturity)
    }

    // -- yield accounting ---------------------------------------------------

    pub fn yield_basis(&self, holder: u64) -> (result: Result<i128, Error>)
        ensures
            result == (if self.settings is Some {
                Ok::<i128, Error>(amount(self.basis@, holder))
            } else {
                Err(Error::NotInitialized)
            }),
    {
        self.config()?;
        Ok(self.basis.get(holder))
    }

    pub fn total_yield_basis(&self) -> (result: Result<i128, Error>)
        ensures
            result == (if self.settings is Some {
                Ok::<i128, Error>(self.total_basis)
            } else {
                Err(Error::NotInitialized)
            }),
    {
        self.config()?;
        Ok(self.total_basis)
    }

    /// The rate a holder's basis stands for: the blended rate their position
    /// was last settled at, rounded up. Zero for a holder of nothing.
    pub fn checkpoint(&self, env: &Env, holder: u64) -> (result: Result<i128, Error>)
        ensures
            result == (if self.settings is None {
                Err::<i128, Error>(Error::NotInitialized)
            } else {
                let basis = amount(self.basis@, holder) as int;
                let balance = amount(self.balances@, holder) as int;
                if basis <= 0 || balance <= 0 {
                    Ok(0)
                } else if fits(ceil_div(balance * WAD, basis)) {
                    Ok(ceil_div(balance * WAD, basis) as i128)
                } else {
                    Err(Error::MathOverflow)
                }
            }),
    {
        self.config()?;
        let basis: i128 = self.basis.get(holder);
        let balance: i128 = self.balances.get(holder);
        if basis <= 0 || balance <= 0 {
            return Ok(0);
        }
        proof {
            assert(balance * WAD >= 0) by (nonlinear_arith)
                requires
                    balance >= 0,
            ;
        }
        match wide::mul_div_ceil(env, balance, WAD, basis) {
            Some(rate) => Ok(rate),
            None => Err(Error::MathOverflow),
        }
    }

    pub fn accrued_yield(&self, holder: u64) -> (result: Result<i128, Error>)
        ensures
            result == (if self.settings is Some {
                Ok::<i128, Error>(amount(self.accrued@, holder))
            } else {
                Err(Error::NotInitialized)
            }),
    {
        self.config()?;
        Ok(self.accrued.get(holder))
    }

    pub fn total_accrued_yield(&self) -> (result: Result<i128, Error>)
        ensures
            result == (if self.settings is Some {
                Ok::<i128, Error>(self.total_accrued)
            } else {
                Err(Error::NotInitialized)
            }),
    {
        self.config()?;
        Ok(self.total_accrued)
    }

    /// The rate a preview uses: the live rate before maturity, the frozen one
    /// after it, and the live one again where none is frozen yet.
    pub fn preview_rate(config: &Config, now: u64, live_rate: i128, frozen_rate: i128) -> (rate: i128)
        ensures
            rate == (if now < config.maturity || frozen_rate <= 0 {
                live_rate
            } else {
                frozen_rate
            }),
    {
        if now < config.maturity {
            return live_rate;
        }
        if frozen_rate > 0 {
            frozen_rate
        } else {
            live_rate
        }
    }

    /// Where the rate of a holder's own call comes from.
    pub fn committing_rate(config: &Config, now: u64) -> (source: RateSource)
        ensures
            source == (if now < config.maturity {
                RateSource::ObserveRate
            } else {
                RateSource::FreezeMaturityRate
            }),
    {
        if now < config.maturity {
            RateSource::ObserveRate
        } else {
            RateSource::FreezeMaturityRate
        }
    }

    /// SY shares a holder would bank if settled at `rate`, writing nothing.
    pub fn pending_yield(&self, env: &Env, holder: u64, rate: i128) -> (result: Result<i128, Error>)
        requires
            self.valid(),
        ensures
            result == pending(self.ledgers(), holder, rate as int),
    {
        let balance: i128 = self.balances.get(holder);
        if balance <= 0 {
            return Ok(0);
        }
        proof {
            lemma_total_bounds(self.basis@, holder, holder);
            if rate > 0 {
                lemma_shares_for(balance as int, rate as int, rate as int);
            }
        }
        let basis: i128 = self.basis.get(holder);
        let required: i128 = shares_for_face(env, balance, rate)?;
        if basis > required {
            Ok(basis - required)
        } else {
            Ok(0)
        }
    }

    /// SY shares claimable at a rate: what is banked, and what a settle would
    /// add.
    pub fn preview_claim_yield(&self, env: &Env, holder: u64, rate: i128) -> (result: Result<i128, Error>)
        requires
            self.valid(),
        ensures
            result == (if self.settings is None {
                Err::<i128, Error>(Error::NotInitialized)
            } else {
                match pending(self.ledgers(), holder, rate as int) {
                    Err(error) => Err(error),
                    Ok(pending) => if fits(amount(self.accrued@, holder) + pending) {
                        Ok((amount(self.accrued@, holder) + pending) as i128)
                    } else {
                        Err(Error::MathOverflow)
                    },
                }
            }),
    {
        self.config()?;
        let banked: i128 = self.accrued.get(holder);
        let pending: i128 = self.pending_yield(env, holder, rate)?;
        match banked.checked_add(pending) {
            Some(claimable) => Ok(claimable),
            None => Err(Error::MathOverflow),
        }
    }

    /// What a settle would bank for a holder, with `banked_total` already banked.
    fn settlement(&self, env: &Env, holder: u64, rate: i128, banked_total: i128) -> (result: Result<
        i128,
        Error,
    >)
        requires
            self.valid(),
            banked_total >= 0,
        ensures
            match owing(
                (Ledgers { total_accrued: banked_total as int, ..self.ledgers() }),
                holder,
                rate as int,
            ) {
                Ok(owed) => result == Ok::<i128, Error>(owed as i128) && 0 <= owed <= amount(
                    self.basis@,
                    holder,
                ) && owed + banked_total <= i128::MAX,
                Err(error) => result == Err::<i128, Error>(error),
            },
    {
        let balance: i128 = self.balances.get(holder);
        if balance <= 0 {
            proof {
                lemma_total_bounds(self.basis@, holder, holder);
            }
            return Ok(0);
        }
        proof {
            lemma_total_bounds(self.basis@, holder, holder);
            if rate > 0 {
                lemma_shares_for(balance as int, rate as int, rate as int);
            }
        }
        let basis: i128 = self.basis.get(holder);
        let required: i128 = shares_for_face(env, balance, rate)?;
        if basis <= required {
            return Ok(0);
        }
        let owed: i128 = basis - required;
        match banked_total.checked_add(owed) {
            Some(_) => Ok(owed),
            None => Err(Error::MathOverflow),
        }
    }

    /// Banks `owed` shares of a holder's basis.
    fn bank(&mut self, holder: u64, owed: i128)
        requires
            old(self).valid(),
            0 <= owed <= amount(old(self).basis@, holder),
            old(self).total_accrued + owed <= i128::MAX,
        ensures
            final(self).ledgers() == banked(old(self).ledgers(), holder, owed as int),
            final(self).settings == old(self).settings,
            final(self).allowances@ == old(self).allowances@,
            final(self).valid(),
            final(self).ledgers().unrecorded() == old(self).ledgers().unrecorded(),
    {
        if owed == 0 {
            return;
        }
        proof {
            lemma_total_bounds(self.accrued@, holder, holder);
            lemma_debited(self.basis@, holder, owed as int);
            lemma_credited(self.accrued@, holder, owed as int);
        }
        let basis: i128 = self.basis.get(holder);
        self.basis.set(holder, basis - owed);
        self.total_basis = self.total_basis - owed;
        let accrued: i128 = self.accrued.get(holder);
        self.accrued.set(holder, accrued + owed);
        self.total_accrued = self.total_accrued + owed;
    }

    /// Banks a holder's yield up to `rate` and re-strikes their basis at it.
    pub fn settle_into_ledger(&mut self, env: &Env, holder: u64, rate: i128) -> (result: Result<
        (),
        Error,
    >)
        requires
            old(self).valid(),
        ensures
            final(self).valid(),
            final(self).ledgers().unrecorded() == old(self).ledgers().unrecorded(),
            final(self).settings == old(self).settings,
            final(self).allowances@ == old(self).allowances@,
            match settling(old(self).ledgers(), holder, rate as int) {
                Ok(after) => result == Ok::<(), Error>(()) && final(self).ledgers() == after,
                Err(error) => result == Err::<(), Error>(error) && final(self).ledgers() == old(
                    self).ledgers(),
            },
    {
        proof {
            lemma_total_bounds(self.accrued@, holder, holder);
        }
        let owed: i128 = self.settlement(env, holder, rate, self.total_accrued)?;
        self.bank(holder, owed);
        Ok(())
    }

    /// Settles a holder at the tokenizer's rate and returns what they have
    /// banked, without taking it. The caller has established that the tokenizer
    /// asked.
    pub fn settle(&mut self, env: &Env, holder: u64, rate: i128) -> (result: Result<i128, Error>)
        requires
            old(self).valid(),
        ensures
            final(self).valid(),
            final(self).ledgers().unrecorded() == old(self).ledgers().unrecorded(),
            final(self).settings == old(self).settings,
            final(self).allowances@ == old(self).allowances@,
            result is Err ==> final(self).ledgers() == old(self).ledgers(),
            if old(self).settings is None {
                result == Err::<i128, Error>(Error::NotInitialized)
            } else {
                match settling(old(self).ledgers(), holder, rate as int) {
                    Ok(after) => result == Ok::<i128, Error>(amount(after.accrued, holder))
                        && final(self).ledgers() == after,
                    Err(error) => result == Err::<i128, Error>(error),
                }
            },
    {
        self.config()?;
        self.settle_into_ledger(env, holder, rate)?;
        Ok(self.accrued.get(holder))
    }

    /// Takes exactly `n` out of what a holder has banked. The caller has
    /// established that the tokenizer asked.
    pub fn consume(&mut self, holder: u64, n: i128) -> (result: Result<(), Error>)
        requires
            old(self).valid(),
        ensures
            final(self).valid(),
            final(self).ledgers().unrecorded() == old(self).ledgers().unrecorded(),
            final(self).settings == old(self).settings,
            final(self).allowances@ == old(self).allowances@,
            result == (if old(self).settings is None {
                Err::<(), Error>(Error::NotInitialized)
            } else if n < 0 {
                Err(Error::InvalidAmount)
            } else if n > amount(old(self).accrued@, holder) {
                Err(Error::ConsumeExceedsBanked)
            } else {
                Ok(())
            }),
            final(self).ledgers() == (if result is Ok && n > 0 {
                consumed(old(self).ledgers(), holder, n as int)
            } else {
                old(self).ledgers()
            }),
    {
        self.config()?;
        if n < 0 {
            return Err(Error::InvalidAmount);
        }
        let banked: i128 = self.accrued.get(holder);
        if n > banked {
            return Err(Error::ConsumeExceedsBanked);
        }
        if n > 0 {
            proof {
                lemma_debited(self.accrued@, holder, n as int);
            }
            self.accrued.set(holder, banked - n);
            self.total_accrued = self.total_accrued - n;
        }
        Ok(())
    }

    /// Mints YT at a rate. The recipient is settled first, and the new YT
    /// brings its own basis. The caller has established that the tokenizer
    /// asked.
    pub fn mint(&mut self, env: &Env, to: u64, n: i128, rate: i128) -> (result: Result<(), Error>)
        requires
            old(self).valid(),
        ensures
            final(self).valid(),
            final(self).ledgers().unrecorded() == old(self).ledgers().unrecorded(),
            final(self).settings == old(self).settings,
            final(self).allowances@ == old(self).allowances@,
            result is Err ==> final(self).ledgers() == old(self).ledgers(),
            if old(self).settings is None {
                result == Err::<(), Error>(Error::NotInitialized)
            } else if n <= 0 {
                result == Err::<(), Error>(Error::InvalidAmount)
            } else {
                match minting(old(self).ledgers(), to, n as int, rate as int) {
                    Ok(after) => result == Ok::<(), Error>(()) && final(self).ledgers() == after,
                    Err(error) => result == Err::<(), Error>(error),
                }
            },
    {
        self.config()?;
        if n <= 0 {
            return Err(Error::InvalidAmount);
        }
        proof {
            lemma_total_bounds(self.accrued@, to, to);
        }
        let owed: i128 = self.settlement(env, to, rate, self.total_accrued)?;
        let added: i128 = shares_for_face(env, n, rate)?;
        proof {
            lemma_shares_for(n as int, rate as int, rate as int);
            lemma_total_bounds(self.basis@, to, to);
            lemma_total_bounds(self.balances@, to, to);
        }
        let total_basis: i128 = match (self.total_basis - owed).checked_add(added) {
            Some(total_basis) => total_basis,
            None => {
                return Err(Error::MathOverflow);
            },
        };
        let supply: i128 = match self.supply.checked_add(n) {
            Some(supply) => supply,
            None => {
                return Err(Error::MathOverflow);
            },
        };
        self.bank(to, owed);
        proof {
            lemma_total_bounds(self.basis@, to, to);
            lemma_total_bounds(self.balances@, to, to);
            lemma_credited(self.balances@, to, n as int);
            lemma_credited(self.basis@, to, added as int);
        }
        let basis: i128 = self.basis.get(to);
        self.basis.set(to, basis + added);
        self.total_basis = total_basis;
        let balance: i128 = self.balances.get(to);
        self.balances.set(to, balance + n);
        self.supply = supply;
        Ok(())
    }

    // -- token interface ----------------------------------------------------

    pub fn balance(&self, id: u64) -> (held: i128)
        ensures
            held == amount(self.balances@, id),
    {
        self.balances.get(id)
    }

    pub fn total_supply(&self) -> (supply: i128)
        ensures
            supply == self.supply,
    {
        self.supply
    }

    pub fn decimals(&self) -> (decimals: u32)
        ensures
            decimals == 7,
    {
        DECIMALS
    }

    pub fn name(&self) -> (name: &'static str)
        ensures
            name@ == "Sidereal Yield Token"@,
    {
        "Sidereal Yield Token"
    }

    pub fn symbol(&self) -> (symbol: &'static str)
        ensures
            symbol@ == "sYT"@,
    {
        "sYT"
    }

    pub fn allowance(&self, ledger: u32, from: u64, spender: u64) -> (allowed: i128)
        ensures
            allowed == in_force(self.allowances@, ledger, from, spender).amount,
    {
        self.allowances.get(ledger, from, spender).amount
    }

    /// Sets an allowance. The caller has established that `from` asked.
    pub fn approve(
        &mut self,
        ledger: u32,
        from: u64,
        spender: u64,
        n: i128,
        expiration_ledger: u32,
    ) -> (result: Result<(), Error>)
        ensures
            result == (if n < 0 {
                Err::<(), Error>(Error::InvalidAmount)
            } else if n > 0 && expiration_ledger < ledger {
                Err(Error::InvalidExpiration)
            } else {
                Ok(())
            }),
            final(self).allowances@ == (if result is Ok {
                filed(
                    old(self).allowances@,
                    from,
                    spender,
                    AllowanceValue { amount: n, expiration_ledger },
                )
            } else {
                old(self).allowances@
            }),
            final(self).settings == old(self).settings,
            final(self).ledgers() == old(self).ledgers(),
    {
        if n < 0 {
            return Err(Error::InvalidAmount);
        }
        if n > 0 && expiration_ledger < ledger {
            return Err(Error::InvalidExpiration);
        }
        self.allowances.set(from, spender, AllowanceValue { amount: n, expiration_ledger });
        Ok(())
    }

    /// Moves `n` YT and the basis behind it between settled parties.
    fn move_position(&mut self, env: &Env, from: u64, to: u64, n: i128)
        requires
            old(self).valid(),
            0 < n <= amount(old(self).balances@, from),
        ensures
            final(self).valid(),
            final(self).ledgers().unrecorded() == old(self).ledgers().unrecorded(),
            final(self).settings == old(self).settings,
            final(self).allowances@ == old(self).allowances@,
            moving(old(self).ledgers(), from, to, n as int) == Ok::<Ledgers, Error>(
                final(self).ledgers(),
            ),
    {
        let ghost before: Ledgers = self.ledgers();
        proof {
            lemma_total_bounds(self.basis@, from, to);
            lemma_moving(before, from, to, n as int);
        }
        let from_balance: i128 = self.balances.get(from);
        let from_basis: i128 = self.basis.get(from);
        let moved: i128 = basis_slice(env, from_basis, n, from_balance);
        proof {
            lemma_shifted(self.basis@, from, to, moved as int);
            lemma_shifted(self.balances@, from, to, n as int);
        }
        self.basis.set(from, from_basis - moved);
        let to_basis: i128 = self.basis.get(to);
        self.basis.set(to, to_basis + moved);
        self.balances.set(from, from_balance - n);
        let to_balance: i128 = self.balances.get(to);
        self.balances.set(to, to_balance + n);
    }

    /// Settles both parties at one rate, then moves `n` YT.
    fn settle_and_move(&mut self, env: &Env, from: u64, to: u64, n: i128, rate: i128) -> (result: Result<
        (),
        Error,
    >)
        requires
            old(self).valid(),
            n > 0,
        ensures
            final(self).valid(),
            final(self).ledgers().unrecorded() == old(self).ledgers().unrecorded(),
            final(self).settings == old(self).settings,
            final(self).allowances@ == old(self).allowances@,
            match transferring(old(self).ledgers(), from, to, n as int, rate as int) {
                Ok(after) => result == Ok::<(), Error>(()) && final(self).ledgers() == after,
                Err(error) => result == Err::<(), Error>(error) && final(self).ledgers() == old(
                    self).ledgers(),
            },
    {
        proof {
            lemma_total_bounds(self.accrued@, from, to);
        }
        let owed_from: i128 = self.settlement(env, from, rate, self.total_accrued)?;
        proof {
            lemma_settling(self.ledgers(), from, rate as int);
            if from == to {
                law_settle_is_idempotent(self.ledgers(), from, rate as int);
            } else {
                lemma_settle_other(self.ledgers(), from, to, rate as int);
            }
        }
        let owed_to: i128 = if from == to {
            0
        } else {
            self.settlement(env, to, rate, self.total_accrued + owed_from)?
        };
        if self.balances.get(from) < n {
            return Err(Error::InsufficientBalance);
        }
        self.bank(from, owed_from);
        self.bank(to, owed_to);
        self.move_position(env, from, to, n);
        Ok(())
    }

    /// Moves YT. Both parties are settled first at one rate, so each banks what
    /// it earned on what it held. The caller has established that `from` asked.
    pub fn transfer(&mut self, env: &Env, from: u64, to: u64, n: i128, rate: i128) -> (result: Result<
        (),
        Error,
    >)
        requires
            old(self).valid(),
        ensures
            final(self).valid(),
            final(self).ledgers().unrecorded() == old(self).ledgers().unrecorded(),
            final(self).settings == old(self).settings,
            final(self).allowances@ == old(self).allowances@,
            result is Err ==> final(self).ledgers() == old(self).ledgers(),
            if n <= 0 {
                result == Err::<(), Error>(Error::InvalidAmount)
            } else if old(self).settings is None {
                result == Err::<(), Error>(Error::NotInitialized)
            } else {
                match transferring(old(self).ledgers(), from, to, n as int, rate as int) {
                    Ok(after) => result == Ok::<(), Error>(()) && final(self).ledgers() == after,
                    Err(error) => result == Err::<(), Error>(error),
                }
            },
    {
        if n <= 0 {
            return Err(Error::InvalidAmount);
        }
        self.config()?;
        self.settle_and_move(env, from, to, n, rate)
    }

    /// Moves YT out of an allowance. The caller has established that `spender`
    /// asked.
    pub fn transfer_from(
        &mut self,
        env: &Env,
        ledger: u32,
        spender: u64,
        from: u64,
        to: u64,
        n: i128,
        rate: i128,
    ) -> (result: Result<(), Error>)
        requires
            old(self).valid(),
        ensures
            final(self).valid(),
            final(self).ledgers().unrecorded() == old(self).ledgers().unrecorded(),
            final(self).settings == old(self).settings,
            result is Err ==> final(self).ledgers() == old(self).ledgers() && final(
                self).allowances@ == old(self).allowances@,
            result is Ok ==> final(self).allowances@ == spent(
                old(self).allowances@,
                ledger,
                from,
                spender,
                n as int,
            ),
            if n <= 0 {
                result == Err::<(), Error>(Error::InvalidAmount)
            } else if in_force(old(self).allowances@, ledger, from, spender).amount < n {
                result == Err::<(), Error>(Error::InsufficientAllowance)
            } else if old(self).settings is None {
                result == Err::<(), Error>(Error::NotInitialized)
            } else {
                match transferring(old(self).ledgers(), from, to, n as int, rate as int) {
                    Ok(after) => result == Ok::<(), Error>(()) && final(self).ledgers() == after,
                    Err(error) => result == Err::<(), Error>(error),
                }
            },
    {
        if n <= 0 {
            return Err(Error::InvalidAmount);
        }
        if self.allowance(ledger, from, spender) < n {
            return Err(Error::InsufficientAllowance);
        }
        self.config()?;
        self.settle_and_move(env, from, to, n, rate)?;
        self.allowances.spend(ledger, from, spender, n);
        Ok(())
    }

    /// Burns `n` YT of a settled holder and retires the basis behind it.
    fn burn_position(&mut self, env: &Env, from: u64, n: i128)
        requires
            old(self).valid(),
            0 < n <= amount(old(self).balances@, from),
        ensures
            final(self).valid(),
            final(self).ledgers().unrecorded() == old(self).ledgers().unrecorded(),
            final(self).settings == old(self).settings,
            final(self).allowances@ == old(self).allowances@,
            burning(old(self).ledgers(), from, n as int) == Ok::<Ledgers, Error>(
                final(self).ledgers(),
            ),
    {
        let ghost before: Ledgers = self.ledgers();
        proof {
            lemma_total_bounds(self.basis@, from, from);
            lemma_burning(before, from, n as int);
            lemma_debited(self.balances@, from, n as int);
        }
        let from_balance: i128 = self.balances.get(from);
        let from_basis: i128 = self.basis.get(from);
        let retired: i128 = basis_slice(env, from_basis, n, from_balance);
        proof {
            lemma_debited(self.basis@, from, retired as int);
        }
        self.basis.set(from, from_basis - retired);
        self.total_basis = self.total_basis - retired;
        self.balances.set(from, from_balance - n);
        self.supply = self.supply - n;
    }

    /// Settles a holder, then burns `n` of their YT.
    fn settle_and_burn(&mut self, env: &Env, from: u64, n: i128, rate: i128) -> (result: Result<
        (),
        Error,
    >)
        requires
            old(self).valid(),
            n > 0,
        ensures
            final(self).valid(),
            final(self).ledgers().unrecorded() == old(self).ledgers().unrecorded(),
            final(self).settings == old(self).settings,
            final(self).allowances@ == old(self).allowances@,
            match retiring(old(self).ledgers(), from, n as int, rate as int) {
                Ok(after) => result == Ok::<(), Error>(()) && final(self).ledgers() == after,
                Err(error) => result == Err::<(), Error>(error) && final(self).ledgers() == old(
                    self).ledgers(),
            },
    {
        proof {
            lemma_total_bounds(self.accrued@, from, from);
        }
        let owed: i128 = self.settlement(env, from, rate, self.total_accrued)?;
        if self.balances.get(from) < n {
            return Err(Error::InsufficientBalance);
        }
        self.bank(from, owed);
        self.burn_position(env, from, n);
        Ok(())
    }

    /// Burns YT on a holder's own call. The caller has established that `from`
    /// asked.
    pub fn burn(&mut self, env: &Env, from: u64, n: i128, rate: i128) -> (result: Result<(), Error>)
        requires
            old(self).valid(),
        ensures
            final(self).valid(),
            final(self).ledgers().unrecorded() == old(self).ledgers().unrecorded(),
            final(self).settings == old(self).settings,
            final(self).allowances@ == old(self).allowances@,
            result is Err ==> final(self).ledgers() == old(self).ledgers(),
            if n <= 0 {
                result == Err::<(), Error>(Error::InvalidAmount)
            } else if old(self).settings is None {
                result == Err::<(), Error>(Error::NotInitialized)
            } else {
                match retiring(old(self).ledgers(), from, n as int, rate as int) {
                    Ok(after) => result == Ok::<(), Error>(()) && final(self).ledgers() == after,
                    Err(error) => result == Err::<(), Error>(error),
                }
            },
    {
        if n <= 0 {
            return Err(Error::InvalidAmount);
        }
        self.config()?;
        self.settle_and_burn(env, from, n, rate)
    }

    /// Burns YT at the tokenizer's rate. The caller has established that the
    /// tokenizer asked.
    pub fn burn_settled(&mut self, env: &Env, from: u64, n: i128, rate: i128) -> (result: Result<
        (),
        Error,
    >)
        requires
            old(self).valid(),
        ensures
            final(self).valid(),
            final(self).ledgers().unrecorded() == old(self).ledgers().unrecorded(),
            final(self).settings == old(self).settings,
            final(self).allowances@ == old(self).allowances@,
            result is Err ==> final(self).ledgers() == old(self).ledgers(),
            if old(self).settings is None {
                result == Err::<(), Error>(Error::NotInitialized)
            } else if n <= 0 {
                result == Err::<(), Error>(Error::InvalidAmount)
            } else {
                match retiring(old(self).ledgers(), from, n as int, rate as int) {
                    Ok(after) => result == Ok::<(), Error>(()) && final(self).ledgers() == after,
                    Err(error) => result == Err::<(), Error>(error),
                }
            },
    {
        self.config()?;
        if n <= 0 {
            return Err(Error::InvalidAmount);
        }
        self.settle_and_burn(env, from, n, rate)
    }

    /// Burns YT out of an allowance. The caller has established that `spender`
    /// asked.
    pub fn burn_from(
        &mut self,
        env: &Env,
        ledger: u32,
        spender: u64,
        from: u64,
        n: i128,
        rate: i128,
    ) -> (result: Result<(), Error>)
        requires
            old(self).valid(),
        ensures
            final(self).valid(),
            final(self).ledgers().unrecorded() == old(self).ledgers().unrecorded(),
            final(self).settings == old(self).settings,
            result is Err ==> final(self).ledgers() == old(self).ledgers() && final(
                self).allowances@ == old(self).allowances@,
            result is Ok ==> final(self).allowances@ == spent(
                old(self).allowances@,
                ledger,
                from,
                spender,
                n as int,
            ),
            if n <= 0 {
                result == Err::<(), Error>(Error::InvalidAmount)
            } else if in_force(old(self).allowances@, ledger, from, spender).amount < n {
                result == Err::<(), Error>(Error::InsufficientAllowance)
            } else if old(self).settings is None {
                result == Err::<(), Error>(Error::NotInitialized)
            } else {
                match retiring(old(self).ledgers(), from, n as int, rate as int) {
                    Ok(after) => result == Ok::<(), Error>(()) && final(self).ledgers() == after,
                    Err(error) => result == Err::<(), Error>(error),
                }
            },
    {
        if n <= 0 {
            return Err(Error::InvalidAmount);
        }
        if self.allowance(ledger, from, spender) < n {
            return Err(Error::InsufficientAllowance);
        }
        self.config()?;
        self.settle_and_burn(env, from, n, rate)?;
        self.allowances.spend(ledger, from, spender, n);
        Ok(())
    }
}

/// What a settle at `rate` would add for a holder.
pub open spec fn pending(ledgers: Ledgers, holder: u64, rate: int) -> Result<i128, Error> {
    let balance = amount(ledgers.balances, holder) as int;
    let required = shares_for(balance, rate);
    if balance <= 0 {
        Ok(0)
    } else if rate <= 0 {
        Err(Error::InvalidExchangeRate)
    } else if !fits(required) {
        Err(Error::MathOverflow)
    } else {
        Ok(claim(amount(ledgers.basis, holder) as int, balance, rate) as i128)
    }
}

/// The ledgers once `n` of a holder's banked yield was taken.
pub open spec fn consumed(ledgers: Ledgers, holder: u64, n: int) -> Ledgers {
    Ledgers {
        accrued: debited(ledgers.accrued, holder, n),
        total_accrued: ledgers.total_accrued - n,
        ..ledgers
    }
}

/// The preview is the claim: what `preview_claim_yield` quotes at a rate is
/// what a settle at that rate leaves banked.
pub proof fn law_preview_is_settled(ledgers: Ledgers, holder: u64, rate: int)
    requires
        ledgers.valid(),
        settling(ledgers, holder, rate) is Ok,
    ensures
        pending(ledgers, holder, rate) is Ok,
        amount(settling(ledgers, holder, rate)->Ok_0.accrued, holder) == amount(
            ledgers.accrued,
            holder,
        ) + pending(ledgers, holder, rate)->Ok_0,
{
    lemma_settling(ledgers, holder, rate);
    lemma_total_bounds(ledgers.basis, holder, holder);
    lemma_total_bounds(ledgers.accrued, holder, holder);
    let balance: int = amount(ledgers.balances, holder) as int;
    if balance > 0 {
        lemma_shares_for(balance, rate, rate);
    }
}

/// A transfer to oneself settles and changes nothing else.
pub proof fn law_self_transfer_only_settles(ledgers: Ledgers, holder: u64, n: int, rate: int)
    requires
        ledgers.valid(),
        n > 0,
        transferring(ledgers, holder, holder, n, rate) is Ok,
    ensures
        ({
            let after = transferring(ledgers, holder, holder, n, rate)->Ok_0;
            let settled = settling(ledgers, holder, rate)->Ok_0;
            &&& amount(after.balances, holder) == amount(settled.balances, holder)
            &&& amount(after.basis, holder) == amount(settled.basis, holder)
            &&& after.accrued == settled.accrued
            &&& after.total_basis == settled.total_basis
            &&& after.total_accrued == settled.total_accrued
            &&& after.supply == settled.supply
        }),
{
    lemma_settling(ledgers, holder, rate);
    law_settle_is_idempotent(ledgers, holder, rate);
    let settled: Ledgers = settling(ledgers, holder, rate)->Ok_0;
    lemma_moving(settled, holder, holder, n);
    lemma_shifted(settled.balances, holder, holder, n);
    lemma_shifted(
        settled.basis,
        holder,
        holder,
        slice(amount(settled.basis, holder) as int, n, amount(settled.balances, holder) as int),
    );
}

/// A transfer moves claims between accounts and creates none: supply, basis and
/// banked yield are conserved in total.
pub proof fn law_transfer_conserves(ledgers: Ledgers, from: u64, to: u64, n: int, rate: int)
    requires
        ledgers.valid(),
        n > 0,
        transferring(ledgers, from, to, n, rate) is Ok,
    ensures
        ({
            let after = transferring(ledgers, from, to, n, rate)->Ok_0;
            &&& after.supply == ledgers.supply
            &&& after.total_basis + after.total_accrued == ledgers.total_basis + ledgers.total_accrued
            &&& after.total_accrued >= ledgers.total_accrued
        }),
{
    lemma_settling(ledgers, from, rate);
    let first: Ledgers = settling(ledgers, from, rate)->Ok_0;
    lemma_settling(first, to, rate);
    let second: Ledgers = settling(first, to, rate)->Ok_0;
    lemma_moving(second, from, to, n);
}

/// What a settle banks, where `required` is the SY that the holder's face needs
/// behind it at the rate, rounded up: all the basis above it, and nothing where
/// there is none. Basis turns into banked yield one for one, balances stay, and no
/// other holder is touched. It fails only where the rate is not positive or a
/// number is out of range, and never for a holder without YT. A preview shows the
/// same.
pub proof fn law_settle_terms(ledgers: Ledgers, holder: u64, rate: int, required: int, other: u64)
    requires
        ledgers.valid(),
        rate > 0 ==> (required - 1) * rate < amount(ledgers.balances, holder)
            * 1_000_000_000_000_000_000 <= required * rate,
    ensures
        ({
            let balance = amount(ledgers.balances, holder) as int;
            let basis = amount(ledgers.basis, holder) as int;
            let gain = if balance > 0 && basis > required {
                basis - required
            } else {
                0
            };
            let settled = settling(ledgers, holder, rate);
            &&& settled is Ok <==> balance == 0 || (rate > 0 && required <= i128::MAX
                && ledgers.total_accrued + gain <= i128::MAX)
            &&& settled matches Ok(after) ==> {
                &&& amount(after.accrued, holder) == amount(ledgers.accrued, holder) + gain
                &&& amount(after.basis, holder) == basis - gain
                &&& after.total_accrued == ledgers.total_accrued + gain
                &&& after.total_basis == ledgers.total_basis - gain
                &&& after.balances == ledgers.balances
                &&& after.supply == ledgers.supply
                &&& other != holder ==> amount(after.basis, other) == amount(ledgers.basis, other)
                    && amount(after.accrued, other) == amount(ledgers.accrued, other)
            }
            &&& pending(ledgers, holder, rate) is Ok <==> balance == 0 || (rate > 0 && required
                <= i128::MAX)
            &&& pending(ledgers, holder, rate) matches Ok(more) ==> more == gain
        }),
{
    let balance: int = amount(ledgers.balances, holder) as int;
    lemma_total_bounds(ledgers.balances, holder, holder);
    lemma_total_bounds(ledgers.basis, holder, holder);
    lemma_total_bounds(ledgers.accrued, holder, holder);
    if rate > 0 {
        lemma_ceil(balance * WAD, rate);
        let s: int = shares_for(balance, rate);
        assert(s == required) by (nonlinear_arith)
            requires
                rate > 0,
                (required - 1) * rate < balance * WAD <= required * rate,
                s * rate - rate < balance * WAD <= s * rate,
        ;
        lemma_shares_for(balance, rate, rate);
    }
    if settling(ledgers, holder, rate) is Ok {
        lemma_settling(ledgers, holder, rate);
    }
}

/// What a transfer does: it settles both parties at the rate, and then moves `n`
/// of the sender's YT and, rounded up, the part of the sender's settled basis that
/// stands behind it. What is banked stays with whoever banked it. It fails only
/// where a settle does or the sender has too little.
pub proof fn law_transfer_terms(
    ledgers: Ledgers,
    from: u64,
    to: u64,
    n: int,
    rate: int,
    moved: int,
    who: u64,
)
    requires
        ledgers.valid(),
        n > 0,
    ensures
        ({
            let first = settling(ledgers, from, rate)->Ok_0;
            let both = settling(first, to, rate)->Ok_0;
            let balance = amount(ledgers.balances, from) as int;
            let basis = amount(both.basis, from) as int;
            let result = transferring(ledgers, from, to, n, rate);
            &&& result is Ok <==> settling(ledgers, from, rate) is Ok && settling(
                first,
                to,
                rate,
            ) is Ok && balance >= n
            &&& result is Ok && (moved - 1) * balance < basis * n <= moved * balance ==> {
                let after = result->Ok_0;
                &&& amount(after.balances, who) == amount(ledgers.balances, who) + (if who == to {
                    n
                } else {
                    0
                }) - (if who == from {
                    n
                } else {
                    0
                })
                &&& amount(after.basis, who) == amount(both.basis, who) + (if who == to {
                    moved
                } else {
                    0
                }) - (if who == from {
                    moved
                } else {
                    0
                })
                &&& after.accrued == both.accrued
                &&& after.total_accrued == both.total_accrued
                &&& after.total_basis == both.total_basis
                &&& after.supply == ledgers.supply
            }
        }),
{
    let first: Ledgers = settling(ledgers, from, rate)->Ok_0;
    if settling(ledgers, from, rate) is Ok {
        lemma_settling(ledgers, from, rate);
        if settling(first, to, rate) is Ok {
            let both: Ledgers = settling(first, to, rate)->Ok_0;
            lemma_settling(first, to, rate);
            let balance: int = amount(ledgers.balances, from) as int;
            let basis: int = amount(both.basis, from) as int;
            if balance >= n && (moved - 1) * balance < basis * n <= moved * balance {
                lemma_moving(both, from, to, n);
                lemma_part_is_slice(basis, n, balance, moved);
                lemma_shifted(both.balances, from, to, n);
                lemma_shifted(both.basis, from, to, moved);
            }
        }
    }
}

proof fn lemma_part_is_slice(basis: int, n: int, balance: int, part: int)
    requires
        balance > 0,
        (part - 1) * balance < basis * n <= part * balance,
    ensures
        slice(basis, n, balance) == part,
{
    assert(balance * part - balance < basis * n <= balance * part) by (nonlinear_arith)
        requires
            (part - 1) * balance < basis * n <= part * balance,
    ;
    lemma_ceil_unique(basis * n, balance, part);
}

/// What a burn does: it settles the holder at the rate, and then takes `n` of
/// their YT off their balance and the supply, and, rounded up, the part of their
/// settled basis that stands behind it. What they banked stays. It fails only where
/// the settle does or the holder has too little.
pub proof fn law_burn_terms(
    ledgers: Ledgers,
    from: u64,
    n: int,
    rate: int,
    retired: int,
    who: u64,
)
    requires
        ledgers.valid(),
        n > 0,
    ensures
        ({
            let settled = settling(ledgers, from, rate)->Ok_0;
            let balance = amount(ledgers.balances, from) as int;
            let basis = amount(settled.basis, from) as int;
            let result = retiring(ledgers, from, n, rate);
            &&& result is Ok <==> settling(ledgers, from, rate) is Ok && balance >= n
            &&& result is Ok && (retired - 1) * balance < basis * n <= retired * balance ==> {
                let after = result->Ok_0;
                &&& amount(after.balances, who) == amount(ledgers.balances, who) - (if who
                    == from {
                    n
                } else {
                    0
                })
                &&& after.supply == ledgers.supply - n
                &&& amount(after.basis, who) == amount(settled.basis, who) - (if who == from {
                    retired
                } else {
                    0
                })
                &&& after.total_basis == settled.total_basis - retired
                &&& after.accrued == settled.accrued
                &&& after.total_accrued == settled.total_accrued
            }
        }),
{
    if settling(ledgers, from, rate) is Ok {
        let settled: Ledgers = settling(ledgers, from, rate)->Ok_0;
        lemma_settling(ledgers, from, rate);
        let balance: int = amount(ledgers.balances, from) as int;
        let basis: int = amount(settled.basis, from) as int;
        if balance >= n && (retired - 1) * balance < basis * n <= retired * balance {
            lemma_burning(settled, from, n);
            lemma_part_is_slice(basis, n, balance, retired);
        }
    }
}

/// What a mint does, where `added` is the SY that `n` needs behind it at the rate,
/// rounded up: it settles the recipient at the rate, and then adds `n` to their
/// balance and the supply, with `added` of basis. It fails only where the settle
/// does, the rate is not positive or a number is out of range.
pub proof fn law_mint_terms(ledgers: Ledgers, to: u64, n: int, rate: int, added: int, who: u64)
    requires
        ledgers.valid(),
        n > 0,
        rate > 0 ==> (added - 1) * rate < n * 1_000_000_000_000_000_000 <= added * rate,
    ensures
        ({
            let settled = settling(ledgers, to, rate)->Ok_0;
            let result = minting(ledgers, to, n, rate);
            &&& result is Ok <==> settling(ledgers, to, rate) is Ok && rate > 0
                && settled.total_basis + added <= i128::MAX && added <= i128::MAX && ledgers.supply
                + n <= i128::MAX
            &&& result matches Ok(after) ==> {
                &&& amount(after.balances, who) == amount(ledgers.balances, who) + (if who == to {
                    n
                } else {
                    0
                })
                &&& after.supply == ledgers.supply + n
                &&& amount(after.basis, who) == amount(settled.basis, who) + (if who == to {
                    added
                } else {
                    0
                })
                &&& after.total_basis == settled.total_basis + added
                &&& after.accrued == settled.accrued
                &&& after.total_accrued == settled.total_accrued
            }
        }),
{
    if settling(ledgers, to, rate) is Ok {
        let settled: Ledgers = settling(ledgers, to, rate)->Ok_0;
        lemma_settling(ledgers, to, rate);
        lemma_total_bounds(settled.balances, to, to);
        lemma_total_bounds(settled.basis, to, to);
        if rate > 0 {
            assert(rate * added - rate < n * WAD <= rate * added) by (nonlinear_arith)
                requires
                    (added - 1) * rate < n * WAD <= added * rate,
            ;
            lemma_ceil_unique(n * WAD, rate, added);
            lemma_shares_for(n, rate, rate);
        }
    }
}

/// Taking banked yield takes exactly that much off what the holder has banked and
/// off the total, and nothing else.
pub proof fn law_consume_terms(ledgers: Ledgers, holder: u64, n: int, who: u64)
    requires
        ledgers.valid(),
        0 <= n <= amount(ledgers.accrued, holder),
    ensures
        ({
            let after = consumed(ledgers, holder, n);
            &&& amount(after.accrued, who) == amount(ledgers.accrued, who) - (if who == holder {
                n
            } else {
                0
            })
            &&& after.total_accrued == ledgers.total_accrued - n
            &&& after.balances == ledgers.balances && after.supply == ledgers.supply
            &&& after.basis == ledgers.basis && after.total_basis == ledgers.total_basis
        }),
{
}

/// Why an operation on positions is refused: a rate that is not positive where
/// there is a position to settle, and fewer YT than asked for once the parties are
/// settled.
pub proof fn law_refusals(ledgers: Ledgers, from: u64, to: u64, n: int, rate: int)
    ensures
        ({
            let moved = transferring(ledgers, from, to, n, rate);
            let burned = retiring(ledgers, from, n, rate);
            let settled = settling(ledgers, from, rate);
            &&& amount(ledgers.balances, from) > 0 && rate <= 0 ==> {
                &&& settled is Err && settled->Err_0 == Error::InvalidExchangeRate
                &&& moved is Err && moved->Err_0 == Error::InvalidExchangeRate
                &&& burned is Err && burned->Err_0 == Error::InvalidExchangeRate
            }
            &&& settled is Ok && amount(ledgers.balances, from) < n ==> {
                &&& burned is Err && burned->Err_0 == Error::InsufficientBalance
                &&& settling(settled->Ok_0, to, rate) is Ok ==> moved is Err && moved->Err_0
                    == Error::InsufficientBalance
            }
        }),
{
}

} // verus!
