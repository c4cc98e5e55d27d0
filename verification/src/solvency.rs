//! What holds across the tokenizer and the two tokens it mints: the escrow that
//! every principal token is redeemed from, and every claim on yield is paid
//! from, covers both.
//!
//! Principal is covered while the escrow, at the rate, is worth the face of all
//! principal tokens. Claims are covered while the escrow holds the shares that
//! the yield token's ledgers say stand behind its holders and are banked for
//! them.

use crate::fixed::{lemma_ceil, lemma_floor, quot, WAD};
use crate::ledger::{amount, debited, lemma_debited, lemma_total_bounds};
use crate::tokenizer::{
    law_principal_is_senior, law_redemption_is_fair, law_split_is_covered, payment, principal_for,
    principal_paid, scaled, MAX_YIELD_FEE_BPS,
};
use crate::yt_token::{
    lemma_burning, lemma_minting, lemma_moving, lemma_settling, lemma_slice, minting, retiring,
    settling, shares_for, slice, transferring, Ledgers,
};
use vstd::prelude::*;

verus! {

/// Whether the escrow, at a rate, is worth the face of every principal token.
pub open spec fn principal_covered(escrow: int, pt_supply: int, rate: int) -> bool {
    pt_supply * WAD <= escrow * rate
}

/// Whether the escrow holds every share that stands behind a yield token or is
/// banked for a holder.
pub open spec fn claims_covered(escrow: int, ledgers: Ledgers) -> bool {
    ledgers.total_basis + ledgers.total_accrued <= escrow
}

// ---------------------------------------------------------------------------
// Principal
// ---------------------------------------------------------------------------

/// A split keeps principal covered.
pub proof fn law_split_keeps_principal_covered(
    escrow: int,
    pt_supply: int,
    rate: int,
    sy_amount: int,
)
    requires
        principal_covered(escrow, pt_supply, rate),
        sy_amount > 0,
        rate > 0,
        scaled(sy_amount, rate, WAD as int) is Ok,
    ensures
        principal_covered(
            escrow + sy_amount,
            pt_supply + scaled(sy_amount, rate, WAD as int)->Ok_0,
            rate,
        ),
{
    law_split_is_covered(sy_amount, rate);
    let face = scaled(sy_amount, rate, WAD as int)->Ok_0 as int;
    assert((escrow + sy_amount) * rate == escrow * rate + sy_amount * rate && (pt_supply + face)
        * WAD == pt_supply * WAD + face * WAD) by (nonlinear_arith);
}

/// Taking principal out, by recombining or at maturity, keeps the rest covered.
pub proof fn law_redemption_keeps_principal_covered(
    escrow: int,
    pt_supply: int,
    rate: int,
    pt: int,
)
    requires
        principal_covered(escrow, pt_supply, rate),
        0 < pt <= pt_supply,
        rate > 0,
        escrow >= 0,
        principal_paid(pt, rate, escrow, pt_supply) is Ok,
    ensures
        principal_covered(
            escrow - principal_paid(pt, rate, escrow, pt_supply)->Ok_0,
            pt_supply - pt,
            rate,
        ),
{
    law_redemption_is_fair(pt, rate, escrow, pt_supply);
    let paid = principal_paid(pt, rate, escrow, pt_supply)->Ok_0 as int;
    assert((escrow - paid) * rate == escrow * rate - paid * rate && (pt_supply - pt) * WAD
        == pt_supply * WAD - pt * WAD) by (nonlinear_arith);
}

/// A claim on yield keeps principal covered.
pub proof fn law_claim_keeps_principal_covered(
    fee_bps: int,
    escrow: int,
    pt_supply: int,
    rate: int,
    owed: int,
)
    requires
        principal_covered(escrow, pt_supply, rate),
        0 <= fee_bps <= MAX_YIELD_FEE_BPS,
        rate > 0,
        0 <= owed <= i128::MAX,
        0 <= escrow <= i128::MAX,
        pt_supply >= 0,
        payment(fee_bps, rate, owed, escrow, pt_supply) is Ok,
    ensures
        principal_covered(
            escrow - payment(fee_bps, rate, owed, escrow, pt_supply)->Ok_0.pay,
            pt_supply,
            rate,
        ),
{
    law_principal_is_senior(fee_bps, rate, owed, escrow, pt_supply);
}

/// A rate that does not fall keeps principal covered.
pub proof fn law_rising_rate_keeps_principal_covered(
    escrow: int,
    pt_supply: int,
    rate: int,
    later: int,
)
    requires
        principal_covered(escrow, pt_supply, rate),
        escrow >= 0,
        rate <= later,
    ensures
        principal_covered(escrow, pt_supply, later),
{
    assert(escrow * rate <= escrow * later) by (nonlinear_arith)
        requires
            escrow >= 0,
            rate <= later,
    ;
}

/// While principal is covered, every principal token redeems at its full face:
/// the share of the escrow that would stand in for it is never the smaller.
pub proof fn law_covered_principal_is_paid_in_full(escrow: int, pt_supply: int, rate: int, pt: int)
    requires
        principal_covered(escrow, pt_supply, rate),
        0 < pt <= pt_supply,
        rate > 0,
        escrow >= 0,
        principal_for(pt, rate, escrow, pt_supply) is Ok,
    ensures
        principal_for(pt, rate, escrow, pt_supply)->Ok_0 == quot(pt * WAD, rate),
        quot(pt * WAD, rate) == pt * WAD / rate,
{
    let a = pt * WAD;
    let b = escrow * pt;
    assert(a >= 0 && b >= 0) by (nonlinear_arith)
        requires
            a == pt * 1_000_000_000_000_000_000,
            b == escrow * pt,
            pt > 0,
            escrow >= 0,
    ;
    lemma_floor(a, rate);
    lemma_floor(b, pt_supply);
    let full = a / rate;
    let pro_rata = b / pt_supply;
    // full * rate <= pt * WAD, and pt_supply * WAD <= escrow * rate, so
    // full * pt_supply <= escrow * pt.
    assert(full * pt_supply * rate <= pt * WAD * pt_supply) by (nonlinear_arith)
        requires
            rate * full <= pt * WAD,
            pt_supply > 0,
    ;
    assert(pt * WAD * pt_supply <= escrow * pt * rate) by (nonlinear_arith)
        requires
            pt_supply * WAD <= escrow * rate,
            pt > 0,
    ;
    assert(full * pt_supply <= b) by (nonlinear_arith)
        requires
            full * pt_supply * rate <= b * rate,
            rate > 0,
    ;
    assert(full <= pro_rata) by (nonlinear_arith)
        requires
            full * pt_supply <= b,
            b < pt_supply * pro_rata + pt_supply,
            pt_supply > 0,
    ;
}

// ---------------------------------------------------------------------------
// Claims
// ---------------------------------------------------------------------------

/// A split keeps claims covered: the basis it mints is at most the SY it
/// escrows.
pub proof fn law_split_keeps_claims_covered(
    escrow: int,
    ledgers: Ledgers,
    to: u64,
    sy_amount: int,
    rate: int,
)
    requires
        claims_covered(escrow, ledgers),
        ledgers.valid(),
        sy_amount > 0,
        rate > 0,
        scaled(sy_amount, rate, WAD as int) is Ok,
        scaled(sy_amount, rate, WAD as int)->Ok_0 > 0,
        minting(ledgers, to, scaled(sy_amount, rate, WAD as int)->Ok_0 as int, rate) is Ok,
    ensures
        claims_covered(
            escrow + sy_amount,
            minting(ledgers, to, scaled(sy_amount, rate, WAD as int)->Ok_0 as int, rate)->Ok_0,
        ),
{
    let face = scaled(sy_amount, rate, WAD as int)->Ok_0 as int;
    law_split_is_covered(sy_amount, rate);
    lemma_minting(ledgers, to, face, rate);
}

/// Settling a holder keeps claims covered: what is banked comes out of the
/// basis, share for share.
pub proof fn law_settle_keeps_claims_covered(escrow: int, ledgers: Ledgers, holder: u64, rate: int)
    requires
        claims_covered(escrow, ledgers),
        ledgers.valid(),
        settling(ledgers, holder, rate) is Ok,
    ensures
        claims_covered(escrow, settling(ledgers, holder, rate)->Ok_0),
{
    lemma_settling(ledgers, holder, rate);
}

/// Moving yield tokens keeps claims covered.
pub proof fn law_transfer_keeps_claims_covered(
    escrow: int,
    ledgers: Ledgers,
    from: u64,
    to: u64,
    n: int,
    rate: int,
)
    requires
        claims_covered(escrow, ledgers),
        ledgers.valid(),
        n > 0,
        transferring(ledgers, from, to, n, rate) is Ok,
    ensures
        claims_covered(escrow, transferring(ledgers, from, to, n, rate)->Ok_0),
{
    let first = settling(ledgers, from, rate)->Ok_0;
    lemma_settling(ledgers, from, rate);
    let second = settling(first, to, rate)->Ok_0;
    lemma_settling(first, to, rate);
    lemma_moving(second, from, to, n);
}

/// Paying a claim keeps claims covered: the escrow and the holder's banked yield
/// fall by the same shares.
pub proof fn law_claim_keeps_claims_covered(
    escrow: int,
    ledgers: Ledgers,
    holder: u64,
    fee_bps: int,
    rate: int,
    pt_supply: int,
)
    requires
        claims_covered(escrow, ledgers),
        ledgers.valid(),
        0 <= fee_bps <= MAX_YIELD_FEE_BPS,
        rate > 0,
        escrow <= i128::MAX,
        pt_supply >= 0,
        payment(fee_bps, rate, amount(ledgers.accrued, holder) as int, escrow, pt_supply) is Ok,
    ensures
        ({
            let pay = payment(
                fee_bps,
                rate,
                amount(ledgers.accrued, holder) as int,
                escrow,
                pt_supply,
            )->Ok_0.pay as int;
            let after = Ledgers {
                accrued: debited(ledgers.accrued, holder, pay),
                total_accrued: ledgers.total_accrued - pay,
                ..ledgers
            };
            &&& 0 <= pay <= amount(ledgers.accrued, holder)
            &&& after.valid()
            &&& claims_covered(escrow - pay, after)
        }),
{
    let owed = amount(ledgers.accrued, holder) as int;
    lemma_total_bounds(ledgers.accrued, holder, holder);
    lemma_total_bounds(ledgers.basis, holder, holder);
    law_principal_is_senior(fee_bps, rate, owed, escrow, pt_supply);
    let pay = payment(fee_bps, rate, owed, escrow, pt_supply)->Ok_0.pay as int;
    lemma_debited(ledgers.accrued, holder, pay);
}

/// Recombining keeps claims covered where the holder's basis is at least what
/// their face needs at the rate: the basis retired is at least the SY paid.
pub proof fn law_recombine_keeps_claims_covered(
    escrow: int,
    ledgers: Ledgers,
    holder: u64,
    n: int,
    rate: int,
    pt_supply: int,
)
    requires
        claims_covered(escrow, ledgers),
        ledgers.valid(),
        rate > 0,
        0 < n <= amount(ledgers.balances, holder),
        n <= pt_supply,
        retiring(ledgers, holder, n, rate) is Ok,
        shares_for(amount(ledgers.balances, holder) as int, rate) <= amount(ledgers.basis, holder),
        principal_paid(n, rate, escrow, pt_supply) is Ok,
    ensures
        claims_covered(
            escrow - principal_paid(n, rate, escrow, pt_supply)->Ok_0,
            retiring(ledgers, holder, n, rate)->Ok_0,
        ),
{
    let settled = settling(ledgers, holder, rate)->Ok_0;
    lemma_settling(ledgers, holder, rate);
    lemma_burning(settled, holder, n);
    lemma_total_bounds(ledgers.basis, holder, holder);
    lemma_total_bounds(ledgers.accrued, holder, holder);
    let balance = amount(ledgers.balances, holder) as int;
    let basis = amount(settled.basis, holder) as int;
    let required = shares_for(balance, rate);
    lemma_ceil(balance * WAD, rate);
    assert(basis == required);
    let retired = slice(basis, n, balance);
    lemma_slice(basis, n, balance);
    law_redemption_is_fair(n, rate, escrow, pt_supply);
    let paid = principal_paid(n, rate, escrow, pt_supply)->Ok_0 as int;
    // retired * balance >= basis * n, and basis * rate >= balance * WAD, so
    // retired * rate >= n * WAD >= paid * rate.
    assert(retired * balance * rate >= basis * n * rate) by (nonlinear_arith)
        requires
            retired * balance >= basis * n,
            rate > 0,
    ;
    assert(basis * n * rate >= balance * (n * WAD)) by (nonlinear_arith)
        requires
            balance * WAD <= rate * basis,
            n > 0,
    ;
    assert(retired * rate >= n * WAD) by (nonlinear_arith)
        requires
            retired * balance * rate >= balance * (n * WAD),
            balance > 0,
    ;
    assert(paid <= retired) by (nonlinear_arith)
        requires
            paid * rate <= retired * rate,
            rate > 0,
    ;
}

} // verus!
