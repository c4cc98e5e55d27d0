//! A register of transferable shares, with the underlying principal each holder
//! paid in. Principal follows the shares pro rata, so what a holder has accrued
//! reads right on both sides of a transfer.

use crate::allowance::AllowanceBook;
use crate::fixed::{fits, lemma_floor, lemma_floor_unique};
use crate::ledger::{
    amount, backed, credited, debited, lemma_credited, lemma_debited, lemma_shifted,
    lemma_total_bounds, lemma_total_empty, nonnegative, shifted, total, Ledger,
};
use crate::ratio::{law_reduction_only_helps, lemma_proportion, mul_div, scaled};
use vstd::prelude::*;

verus! {

/// How a movement of shares ended.
#[derive(Clone, Copy, Debug, PartialEq, Eq, Structural)]
pub enum Moved {
    Done,
    /// The holder has fewer shares than were asked for.
    Short,
    /// A sum or product is out of range.
    Overflow,
}

/// Shares issued, and by holder what is held and what was paid in.
#[derive(Clone, Debug)]
pub struct Shares {
    pub supply: i128,
    pub balances: Ledger,
    pub principals: Ledger,
    pub allowances: AllowanceBook,
}

/// Whether a ledger of principals is in order: finite, nothing negative.
pub open spec fn sound(principals: Map<u64, i128>) -> bool {
    principals.dom().finite() && nonnegative(principals)
}

/// The principal that goes with `n` of a holder's shares.
pub open spec fn carried(
    balances: Map<u64, i128>,
    principals: Map<u64, i128>,
    holder: u64,
    n: int,
) -> Option<i128> {
    scaled(amount(principals, holder) as int, n, amount(balances, holder) as int)
}

/// How a transfer of `n` shares ends.
pub open spec fn transfer_outcome(
    balances: Map<u64, i128>,
    principals: Map<u64, i128>,
    from: u64,
    to: u64,
    n: int,
) -> Moved {
    if amount(balances, from) < n {
        Moved::Short
    } else {
        match carried(balances, principals, from, n) {
            None => Moved::Overflow,
            Some(principal) => if fits(
                amount(debited(principals, from, principal as int), to) + principal,
            ) {
                Moved::Done
            } else {
                Moved::Overflow
            },
        }
    }
}

/// What a position is worth above what was paid in for it, where the value can
/// be computed.
pub open spec fn accrued_value(shares: int, rate: int, principal: int) -> Option<i128> {
    match scaled(shares, rate, 1_000_000_000_000_000_000) {
        Some(value) => Some(saturated(value - principal)),
        None => None,
    }
}

/// The nearest `i128`.
pub open spec fn saturated(value: int) -> i128 {
    if value > i128::MAX {
        i128::MAX
    } else if value < i128::MIN {
        i128::MIN
    } else {
        value as i128
    }
}

/// The principal that goes with some shares is part of what the holder paid in.
pub proof fn lemma_carried(balances: Map<u64, i128>, principals: Map<u64, i128>, holder: u64, n: int)
    requires
        sound(principals),
        0 <= n <= amount(balances, holder),
        amount(balances, holder) > 0,
        carried(balances, principals, holder, n) is Some,
    ensures
        0 <= carried(balances, principals, holder, n)->0 <= amount(principals, holder),
        carried(balances, principals, holder, n)->0 == amount(principals, holder) * n / amount(
            balances,
            holder,
        ) as int,
        n == amount(balances, holder) ==> carried(balances, principals, holder, n)->0 == amount(
            principals,
            holder,
        ),
{
    lemma_total_bounds(principals, holder, holder);
    lemma_proportion(amount(principals, holder) as int, n, amount(balances, holder) as int);
}

/// Moving principal keeps the ledger of principals in order, and its sum.
pub proof fn lemma_principal_shifted(principals: Map<u64, i128>, from: u64, to: u64, n: int)
    requires
        sound(principals),
        0 <= n <= amount(principals, from),
        fits(amount(debited(principals, from, n), to) + n),
    ensures
        sound(shifted(principals, from, to, n)),
        total(shifted(principals, from, to, n)) == total(principals),
        from != to ==> amount(shifted(principals, from, to, n), from) == amount(principals, from) - n,
        from != to ==> amount(shifted(principals, from, to, n), to) == amount(principals, to) + n,
        from == to ==> amount(shifted(principals, from, to, n), to) == amount(principals, to),
        forall|other: u64|
            other != from && other != to ==> #[trigger] amount(
                shifted(principals, from, to, n),
                other,
            ) == amount(principals, other),
{
    lemma_debited(principals, from, n);
    lemma_credited(debited(principals, from, n), to, n);
    assert(credited(debited(principals, from, n), to, n) == shifted(principals, from, to, n));
}

impl Shares {
    /// What every operation keeps: no balance and no principal is negative, and
    /// no more shares are held than were issued.
    pub open spec fn valid(self) -> bool {
        &&& backed(self.balances@, self.supply as int)
        &&& sound(self.principals@)
    }

    /// Issued shares that no recorded account holds.
    pub open spec fn unheld(self) -> int {
        self.supply - total(self.balances@)
    }

    pub fn new() -> (shares: Self)
        ensures
            shares.supply == 0,
            shares.balances@ == Map::<u64, i128>::empty(),
            shares.principals@ == Map::<u64, i128>::empty(),
            shares.allowances@ == Map::<u128, crate::allowance::AllowanceValue>::empty(),
            shares.valid(),
            shares.unheld() == 0,
    {
        proof {
            lemma_total_empty();
        }
        Shares {
            supply: 0,
            balances: Ledger::new(),
            principals: Ledger::new(),
            allowances: AllowanceBook::new(),
        }
    }

    /// The principal that goes with `n` of a holder's shares: nothing where the
    /// holder has none.
    pub fn principal_of(&self, holder: u64, n: i128) -> (result: Option<i128>)
        requires
            self.valid(),
        ensures
            result == (if amount(self.balances@, holder) == 0 {
                Some(0i128)
            } else {
                carried(self.balances@, self.principals@, holder, n as int)
            }),
    {
        let held: i128 = self.balances.get(holder);
        if held == 0 {
            return Some(0);
        }
        proof {
            lemma_total_bounds(self.balances@, holder, holder);
        }
        mul_div(self.principals.get(holder), n, held)
    }

    /// Moves shares and the principal that goes with them.
    pub fn transfer(&mut self, from: u64, to: u64, n: i128) -> (outcome: Moved)
        requires
            old(self).valid(),
            n > 0,
        ensures
            final(self).valid(),
            final(self).unheld() == old(self).unheld(),
            final(self).supply == old(self).supply,
            final(self).allowances@ == old(self).allowances@,
            outcome == transfer_outcome(
                old(self).balances@,
                old(self).principals@,
                from,
                to,
                n as int,
            ),
            outcome == Moved::Done ==> {
                &&& final(self).balances@ == shifted(old(self).balances@, from, to, n as int)
                &&& final(self).principals@ == shifted(
                    old(self).principals@,
                    from,
                    to,
                    carried(old(self).balances@, old(self).principals@, from, n as int)->0 as int,
                )
                &&& total(final(self).principals@) == total(old(self).principals@)
            },
            outcome != Moved::Done ==> final(self).balances@ == old(self).balances@ && final(self).principals@
                == old(self).principals@,
    {
        let from_shares: i128 = self.balances.get(from);
        if from_shares < n {
            return Moved::Short;
        }
        let moved: i128 = match self.principal_of(from, n) {
            Some(moved) => moved,
            None => {
                return Moved::Overflow;
            },
        };
        let from_principal: i128 = self.principals.get(from);
        proof {
            lemma_total_bounds(self.principals@, from, to);
            lemma_total_bounds(self.principals@, to, from);
            lemma_carried(self.balances@, self.principals@, from, n as int);
        }
        let to_before: i128 = if from == to {
            from_principal - moved
        } else {
            self.principals.get(to)
        };
        let to_principal: i128 = match to_before.checked_add(moved) {
            Some(to_principal) => to_principal,
            None => {
                return Moved::Overflow;
            },
        };
        proof {
            lemma_shifted(self.balances@, from, to, n as int);
            lemma_principal_shifted(self.principals@, from, to, moved as int);
        }
        self.balances.set(from, from_shares - n);
        self.principals.set(from, from_principal - moved);
        let to_shares: i128 = self.balances.get(to);
        self.balances.set(to, to_shares + n);
        self.principals.set(to, to_principal);
        Moved::Done
    }

    /// What a holder has accrued at a rate: the value of the shares less what
    /// was paid in for them.
    pub fn accrued(&self, holder: u64, rate: i128) -> (result: Option<i128>)
        requires
            self.valid(),
        ensures
            result == accrued_value(
                amount(self.balances@, holder) as int,
                rate as int,
                amount(self.principals@, holder) as int,
            ),
    {
        let value: i128 = mul_div(self.balances.get(holder), rate, 1_000_000_000_000_000_000)?;
        let principal: i128 = self.principals.get(holder);
        proof {
            lemma_total_bounds(self.principals@, holder, holder);
        }
        match value.checked_sub(principal) {
            Some(accrued) => Some(accrued),
            None => Some(i128::MIN),
        }
    }
}

/// A transfer neither makes nor destroys principal, moves no more of it than
/// the shares' part, and leaves the rounding with the sender.
pub proof fn law_principal_follows_shares(shares: Shares, from: u64, to: u64, n: int)
    requires
        shares.valid(),
        n > 0,
        transfer_outcome(shares.balances@, shares.principals@, from, to, n) == Moved::Done,
    ensures
        ({
            let moved = carried(shares.balances@, shares.principals@, from, n)->0 as int;
            let after = shifted(shares.principals@, from, to, moved);
            &&& total(after) == total(shares.principals@)
            &&& moved * amount(shares.balances@, from) <= amount(shares.principals@, from) * n
            &&& amount(shares.principals@, from) * n < (moved + 1) * amount(shares.balances@, from)
            &&& n == amount(shares.balances@, from) ==> moved == amount(shares.principals@, from)
        }),
{
    let moved = carried(shares.balances@, shares.principals@, from, n)->0 as int;
    lemma_carried(shares.balances@, shares.principals@, from, n);
    lemma_principal_shifted(shares.principals@, from, to, moved);
    let held = amount(shares.balances@, from) as int;
    lemma_floor(amount(shares.principals@, from) * n, held);
    assert((moved + 1) * held == moved * held + held) by (nonlinear_arith);
}

/// Parting a position keeps what has accrued on it, to the unit that rounding
/// the two values down may cost.
pub proof fn law_parted_position_keeps_its_yield(
    shares: int,
    part: int,
    principal: int,
    moved: int,
    rate: int,
)
    requires
        0 <= part <= shares <= i128::MAX,
        0 <= moved <= principal <= i128::MAX,
        0 <= rate,
        accrued_value(shares, rate, principal) is Some,
        accrued_value(part, rate, moved) is Some,
        accrued_value(shares - part, rate, principal - moved) is Some,
    ensures
        ({
            let whole = accrued_value(shares, rate, principal)->0;
            let parts = accrued_value(part, rate, moved)->0 + accrued_value(
                shares - part,
                rate,
                principal - moved,
            )->0;
            whole - 1 <= parts <= whole
        }),
{
    let w = 1_000_000_000_000_000_000int;
    let a = part * rate;
    let b = (shares - part) * rate;
    assert(a + b == shares * rate && a >= 0 && b >= 0) by (nonlinear_arith)
        requires
            a == part * rate,
            b == (shares - part) * rate,
            0 <= part <= shares,
            0 <= rate,
    ;
    assert((a + b) / w - 1 <= a / w + b / w <= (a + b) / w);
}

/// How a transfer ends. It is short exactly where the sender has fewer shares
/// than asked; otherwise it is done wherever the principal that goes with the
/// shares, `moved`, is the sender's part rounded down, its product is in range
/// and it fits with what the receiver has. Shares and principal then move by
/// exactly those amounts, and no other holder's do.
pub proof fn law_transfer_moves_shares_and_principal(
    shares: Shares,
    from: u64,
    to: u64,
    n: i128,
    moved: int,
    who: u64,
)
    requires
        shares.valid(),
        n > 0,
        moved * amount(shares.balances@, from) <= amount(shares.principals@, from) * n,
        amount(shares.principals@, from) * n < (moved + 1) * amount(shares.balances@, from),
        amount(shares.principals@, from) * n <= i128::MAX,
        from != to ==> amount(shares.principals@, to) + moved <= i128::MAX,
    ensures
        ({
            let outcome = transfer_outcome(
                shares.balances@,
                shares.principals@,
                from,
                to,
                n as int,
            );
            &&& outcome == (if amount(shares.balances@, from) < n {
                Moved::Short
            } else {
                Moved::Done
            })
            &&& outcome == Moved::Done ==> {
                &&& carried(shares.balances@, shares.principals@, from, n as int) == Some(
                    moved as i128,
                )
                &&& amount(shifted(shares.balances@, from, to, n as int), who) == amount(
                    shares.balances@,
                    who,
                ) + (if who == to {
                    n as int
                } else {
                    0
                }) - (if who == from {
                    n as int
                } else {
                    0
                })
                &&& amount(shifted(shares.principals@, from, to, moved), who) == amount(
                    shares.principals@,
                    who,
                ) + (if who == to {
                    moved
                } else {
                    0
                }) - (if who == from {
                    moved
                } else {
                    0
                })
            }
        }),
{
    lemma_total_bounds(shares.balances@, from, to);
    lemma_total_bounds(shares.balances@, to, from);
    lemma_total_bounds(shares.principals@, from, to);
    lemma_total_bounds(shares.principals@, to, from);
    let held = amount(shares.balances@, from) as int;
    let paid_in = amount(shares.principals@, from) as int;
    if held >= n {
        assert(paid_in * n >= 0) by (nonlinear_arith)
            requires
                paid_in >= 0,
                n > 0,
        ;
        law_reduction_only_helps(paid_in, n as int, held);
        lemma_carried(shares.balances@, shares.principals@, from, n as int);
        lemma_floor(paid_in * n, held);
        assert((moved + 1) * held == moved * held + held) by (nonlinear_arith);
        assert(held * moved == moved * held) by (nonlinear_arith);
        lemma_floor_unique(paid_in * n, held, moved);
        lemma_shifted(shares.balances@, from, to, n as int);
        lemma_principal_shifted(shares.principals@, from, to, moved);
    }
}

/// What a position has accrued is the value of its shares at the rate, rounded
/// down, less what was paid in for them.
pub proof fn law_accrued_is_value_above_principal(shares: int, rate: int, principal: int)
    requires
        0 <= shares,
        0 <= rate,
        0 <= principal <= i128::MAX,
    ensures
        accrued_value(shares, rate, principal) matches Some(accrued) ==> {
            let value = accrued + principal;
            value * 1_000_000_000_000_000_000 <= shares * rate < (value + 1)
                * 1_000_000_000_000_000_000
        },
        shares * rate <= i128::MAX ==> accrued_value(shares, rate, principal) is Some,
{
    assert(shares * rate >= 0) by (nonlinear_arith)
        requires
            shares >= 0,
            rate >= 0,
    ;
    lemma_floor(shares * rate, 1_000_000_000_000_000_000);
    if shares * rate <= i128::MAX {
        law_reduction_only_helps(shares, rate, 1_000_000_000_000_000_000);
    }
}

} // verus!
