//! A ledger of signed amounts, one per account.

use std::collections::BTreeMap;
use vstd::prelude::*;

verus! {

broadcast use vstd::std_specs::btree::group_btree_axioms;

/// The amount recorded for an account: zero where nothing is.
pub open spec fn amount(entries: Map<u64, i128>, account: u64) -> i128 {
    if entries.contains_key(account) {
        entries[account]
    } else {
        0
    }
}

/// The sum of every recorded amount.
pub open spec fn total(entries: Map<u64, i128>) -> int
    decreases entries.dom().len(),
    when entries.dom().finite()
{
    if entries.dom().len() == 0 {
        0
    } else {
        let account = entries.dom().choose();
        entries[account] + total(entries.remove(account))
    }
}

/// Whether no recorded amount is negative.
pub open spec fn nonnegative(entries: Map<u64, i128>) -> bool {
    forall|account: u64| #[trigger] entries.contains_key(account) ==> entries[account] >= 0
}

/// Amounts by account. An account that was never written holds zero.
#[derive(Clone, Debug)]
pub struct Ledger {
    entries: BTreeMap<u64, i128>,
}

impl View for Ledger {
    type V = Map<u64, i128>;

    closed spec fn view(&self) -> Map<u64, i128> {
        self.entries@
    }
}

impl Ledger {
    pub fn new() -> (ledger: Self)
        ensures
            ledger@ == Map::<u64, i128>::empty(),
    {
        Ledger { entries: BTreeMap::new() }
    }

    pub fn get(&self, account: u64) -> (held: i128)
        ensures
            held == amount(self@, account),
    {
        match self.entries.get(&account) {
            Some(held) => *held,
            None => 0,
        }
    }

    pub fn set(&mut self, account: u64, held: i128)
        ensures
            final(self)@ == old(self)@.insert(account, held),
    {
        self.entries.insert(account, held);
    }
}

/// A ledger records finitely many accounts.
pub proof fn lemma_finite(ledger: Ledger)
    ensures
        ledger@.dom().finite(),
{
}

proof fn lemma_total_remove(entries: Map<u64, i128>, account: u64)
    requires
        entries.dom().finite(),
        entries.contains_key(account),
    ensures
        total(entries) == entries[account] + total(entries.remove(account)),
    decreases entries.dom().len(),
{
    let chosen = entries.dom().choose();
    if chosen != account {
        let rest = entries.remove(chosen);
        lemma_total_remove(rest, account);
        lemma_total_remove(entries.remove(account), chosen);
        assert(rest.remove(account) =~= entries.remove(account).remove(chosen));
    }
}

/// Writing one account moves the sum by the change to that account.
pub proof fn lemma_total_insert(entries: Map<u64, i128>, account: u64, held: i128)
    requires
        entries.dom().finite(),
    ensures
        entries.insert(account, held).dom().finite(),
        total(entries.insert(account, held)) == total(entries) - amount(entries, account) + held,
{
    let written = entries.insert(account, held);
    lemma_total_remove(written, account);
    assert(written.remove(account) =~= entries.remove(account));
    if entries.contains_key(account) {
        lemma_total_remove(entries, account);
    } else {
        assert(entries.remove(account) =~= entries);
    }
}

/// With nothing negative, no account holds more than the sum, and two accounts
/// hold no more than it together.
pub proof fn lemma_total_bounds(entries: Map<u64, i128>, a: u64, b: u64)
    requires
        entries.dom().finite(),
        nonnegative(entries),
    ensures
        0 <= amount(entries, a) <= total(entries),
        a != b ==> amount(entries, a) + amount(entries, b) <= total(entries),
    decreases entries.dom().len(),
{
    if entries.dom().len() > 0 {
        let chosen = entries.dom().choose();
        let rest = entries.remove(chosen);
        assert(entries.contains_key(chosen));
        assert forall|account: u64| #[trigger] rest.contains_key(account) implies rest[account]
            >= 0 by {
            assert(entries.contains_key(account));
        }
        lemma_total_bounds(rest, a, b);
        lemma_total_bounds(rest, b, a);
    } else {
        assert(entries.dom() =~= Set::empty());
    }
}

/// An empty ledger sums to zero.
pub proof fn lemma_total_empty()
    ensures
        total(Map::<u64, i128>::empty()) == 0,
        nonnegative(Map::<u64, i128>::empty()),
{
}

/// A ledger after `n` moved from one account to another.
pub open spec fn shifted(entries: Map<u64, i128>, from: u64, to: u64, n: int) -> Map<u64, i128> {
    let debited = entries.insert(from, (amount(entries, from) - n) as i128);
    debited.insert(to, (amount(debited, to) + n) as i128)
}

/// A ledger after `n` was taken out of an account.
pub open spec fn debited(entries: Map<u64, i128>, from: u64, n: int) -> Map<u64, i128> {
    entries.insert(from, (amount(entries, from) - n) as i128)
}

/// A ledger after `n` was put into an account.
pub open spec fn credited(entries: Map<u64, i128>, to: u64, n: int) -> Map<u64, i128> {
    entries.insert(to, (amount(entries, to) + n) as i128)
}

/// Whether a ledger is solvent against a supply: nothing negative, and no more
/// recorded than the supply holds.
pub open spec fn backed(entries: Map<u64, i128>, supply: int) -> bool {
    &&& entries.dom().finite()
    &&& nonnegative(entries)
    &&& total(entries) <= supply
}

/// Moving what an account has keeps the sum and every other account.
pub proof fn lemma_shifted(entries: Map<u64, i128>, from: u64, to: u64, n: int)
    requires
        entries.dom().finite(),
        nonnegative(entries),
        total(entries) <= i128::MAX,
        0 <= n <= amount(entries, from),
    ensures
        shifted(entries, from, to, n).dom().finite(),
        nonnegative(shifted(entries, from, to, n)),
        total(shifted(entries, from, to, n)) == total(entries),
        amount(debited(entries, from, n), to) + n <= i128::MAX,
        from != to ==> amount(shifted(entries, from, to, n), from) == amount(entries, from) - n,
        from != to ==> amount(shifted(entries, from, to, n), to) == amount(entries, to) + n,
        from == to ==> amount(shifted(entries, from, to, n), to) == amount(entries, to),
        forall|other: u64|
            other != from && other != to ==> #[trigger] amount(
                shifted(entries, from, to, n),
                other,
            ) == amount(entries, other),
{
    lemma_total_bounds(entries, from, to);
    lemma_total_bounds(entries, to, from);
    let reduced = debited(entries, from, n);
    lemma_total_insert(entries, from, (amount(entries, from) - n) as i128);
    lemma_total_insert(reduced, to, (amount(reduced, to) + n) as i128);
    let after = shifted(entries, from, to, n);
    assert forall|account: u64| #[trigger] after.contains_key(account) implies after[account] >= 0 by {
        if account != from && account != to {
            assert(entries.contains_key(account));
        }
    }
}

/// Taking out what an account has lowers the sum by that much.
pub proof fn lemma_debited(entries: Map<u64, i128>, from: u64, n: int)
    requires
        entries.dom().finite(),
        nonnegative(entries),
        0 <= n <= amount(entries, from),
    ensures
        debited(entries, from, n).dom().finite(),
        nonnegative(debited(entries, from, n)),
        total(debited(entries, from, n)) == total(entries) - n,
        amount(entries, from) <= total(entries),
{
    lemma_total_bounds(entries, from, from);
    lemma_total_insert(entries, from, (amount(entries, from) - n) as i128);
    let after = debited(entries, from, n);
    assert forall|account: u64| #[trigger] after.contains_key(account) implies after[account] >= 0 by {
        if account != from {
            assert(entries.contains_key(account));
        }
    }
}

/// Putting into an account raises the sum by that much.
pub proof fn lemma_credited(entries: Map<u64, i128>, to: u64, n: int)
    requires
        entries.dom().finite(),
        nonnegative(entries),
        0 <= n,
        amount(entries, to) + n <= i128::MAX,
    ensures
        credited(entries, to, n).dom().finite(),
        nonnegative(credited(entries, to, n)),
        total(credited(entries, to, n)) == total(entries) + n,
        amount(entries, to) <= total(entries),
{
    lemma_total_bounds(entries, to, to);
    lemma_total_insert(entries, to, (amount(entries, to) + n) as i128);
    let after = credited(entries, to, n);
    assert forall|account: u64| #[trigger] after.contains_key(account) implies after[account] >= 0 by {
        if account != to {
            assert(entries.contains_key(account));
        }
    }
}

/// What moving amounts does to each account: crediting adds to one account,
/// debiting takes from one, shifting does both by the same amount, and no other
/// account changes.
pub proof fn law_entries_move_by_the_amount(
    entries: Map<u64, i128>,
    from: u64,
    to: u64,
    n: int,
    who: u64,
)
    requires
        i128::MIN <= amount(entries, from) - n <= i128::MAX,
        i128::MIN <= amount(entries, to) + n <= i128::MAX,
    ensures
        amount(credited(entries, to, n), who) == amount(entries, who) + (if who == to {
            n
        } else {
            0
        }),
        amount(debited(entries, from, n), who) == amount(entries, who) - (if who == from {
            n
        } else {
            0
        }),
        amount(shifted(entries, from, to, n), who) == amount(entries, who) + (if who == to {
            n
        } else {
            0
        }) - (if who == from {
            n
        } else {
            0
        }),
{
}

} // verus!
