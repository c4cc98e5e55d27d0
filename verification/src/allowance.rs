//! Spending allowances, by owner and spender, with an expiry.

use std::collections::BTreeMap;
use vstd::prelude::*;

verus! {

broadcast use vstd::std_specs::btree::group_btree_axioms;

/// What an owner lets a spender move, and the last ledger it is good for.
#[derive(Clone, Copy, Debug, PartialEq, Eq, Structural)]
pub struct AllowanceValue {
    pub amount: i128,
    pub expiration_ledger: u32,
}

/// The number an owner and a spender are filed under.
pub open spec fn pair(owner: u64, spender: u64) -> u128 {
    (owner * 0x1_0000_0000_0000_0000 + spender) as u128
}

/// The allowance on file: nothing where none was given.
pub open spec fn on_file(entries: Map<u128, AllowanceValue>, owner: u64, spender: u64) -> AllowanceValue {
    if entries.contains_key(pair(owner, spender)) {
        entries[pair(owner, spender)]
    } else {
        AllowanceValue { amount: 0, expiration_ledger: 0 }
    }
}

/// The allowance in force at a ledger: nothing once it has expired.
pub open spec fn in_force(
    entries: Map<u128, AllowanceValue>,
    ledger: u32,
    owner: u64,
    spender: u64,
) -> AllowanceValue {
    if entries.contains_key(pair(owner, spender)) && entries[pair(
        owner,
        spender,
    )].expiration_ledger >= ledger {
        entries[pair(owner, spender)]
    } else {
        AllowanceValue { amount: 0, expiration_ledger: 0 }
    }
}

/// The file after one allowance was written.
pub open spec fn filed(
    entries: Map<u128, AllowanceValue>,
    owner: u64,
    spender: u64,
    value: AllowanceValue,
) -> Map<u128, AllowanceValue> {
    entries.insert(pair(owner, spender), value)
}

/// The file after `n` of an allowance was spent.
pub open spec fn spent(
    entries: Map<u128, AllowanceValue>,
    ledger: u32,
    owner: u64,
    spender: u64,
    n: int,
) -> Map<u128, AllowanceValue> {
    let held = in_force(entries, ledger, owner, spender);
    filed(
        entries,
        owner,
        spender,
        AllowanceValue {
            amount: (held.amount - n) as i128,
            expiration_ledger: held.expiration_ledger,
        },
    )
}

/// Allowances by owner and spender.
#[derive(Clone, Debug)]
pub struct AllowanceBook {
    entries: BTreeMap<u128, AllowanceValue>,
}

impl View for AllowanceBook {
    type V = Map<u128, AllowanceValue>;

    closed spec fn view(&self) -> Map<u128, AllowanceValue> {
        self.entries@
    }
}

fn pair_key(owner: u64, spender: u64) -> (key: u128)
    ensures
        key == pair(owner, spender),
{
    owner as u128 * 0x1_0000_0000_0000_0000 + spender as u128
}

impl AllowanceBook {
    pub fn new() -> (book: Self)
        ensures
            book@ == Map::<u128, AllowanceValue>::empty(),
    {
        AllowanceBook { entries: BTreeMap::new() }
    }

    /// The allowance in force at a ledger.
    pub fn get(&self, ledger: u32, owner: u64, spender: u64) -> (held: AllowanceValue)
        ensures
            held == in_force(self@, ledger, owner, spender),
    {
        match self.entries.get(&pair_key(owner, spender)) {
            Some(held) if held.expiration_ledger >= ledger => *held,
            _ => AllowanceValue { amount: 0, expiration_ledger: 0 },
        }
    }

    pub fn set(&mut self, owner: u64, spender: u64, value: AllowanceValue)
        ensures
            final(self)@ == filed(old(self)@, owner, spender, value),
    {
        self.entries.insert(pair_key(owner, spender), value);
    }

    /// Spends `n` of the allowance in force, if it covers `n`.
    pub fn spend(&mut self, ledger: u32, owner: u64, spender: u64, n: i128) -> (covered: bool)
        requires
            n > 0,
        ensures
            covered == (in_force(old(self)@, ledger, owner, spender).amount >= n),
            final(self)@ == (if covered {
                spent(old(self)@, ledger, owner, spender, n as int)
            } else {
                old(self)@
            }),
    {
        let held: AllowanceValue = self.get(ledger, owner, spender);
        if held.amount < n {
            return false;
        }
        self.set(
            owner,
            spender,
            AllowanceValue { amount: held.amount - n, expiration_ledger: held.expiration_ledger },
        );
        true
    }
}

/// Writing one allowance leaves every other one alone.
pub proof fn law_allowances_are_separate(
    entries: Map<u128, AllowanceValue>,
    owner: u64,
    spender: u64,
    value: AllowanceValue,
    other_owner: u64,
    other_spender: u64,
)
    requires
        owner != other_owner || spender != other_spender,
    ensures
        on_file(filed(entries, owner, spender, value), owner, spender) == value,
        on_file(filed(entries, owner, spender, value), other_owner, other_spender) == on_file(
            entries,
            other_owner,
            other_spender,
        ),
{
    assert(pair(owner, spender) != pair(other_owner, other_spender));
}

/// What an allowance is good for. One that was just given is in force up to and
/// including its last ledger, and nothing after it. Spending takes exactly what
/// was spent off it and keeps its expiry. No other owner's or spender's allowance
/// changes.
pub proof fn law_allowance_is_what_was_given(
    entries: Map<u128, AllowanceValue>,
    owner: u64,
    spender: u64,
    value: AllowanceValue,
    ledger: u32,
    n: i128,
    other_owner: u64,
    other_spender: u64,
)
    ensures
        ({
            let given = filed(entries, owner, spender, value);
            let left = spent(given, ledger, owner, spender, n as int);
            &&& ledger <= value.expiration_ledger ==> in_force(given, ledger, owner, spender)
                == value
            &&& ledger > value.expiration_ledger ==> in_force(
                given,
                ledger,
                owner,
                spender,
            ).amount == 0
            &&& ledger <= value.expiration_ledger && 0 <= n <= value.amount ==> {
                &&& in_force(left, ledger, owner, spender).amount == value.amount - n
                &&& in_force(left, ledger, owner, spender).expiration_ledger
                    == value.expiration_ledger
            }
            &&& owner != other_owner || spender != other_spender ==> {
                &&& in_force(given, ledger, other_owner, other_spender) == in_force(
                    entries,
                    ledger,
                    other_owner,
                    other_spender,
                )
                &&& in_force(left, ledger, other_owner, other_spender) == in_force(
                    entries,
                    ledger,
                    other_owner,
                    other_spender,
                )
            }
            &&& in_force(Map::empty(), ledger, owner, spender).amount == 0
        }),
{
    if owner != other_owner || spender != other_spender {
        assert(pair(owner, spender) != pair(other_owner, other_spender));
    }
}

} // verus!
