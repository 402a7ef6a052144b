//! The value-transfer collaborator, modelled as an explicit in-memory
//! ledger of account balances. Every transfer is atomic: it either moves
//! the full amount or fails and leaves the ledger unchanged.

use vstd::prelude::*;

use crate::types::Error;
use crate::umap::UMap;

verus! {

/// The balance an account holds under a balance map; absent accounts
/// hold zero.
pub open spec fn bal_of(m: Map<u64, u128>, a: u64) -> u128 {
    if m.contains_key(a) {
        m[a]
    } else {
        0u128
    }
}

/// What a transfer does to a balance map: it fails with `FundsUnavailable`
/// when the source holds less than the amount, fails with
/// `ArithmeticOverflow` when the destination balance cannot take the
/// amount, and otherwise moves the amount in full.
pub open spec fn spec_transfer(m: Map<u64, u128>, from: u64, to: u64, amount: u128) -> Result<
    Map<u64, u128>,
    Error,
> {
    if bal_of(m, from) < amount {
        Err(Error::FundsUnavailable)
    } else if from == to {
        Ok(m)
    } else if bal_of(m, to) > u128::MAX - amount {
        Err(Error::ArithmeticOverflow)
    } else {
        Ok(
            m.insert(from, (bal_of(m, from) - amount) as u128).insert(
                to,
                (bal_of(m, to) + amount) as u128,
            ),
        )
    }
}

/// An in-memory ledger of account balances.
pub struct Ledger {
    balances: UMap<u128>,
}

impl View for Ledger {
    type V = Map<u64, u128>;

    closed spec fn view(&self) -> Map<u64, u128> {
        self.balances@
    }
}

impl Ledger {
    /// The balance table holds each account at most once.
    pub closed spec fn wf(&self) -> bool {
        self.balances.wf()
    }

    /// An empty ledger: every account holds zero.
    pub fn new() -> (r: Self)
        ensures
            r@ == Map::<u64, u128>::empty(),
            r.wf(),
    {
        Ledger { balances: UMap::new() }
    }

    /// The free balance of an account.
    pub fn free_balance(&self, who: u64) -> (r: u128)
        requires
            self.wf(),
        ensures
            r == bal_of(self@, who),
    {
        match self.balances.get(who) {
            Some(b) => b,
            None => 0,
        }
    }

    /// Sets the balance of an account outright.
    pub fn set_balance(&mut self, who: u64, amount: u128)
        requires
            old(self).wf(),
        ensures
            final(self)@ == old(self)@.insert(who, amount),
            final(self).wf(),
    {
        self.balances.insert(who, amount);
    }

    /// Creates new funds in an account. Fails with `ArithmeticOverflow`
    /// when the balance cannot take the amount; the ledger is then
    /// unchanged.
    pub fn mint_into(&mut self, who: u64, amount: u128) -> (r: Result<(), Error>)
        requires
            old(self).wf(),
        ensures
            final(self).wf(),
            match r {
                Ok(()) => bal_of(old(self)@, who) <= u128::MAX - amount && final(self)@ == old(
                    self,
                )@.insert(who, (bal_of(old(self)@, who) + amount) as u128),
                Err(e) => e == Error::ArithmeticOverflow && bal_of(old(self)@, who) > u128::MAX
                    - amount && final(self)@ == old(self)@,
            },
    {
        let b = self.free_balance(who);
        if b > u128::MAX - amount {
            return Err(Error::ArithmeticOverflow);
        }
        self.balances.insert(who, b + amount);
        Ok(())
    }

    /// Moves an amount between two accounts, atomically; on failure the
    /// ledger is unchanged.
    pub fn transfer(&mut self, from: u64, to: u64, amount: u128) -> (r: Result<(), Error>)
        requires
            old(self).wf(),
        ensures
            final(self).wf(),
            match r {
                Ok(()) => spec_transfer(old(self)@, from, to, amount) == Ok::<_, Error>(
                    final(self)@,
                ),
                Err(e) => spec_transfer(old(self)@, from, to, amount) == Err::<Map<u64, u128>, _>(
                    e,
                ) && final(self)@ == old(self)@,
            },
    {
        let from_bal = self.free_balance(from);
        if from_bal < amount {
            return Err(Error::FundsUnavailable);
        }
        if from == to {
            return Ok(());
        }
        let to_bal = self.free_balance(to);
        if to_bal > u128::MAX - amount {
            return Err(Error::ArithmeticOverflow);
        }
        self.balances.insert(from, from_bal - amount);
        self.balances.insert(to, to_bal + amount);
        Ok(())
    }

    /// An independent copy with the same balances.
    pub fn snapshot(&self) -> (r: Self)
        requires
            self.wf(),
        ensures
            r@ == self@,
            r.wf(),
    {
        Ledger { balances: self.balances.snapshot() }
    }
}

} // verus!
