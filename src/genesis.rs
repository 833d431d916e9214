//! The starting state of a chain: an empty registry and a ledger with the
//! spendable balances of some accounts.
use vstd::prelude::*;

use crate::ledger::{Currency, MemoryLedger};
use crate::pallet::Module;
use crate::{AccountId, Balance};

verus! {

/// Collects the balances of the starting state, then builds it.
pub struct ExtBuilder {
    ledger: MemoryLedger,
}

impl Default for ExtBuilder {
    fn default() -> (r: Self)
        ensures
            r.wf(),
            forall|x: AccountId| r.free(x) == 0 && r.reserved(x) == 0,
    {
        ExtBuilder { ledger: MemoryLedger::new() }
    }
}

impl ExtBuilder {
    /// The spendable balance that `who` will start with.
    pub closed spec fn free(&self, who: AccountId) -> nat {
        self.ledger.free(who)
    }

    /// The reserved balance that `who` will start with.
    pub closed spec fn reserved(&self, who: AccountId) -> nat {
        self.ledger.reserved(who)
    }

    pub closed spec fn wf(&self) -> bool {
        self.ledger.wf()
    }

    /// Adds `amount` to the starting balance of `who`; left out where the
    /// account's balance would not fit.
    pub fn balance(self, who: AccountId, amount: Balance) -> (r: Self)
        requires
            self.wf(),
        ensures
            r.wf(),
            forall|x: AccountId| #[trigger] r.reserved(x) == self.reserved(x),
            forall|x: AccountId| #[trigger]
                r.free(x) == self.free(x) + (if x == who && self.free(who) + self.reserved(who)
                    + amount <= u64::MAX {
                    amount as int
                } else {
                    0
                }),
    {
        let mut ledger = self.ledger;
        let _ = ledger.deposit(who, amount);
        ExtBuilder { ledger }
    }

    /// The empty registry and the ledger with the collected balances.
    pub fn build(self) -> (r: (Module, MemoryLedger))
        requires
            self.wf(),
        ensures
            r.0.wf(),
            r.0.oracles() == Map::<(u64, u64), Seq<u8>>::empty(),
            r.0.answers() == Map::<(u64, u64), Seq<u8>>::empty(),
            r.0.stakes() == Map::<(u64, u64), Balance>::empty(),
            r.1.wf(),
            forall|x: AccountId| #[trigger] r.1.free(x) == self.free(x),
            forall|x: AccountId| #[trigger] r.1.reserved(x) == self.reserved(x),
    {
        (Module::new(), self.ledger)
    }
}

} // verus!
