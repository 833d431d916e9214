//! The currency that stakes and fees are paid in: spendable and reserved
//! balances per account.  The registry reaches it only through `Currency`.
use vstd::prelude::*;

use crate::{AccountId, Balance};
use std::collections::HashMap;

verus! {

broadcast use vstd::std_specs::hash::group_hash_axioms;

/// Why the currency refused an operation.
#[derive(Clone, Copy, Debug, PartialEq, Eq, Structural)]
pub enum LedgerError {
    /// The spendable balance does not cover the amount.
    InsufficientBalance,
    /// The receiving account's balance would not fit.
    Overflow,
}

/// Balances of accounts that can be moved between accounts, and reserved
/// (locked in place) and released again.
pub trait Currency: Sized {
    /// The spendable balance of `who`.
    spec fn free(&self, who: AccountId) -> nat;

    /// The reserved balance of `who`.
    spec fn reserved(&self, who: AccountId) -> nat;

    /// The implementation's own invariant.
    spec fn wf(&self) -> bool;

    /// The currency accepts to move `amount` from `from` to `to`.
    spec fn can_transfer(&self, from: AccountId, to: AccountId, amount: Balance) -> bool;

    /// The currency accepts to reserve `amount` of `who`'s balance.
    spec fn can_reserve(&self, who: AccountId, amount: Balance) -> bool;

    fn free_balance(&self, who: AccountId) -> (r: Balance)
        requires
            self.wf(),
        ensures
            r == self.free(who),
    ;

    fn reserved_balance(&self, who: AccountId) -> (r: Balance)
        requires
            self.wf(),
        ensures
            r == self.reserved(who),
    ;

    /// Moves `amount` of spendable balance from `from` to `to`.  A refusal
    /// changes nothing.
    fn transfer(&mut self, from: AccountId, to: AccountId, amount: Balance) -> (r: Result<
        (),
        LedgerError,
    >)
        requires
            old(self).wf(),
        ensures
            final(self).wf(),
            r is Ok <==> old(self).can_transfer(from, to, amount),
            r is Ok ==> amount <= old(self).free(from),
            r is Ok ==> forall|x: AccountId| #[trigger]
                final(self).free(x) == old(self).free(x) - (if x == from {
                    amount as int
                } else {
                    0
                }) + (if x == to {
                    amount as int
                } else {
                    0
                }),
            r is Ok ==> forall|x: AccountId| #[trigger]
                final(self).reserved(x) == old(self).reserved(x),
            r is Err ==> *final(self) == *old(self),
    ;

    /// Moves `amount` of `who`'s spendable balance to its reserved balance.  A
    /// refusal changes nothing.
    fn reserve(&mut self, who: AccountId, amount: Balance) -> (r: Result<(), LedgerError>)
        requires
            old(self).wf(),
        ensures
            final(self).wf(),
            r is Ok <==> old(self).can_reserve(who, amount),
            r is Ok ==> amount <= old(self).free(who),
            r is Ok ==> forall|x: AccountId| #[trigger]
                final(self).free(x) == old(self).free(x) - (if x == who {
                    amount as int
                } else {
                    0
                }),
            r is Ok ==> forall|x: AccountId| #[trigger]
                final(self).reserved(x) == old(self).reserved(x) + (if x == who {
                    amount as int
                } else {
                    0
                }),
            r is Err ==> *final(self) == *old(self),
    ;

    /// Moves up to `amount` of `who`'s reserved balance back to its spendable
    /// balance: all of it, or all that is reserved.  Returns the part of
    /// `amount` that was not reserved.
    fn unreserve(&mut self, who: AccountId, amount: Balance) -> (r: Balance)
        requires
            old(self).wf(),
        ensures
            final(self).wf(),
            r == amount - (if amount <= old(self).reserved(who) {
                amount as int
            } else {
                old(self).reserved(who) as int
            }),
            forall|x: AccountId| #[trigger]
                final(self).free(x) == old(self).free(x) + (if x == who {
                    amount - r
                } else {
                    0
                }),
            forall|x: AccountId| #[trigger]
                final(self).reserved(x) == old(self).reserved(x) - (if x == who {
                    amount - r
                } else {
                    0
                }),
    ;
}

/// What an unreserve of `amount` releases: all of it, or all that is reserved.
pub open spec fn released<C: Currency>(c: C, who: AccountId, amount: nat) -> nat {
    if amount <= c.reserved(who) {
        amount
    } else {
        c.reserved(who)
    }
}

/// `after` is `before` with `amount` of spendable balance moved from `from` to
/// `to`; reserved balances stay.
pub open spec fn transferred<C: Currency>(
    before: C,
    after: C,
    from: AccountId,
    to: AccountId,
    amount: nat,
) -> bool {
    &&& forall|x: AccountId| #[trigger]
        after.free(x) == before.free(x) - (if x == from {
            amount as int
        } else {
            0
        }) + (if x == to {
            amount as int
        } else {
            0
        })
    &&& forall|x: AccountId| #[trigger] after.reserved(x) == before.reserved(x)
}

/// `after` is `before` with `delta` moved from `who`'s spendable balance to
/// its reserved balance (back, where `delta` is negative).
pub open spec fn shifted<C: Currency>(before: C, after: C, who: AccountId, delta: int) -> bool {
    &&& forall|x: AccountId| #[trigger]
        after.free(x) == before.free(x) - (if x == who {
            delta
        } else {
            0
        })
    &&& forall|x: AccountId| #[trigger]
        after.reserved(x) == before.reserved(x) + (if x == who {
            delta
        } else {
            0
        })
}

/// A currency held in memory: each account's spendable and reserved balance.
pub struct MemoryLedger {
    accounts: HashMap<AccountId, (Balance, Balance)>,
}

impl MemoryLedger {
    pub closed spec fn balances(&self, who: AccountId) -> (Balance, Balance) {
        if self.accounts@.contains_key(who) {
            self.accounts@[who]
        } else {
            (0, 0)
        }
    }

    pub fn new() -> (r: Self)
        ensures
            r.wf(),
            forall|x: AccountId| r.free(x) == 0 && r.reserved(x) == 0,
    {
        MemoryLedger { accounts: HashMap::new() }
    }

    fn balances_of(&self, who: AccountId) -> (r: (Balance, Balance))
        ensures
            r == self.balances(who),
    {
        match self.accounts.get(&who) {
            Some(b) => *b,
            None => (0, 0),
        }
    }

    /// Adds `amount` to the spendable balance of `who`; refused where the
    /// account's balance would not fit.
    pub fn deposit(&mut self, who: AccountId, amount: Balance) -> (r: Result<(), LedgerError>)
        requires
            old(self).wf(),
        ensures
            final(self).wf(),
            r is Err ==> *final(self) == *old(self),
            r is Ok <==> old(self).free(who) + old(self).reserved(who) + amount <= u64::MAX,
            r is Ok ==> forall|x: AccountId| #[trigger]
                final(self).free(x) == old(self).free(x) + (if x == who {
                    amount as int
                } else {
                    0
                }),
            r is Ok ==> forall|x: AccountId| #[trigger]
                final(self).reserved(x) == old(self).reserved(x),
    {
        let (free, reserved) = self.balances_of(who);
        if amount > u64::MAX - free || amount + free > u64::MAX - reserved {
            return Err(LedgerError::Overflow);
        }
        self.accounts.insert(who, (free + amount, reserved));
        assert forall|x: AccountId| #[trigger]
            self.balances(x).0 + self.balances(x).1 <= u64::MAX by {
            if x != who {
                assert(self.balances(x) == old(self).balances(x));
            }
        }
        Ok(())
    }
}

impl Currency for MemoryLedger {
    open spec fn free(&self, who: AccountId) -> nat {
        self.balances(who).0 as nat
    }

    open spec fn reserved(&self, who: AccountId) -> nat {
        self.balances(who).1 as nat
    }

    /// No account holds more than fits in a balance.
    open spec fn wf(&self) -> bool {
        forall|x: AccountId| #[trigger] self.balances(x).0 + self.balances(x).1 <= u64::MAX
    }

    /// The spendable balance covers the amount, and the receiver's balance
    /// still fits.
    open spec fn can_transfer(&self, from: AccountId, to: AccountId, amount: Balance) -> bool {
        amount <= self.free(from) && (from == to || self.free(to) + self.reserved(to) + amount
            <= u64::MAX)
    }

    /// The spendable balance covers the amount.
    open spec fn can_reserve(&self, who: AccountId, amount: Balance) -> bool {
        amount <= self.free(who)
    }

    fn free_balance(&self, who: AccountId) -> (r: Balance) {
        self.balances_of(who).0
    }

    fn reserved_balance(&self, who: AccountId) -> (r: Balance) {
        self.balances_of(who).1
    }

    fn transfer(&mut self, from: AccountId, to: AccountId, amount: Balance) -> (r: Result<
        (),
        LedgerError,
    >) {
        let (from_free, from_reserved) = self.balances_of(from);
        if from_free < amount {
            return Err(LedgerError::InsufficientBalance);
        }
        if from == to {
            return Ok(());
        }
        let (to_free, to_reserved) = self.balances_of(to);
        if amount > u64::MAX - to_free || amount + to_free > u64::MAX - to_reserved {
            return Err(LedgerError::Overflow);
        }
        self.accounts.insert(from, (from_free - amount, from_reserved));
        self.accounts.insert(to, (to_free + amount, to_reserved));
        assert forall|x: AccountId| #[trigger]
            self.balances(x).0 + self.balances(x).1 <= u64::MAX by {
            if x != from && x != to {
                assert(self.balances(x) == old(self).balances(x));
            }
        }
        Ok(())
    }

    fn reserve(&mut self, who: AccountId, amount: Balance) -> (r: Result<(), LedgerError>) {
        let (free, reserved) = self.balances_of(who);
        if free < amount {
            return Err(LedgerError::InsufficientBalance);
        }
        self.accounts.insert(who, (free - amount, reserved + amount));
        assert forall|x: AccountId| #[trigger]
            self.balances(x).0 + self.balances(x).1 <= u64::MAX by {
            if x != who {
                assert(self.balances(x) == old(self).balances(x));
            }
        }
        Ok(())
    }

    fn unreserve(&mut self, who: AccountId, amount: Balance) -> (r: Balance) {
        let (free, reserved) = self.balances_of(who);
        let actual = if amount <= reserved {
            amount
        } else {
            reserved
        };
        self.accounts.insert(who, (free + actual, reserved - actual));
        assert forall|x: AccountId| #[trigger]
            self.balances(x).0 + self.balances(x).1 <= u64::MAX by {
            if x != who {
                assert(self.balances(x) == old(self).balances(x));
            }
        }
        amount - actual
    }
}

} // verus!
