//! A stake-secured oracle data marketplace: oracle registration with a
//! structural JSON check of the descriptor, answers written back by the
//! oracle, token stakes reserved against an oracle, and the settlement that
//! splits a request's fee between the provider and the stakers.
use vstd::prelude::*;

pub mod double_map;
pub mod genesis;
pub mod json;
pub mod laws;
pub mod ledger;
pub mod pallet;
pub mod settlement;

verus! {

/// An account of the chain: a provider, a staker or a requester.
pub type AccountId = u64;

/// An amount of tokens.
pub type Balance = u64;

/// The number that tells apart the oracles of one account.
pub type OracleId = u32;

} // verus!
