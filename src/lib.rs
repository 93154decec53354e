//! A fungible-balance ledger: per-account 128-bit balances kept in a namespaced
//! key-value store, with genesis credits, transfers and burns that never
//! overflow and never apply in part.
use vstd::prelude::*;

pub mod contract;
pub mod lemmas;
pub mod state;

verus! {

} // verus!
