//! The ways in which the ledger refuses an input.

use vstd::prelude::*;
use crate::amount::Amount;

verus! {

/// Why the ledger refused a value.
#[derive(Debug)]
pub enum BlockchainError {
    /// A transaction broke a rule of the store itself.
    InvalidTxn(&'static str),
    /// A received block failed one of the checks made on blocks.
    InvalidReceivedBlock(&'static str),
    /// Tentative transactions were refused: each hash with its reason.
    InvalidTentativeTxn(Vec<(crate::hash::Hash, &'static str)>),
    /// The wallet cannot cover the requested amount.
    InsufficientBalance { requested_amount: Amount, available_amount: Amount },
    /// The amount is more than `MAX_MONEY`.
    MonetaryAmountTooLarge(u64),
    /// The wallet could not make a signature that its own key accepts.
    SigningFailed,
}

} // verus!
