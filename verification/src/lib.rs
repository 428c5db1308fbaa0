//! A minimal proof-of-work ledger: hashes, amounts, signed transactions,
//! blocks and a branching block store with an unspent-output view.

pub mod acceptance;
pub mod adoption;
pub mod amount;
pub mod block;
pub mod consistency;
pub mod crypto;
pub mod display;
pub mod encoding;
pub mod error;
pub mod frame;
pub mod hash;
pub mod laws;
pub mod ledger;
pub mod mining;
pub mod queries;
pub mod reasons;
pub mod spending;
pub mod storage;
pub mod text;
pub mod transaction;
pub mod wallet;
pub mod wire;
