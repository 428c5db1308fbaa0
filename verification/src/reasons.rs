//! The reasons that the ledger gives when it refuses a block or a
//! transaction.

use vstd::prelude::*;

verus! {

pub const BLOCK_TOO_MANY_TXNS: &'static str = "A block may have at most 2000 transactions";

pub const BLOCK_NONCE_RANGE: &'static str = "Block nonce must be within 63 bits";

pub const BLOCK_REWARD_SHAPE: &'static str =
    "The first transaction must be a reward transaction: have no inputs, and only one output of exactly the reward amount";

pub const BLOCK_OUTPUT_COUNT: &'static str =
    "Every transaction must have at least one output and at most 256";

pub const BLOCK_INPUT_COUNT: &'static str =
    "Every transaction except for the first must have at least one input and at most 256";

pub const BLOCK_AMOUNT_RANGE: &'static str =
    "Every output of every transaction must have a value of no more than 100 billion";

pub const BLOCK_RECIPIENTS: &'static str = "Every transaction must have distinct output recipients";

pub const BLOCK_HASH: &'static str = "Block has incorrect or insufficiently hard hash";

pub const BLOCK_SIGNATURES: &'static str = "Every transaction must be correctly signed";

pub const BLOCK_UNAUTHORIZED: &'static str = "Transaction(s) in block contain unauthorized spending";

pub const BLOCK_OVERSPENT: &'static str =
    "Transaction(s) in block have an input that spends more than the amount in the referenced output";

pub const BLOCK_INCONSISTENT: &'static str =
    "Transaction(s) in block are not consistent with ancestor blocks; one or more transactions either refer to a nonexistent parent or double spend a previously spent parent";

pub const TXN_COUNTS: &'static str =
    "The tentative transaction must have at least one input and one output, and at most 256";

pub const TXN_AMOUNT_RANGE: &'static str =
    "Every output of the tentative transaction must have a value of no more than 100 billion";

pub const TXN_RECIPIENTS: &'static str =
    "The tentative transaction must have distinct output recipients";

pub const TXN_SIGNATURE: &'static str = "The tentative transaction must be correctly signed";

pub const TXN_UNAUTHORIZED: &'static str = "The tentative transaction contain unauthorized spending";

pub const TXN_OVERSPENT: &'static str =
    "The tentative transaction has an input that spends more than the amount in the referenced output";

/// Result code of SQLite for a value that a CHECK rule of a table refuses.
pub const CODE_CHECK: i32 = 275;

/// Result code of SQLite for a reference to a row that does not exist.
pub const CODE_FOREIGN_KEY: i32 = 787;

/// Result code of SQLite for a second row where only one may be.
pub const CODE_UNIQUE: i32 = 2067;

/// The text that SQLite has for a result code.
pub uninterp spec fn sqlite_code_text(code: i32) -> Seq<char>;

/// `libsqlite3_sys::code_to_str`, which asks SQLite for the text of a
/// result code. The contract names the text; it does not say what it reads.
#[verifier::external_body]
pub(crate) fn code_text(code: i32) -> (s: &'static str)
    ensures
        s@ == sqlite_code_text(code),
{
    libsqlite3_sys::code_to_str(code)
}

} // verus!
