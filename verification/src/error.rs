//! Why a block was rejected.

use vstd::prelude::*;

verus! {

/// The reasons for which a command is rejected. A rejected command leaves
/// the ledger as it was.
#[derive(PartialEq, Eq, Structural, Clone, Copy, Debug)]
pub enum LedgerError {
    /// The block's hash is not the hash of its canonical encoding.
    InvalidHash,
    /// The block's difficulty is above 64.
    DifficultyTooHigh,
    /// The block's hash does not start with as many zeroes as its
    /// difficulty asks for.
    LeadingZeroesMismatch,
    /// A block was submitted before any chain was initialized.
    MustInitializeFirst,
    /// The block's predecessor is neither a tip nor on the main chain.
    NoPredecessorFound,
    /// The block's hash is already a tip or on the main chain.
    DuplicateHash,
    /// The block's difficulty is below that of its predecessor.
    DifficultyDecreased,
    /// A transaction spends what is not there, spends twice, or is not
    /// balanced.
    InvalidTransaction,
}

impl LedgerError {
    /// The text of the message that reports the error.
    pub open spec fn message_text(self) -> Seq<char> {
        match self {
            LedgerError::InvalidHash => "invalid hash"@,
            LedgerError::DifficultyTooHigh => "maximum value of difficulty is 64"@,
            LedgerError::LeadingZeroesMismatch => {
                "leading zeroes in block hash did not match difficulty"@
            },
            LedgerError::MustInitializeFirst => "must initialize first"@,
            LedgerError::NoPredecessorFound => "no predecessor found"@,
            LedgerError::DuplicateHash => "duplicate hash"@,
            LedgerError::DifficultyDecreased => "difficulty must not decrease"@,
            LedgerError::InvalidTransaction => "invalid transaction"@,
        }
    }

    /// The message that reports the error.
    pub fn message(&self) -> (text: &'static str)
        ensures
            text@ == self.message_text(),
    {
        match self {
            LedgerError::InvalidHash => "invalid hash",
            LedgerError::DifficultyTooHigh => "maximum value of difficulty is 64",
            LedgerError::LeadingZeroesMismatch => {
                "leading zeroes in block hash did not match difficulty"
            },
            LedgerError::MustInitializeFirst => "must initialize first",
            LedgerError::NoPredecessorFound => "no predecessor found",
            LedgerError::DuplicateHash => "duplicate hash",
            LedgerError::DifficultyDecreased => "difficulty must not decrease",
            LedgerError::InvalidTransaction => "invalid transaction",
        }
    }
}

} // verus!
