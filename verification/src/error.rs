//! Error taxonomy of the note ledger.

use vstd::prelude::*;

verus! {

/// Errors reported by the ledger's operations.
///
/// Every core operation returns a typed result; none panics on malformed
/// external input. `InsufficientBalance` and `CommitmentNotFound` are
/// recoverable and leave the store untouched.
#[derive(Debug)]
pub enum ClientError {
    /// No single unspent note covers the requested amount. `have` is the
    /// largest balance among the sender's unspent notes (zero if none).
    InsufficientBalance { have: u128, need: u128 },
    /// The named commitment is not present in the store.
    CommitmentNotFound(String),
    /// The persisted state document is malformed.
    StateError(String),
    /// Proof generation failed in the proving collaborator.
    ProofError(String),
    /// Submission to or a query of the chain collaborator failed.
    ContractError(String),
    /// Malformed hex, or a value of the wrong byte width.
    InvalidInput(String),
}

} // verus!
