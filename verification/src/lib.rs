//! A privacy-preserving note ledger: spendable value is represented as
//! cryptographic commitments bound to owner secrets and consumed through
//! one-way nullifiers that prevent double-spending.
//!
//! The commitment scheme, note store, note selector and transaction builder
//! are verified; the hash primitive, randomness, and all I/O are reached
//! through a small set of trusted declarations.

pub mod builder;
pub mod bytes;
pub mod chain;
pub mod contract;
pub mod crypto;
pub mod error;
pub mod hexstr;
pub mod persist;
pub mod state;
pub mod strutil;

pub use crate::builder::{create_account, mint, transfer, TransferOutcome};
pub use crate::chain::LocalChain;
pub use crate::contract::{ContractConfig, PrivateTokenContract};
pub use crate::crypto::{
    bytes32_to_hex, compute_commitment, compute_nullifier, derive_address, generate_secret,
    hex_to_bytes32, pedersen_hash, u128_to_bytes32, u64_to_bytes32,
};
pub use crate::error::ClientError;
pub use crate::persist::{parse_store, render_store};
pub use crate::state::{Account, Commitment, StateManager};
