//! Two ledger-resident state machines for trust-minimised trading: an escrow vault that custodies
//! per-owner, per-asset balances and time-bounded locks, and a registry of hash commitments to
//! trading strategies with proofs attached to them. Accounts and assets are numbered; the ledger
//! clock is passed to each call that reads it, and asset transfers come back as values for the
//! host to carry out.

pub mod host;
pub mod registry;
pub mod vault;

pub use registry::{CommitmentRecord, Error, ProofRecord, StrategyCommitment};
pub use vault::{EscrowVault, LockEntry, LockStatus, Party, Transfer, VaultError};
