//! Core of a transactional key-value store node.
//!
//! Clients submit multi-key transaction commands (prewrite / commit /
//! rollback / cleanup / lock resolution) against replicated key
//! ranges.  Per-key latches serialize conflicting commands while
//! disjoint ones run concurrently; the command scheduler drives each
//! command from latch grant through snapshot validation — a snapshot
//! is trusted only under the epoch it was requested for — to
//! execution and a single terminal delivery, honoring cancellation;
//! and the MVCC executor runs the transactional logic over lock
//! records and write histories, with every per-key conflict aborting
//! a command atomically.

pub mod backend;
pub mod engines;
pub mod latch;
pub mod rotate;
pub mod sched;
pub mod laws;
pub mod mvcc;
mod types;

pub use types::Mutation;
pub use types::TxnError;
pub use types::WriteKind;
