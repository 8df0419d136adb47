//! Data model of the transactional core: timestamps, routing metadata,
//! mutations, and the closed error taxonomy.
//!
//! Timestamps are 64-bit logical clocks handed out by an external
//! monotonic oracle; two distinct transactions never share a timestamp.

use vstd::prelude::*;

verus! {

/// The kind of a committed write record.
#[derive(Clone, Copy, PartialEq, Eq, Structural, Debug)]
pub enum WriteKind {
    /// The key holds a value as of the record's commit timestamp.
    Put,
    /// The key was deleted as of the record's commit timestamp.
    Delete,
    /// A rollback marker: the transaction whose start timestamp equals
    /// the record's timestamp was rolled back on this key.
    Rollback,
}

/// One requested change of a prewrite command.
#[derive(Clone, Debug)]
pub enum Mutation {
    Put { key: Vec<u8>, value: Vec<u8> },
    Delete { key: Vec<u8> },
}

impl Mutation {
    /// The logical key this mutation touches.
    pub fn key(&self) -> (k: &Vec<u8>)
        ensures
            k@ == self.spec_key(),
    {
        match self {
            Mutation::Put { key, .. } => key,
            Mutation::Delete { key } => key,
        }
    }

    pub open spec fn spec_key(self) -> Seq<u8> {
        match self {
            Mutation::Put { key, .. } => key@,
            Mutation::Delete { key } => key@,
        }
    }
}

/// Deterministic per-key conflicts detected by the MVCC executor.
/// These are surfaced to the caller and never retried internally.
#[derive(Clone, PartialEq, Eq, Debug)]
pub enum TxnError {
    /// Another transaction holds an in-progress lock on the key.
    KeyIsLocked { key: Vec<u8>, primary: Vec<u8>, lock_ts: u64, ttl: u64 },
    /// A write newer than the requesting transaction's start timestamp
    /// is already committed on the key.
    WriteConflict { key: Vec<u8>, start_ts: u64, conflict_commit_ts: u64 },
    /// The transaction was already rolled back on the key (or its lock
    /// vanished with no committed record to show for it, which is
    /// treated the same way).
    AlreadyRolledBack { key: Vec<u8>, start_ts: u64 },
    /// The transaction was already committed on the key, so a rollback
    /// of it must not proceed.
    AlreadyCommitted { key: Vec<u8>, start_ts: u64, commit_ts: u64 },
}

} // verus!
