//! Transactional core of a multi-version key-value store.
//!
//! The store keeps, for every key, a history of committed write records
//! ordered by commit timestamp, and at most one pending lock placed by an
//! in-flight transaction.  Reads are snapshot reads at a caller-chosen
//! timestamp; writes go through a two-phase prewrite/commit protocol with
//! write-conflict detection.
use vstd::prelude::*;

pub mod keys;
pub mod laws;
pub mod mvcc;
pub mod txn;

verus! {

/// The errors the transactional core can report.
#[derive(Debug, Clone, Copy, PartialEq, Eq, Structural)]
pub enum Error {
    /// The key holds a pending lock that the operation may not see past.
    KeyIsLocked,
    /// A write record newer than the transaction's snapshot already exists.
    WriteConflict,
    /// No pending lock of the named transaction exists for the key.
    TxnNotFound,
}

/// A logical key: an opaque byte sequence, ordered lexicographically.
pub type Key = Vec<u8>;

/// A value stored under a key.
pub type Value = Vec<u8>;

/// A key together with its value.
pub type KvPair = (Key, Value);

/// One operation of a write set, submitted to `prewrite`.
#[derive(Debug)]
pub enum Write {
    /// Store a value under the key.
    Put(KvPair),
    /// Remove the key.
    Delete(Key),
    /// Assert exclusivity over the key without changing its value.
    Lock(Key),
}

/// One request against the store, executed as a unit by the scheduler.
#[derive(Debug)]
pub enum Command {
    /// Snapshot read of one key at `start_ts`.
    Get {
        /// The key to read.
        key: Key,
        /// The snapshot timestamp.
        start_ts: u64,
    },
    /// Snapshot scan from `start_key`, at most `limit` entries.
    Scan {
        /// The first key the scan may report.
        start_key: Key,
        /// The largest number of entries to report.
        limit: usize,
        /// The snapshot timestamp.
        start_ts: u64,
    },
    /// Phase one of a transaction: lock and stage a write set.
    Prewrite {
        /// The operations to stage, in order.
        writes: Vec<Write>,
        /// The transaction's start timestamp.
        start_ts: u64,
    },
    /// Phase two of a transaction: make its staged writes visible.
    Commit {
        /// The transaction's start timestamp.
        start_ts: u64,
        /// The timestamp at which its writes become visible.
        commit_ts: u64,
    },
}

/// What the worker loop receives: a command to execute, or the signal to
/// shut down.
#[derive(Debug)]
pub enum Message {
    /// Execute this command.
    Command(Command),
    /// Stop the worker.
    Close,
}

impl Write {
    /// The key this operation applies to, as a mathematical byte sequence.
    pub open spec fn key_spec(&self) -> Seq<u8> {
        match self {
            Write::Put((k, _)) => k@,
            Write::Delete(k) => k@,
            Write::Lock(k) => k@,
        }
    }

    /// The key this operation applies to.
    pub fn key(&self) -> (r: &[u8])
        ensures
            r@ == self.key_spec(),
    {
        match self {
            Write::Put((k, _)) => k.as_slice(),
            Write::Delete(k) => k.as_slice(),
            Write::Lock(k) => k.as_slice(),
        }
    }
}

} // verus!
