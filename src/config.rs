//! Store configuration and snapshot metadata.
use vstd::prelude::*;
use crate::error::StoreError;

verus! {

/// When a write is forced to stable storage.
#[derive(Debug, Clone, Copy, PartialEq, Eq)]
pub enum Durability {
    /// Every write is flushed to the operating system, never synced.
    Flush,
    /// Every write is flushed and synced.
    FsyncAlways,
    /// Every write is flushed; a sync follows every `n`-th write.
    FsyncEveryN(u64),
}

/// Settings chosen when a store is opened.
#[derive(Debug, Clone, Copy)]
pub struct StoreOptions {
    pub durability: Durability,
    /// Log size, in bytes, at which a snapshot is taken by itself.
    pub max_log_size: Option<u64>,
}

/// Whether a configuration can be used: `FsyncEveryN(0)` cannot.
pub open spec fn options_ok(o: StoreOptions) -> bool {
    !(o.durability matches Durability::FsyncEveryN(n) && n == 0)
}

impl StoreOptions {
    /// Checked construction: `FsyncEveryN(0)` is refused.
    pub fn new(durability: Durability, max_log_size: Option<u64>) -> (r: Result<StoreOptions, StoreError>)
        ensures
            r is Ok <==> options_ok(StoreOptions { durability, max_log_size }),
            r matches Ok(o) ==> o.durability == durability && o.max_log_size == max_log_size,
            r matches Err(e) ==> e is InvalidInput,
    {
        match durability {
            Durability::FsyncEveryN(0) => Err(StoreError::InvalidInput {
                msg: "sync interval must be at least 1".to_string(),
            }),
            _ => Ok(StoreOptions { durability, max_log_size }),
        }
    }
}

impl Default for StoreOptions {
    fn default() -> (r: StoreOptions)
        ensures
            r.durability == Durability::Flush,
            r.max_log_size is None,
    {
        StoreOptions { durability: Durability::Flush, max_log_size: None }
    }
}

/// What one snapshot published: its number, its file, and the log that
/// continues from it.
#[derive(Debug, Clone)]
pub struct SnapshotMeta {
    pub snapshot_number: u64,
    pub snapshot_path: String,
    pub log_path: String,
}

} // verus!
