//! A persistent key-value store built on an append-only write-ahead log,
//! with snapshots and crash recovery.
//!
//! The library holds the storage engine's logic as functions on bytes: the
//! record codec, log replay with torn-tail recovery, the index, the
//! durability policy, snapshot contents, the manifest and the line protocol.
//! Files, sockets and threads are the caller's.

pub mod codec;
pub mod config;
pub mod coordinator;
pub mod durability;
pub mod error;
pub mod index;
pub mod manifest;
pub mod protocol;
pub mod replay;
pub mod snapshot;
pub mod store;
