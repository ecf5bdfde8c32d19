//! An in-memory ordered key-value store with tombstones, an auxiliary
//! namespace and whole-state snapshots.

pub mod codec;
pub mod keys;
pub mod laws;
pub mod namespace;
pub mod store;
