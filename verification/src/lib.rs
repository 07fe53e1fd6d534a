//! A verified tiering engine for a storage daemon that unions block devices
//! into hot, warm and cold tiers and migrates files between them based on
//! observed access patterns.
//!
//! The engine itself is pure: it works on a metadata store, a move queue, a
//! retry queue and the set of tasks held by movers, all modelled as plain
//! values. The surrounding daemon walks the filesystem, runs the copy tool
//! and persists the store; it feeds the engine observations and events and
//! carries out the tasks the engine hands back.

use vstd::prelude::*;

pub mod args;
pub mod engine;
pub mod file_metadata;
pub mod laws;
pub mod paths;
pub mod policy;
pub mod reconcile;
pub mod scan;
pub mod store;
pub mod tier;

verus! {

/// A move task is dropped for good once it has been retried this many times.
pub const MAX_RETRIES: u32 = 3;

/// Phase B of a scan enqueues at most this many demotions per tier.
pub const DEMOTE_BATCH: usize = 10;

/// Seconds between two scan passes.
pub const TIERING_CHECK_INTERVAL: u64 = 7200;

/// Seconds between two reconciler passes.
pub const MAINTENANCE_INTERVAL: u64 = 86400;

} // verus!
