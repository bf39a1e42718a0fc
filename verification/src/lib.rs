//! Confirmation-gated sequential broadcast of pre-built transaction chains.
//!
//! A chain ("inscription") is an ordered list of raw transactions that must be
//! broadcast one at a time: a transaction may only be submitted once the most
//! recently broadcast transaction of the same chain is confirmed.  This crate
//! holds the verified core: the data model, the gating state machine that
//! decides whether a chain waits, advances, or is marked failed, the per-pass
//! bookkeeping of the scheduler, and the durable progress format.  Network and
//! file I/O live outside the crate and feed plain values in.

use vstd::prelude::*;

pub mod advance;
pub mod pass;
pub mod store;
pub mod types;

verus! {

/// Greatest number of transactions submitted for one chain in one pass.
pub const BATCH_CAP: usize = 25;

/// Seconds the scheduler pauses between two passes.
pub const POLL_INTERVAL_SECS: u64 = 5;

} // verus!
