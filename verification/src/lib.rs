//! Leader replication core of a Raft consensus engine.
//!
//! A deterministic engine a leader node uses to track per-follower
//! replication progress, commit log entries once a quorum has accepted
//! them, coordinate log purge with in-flight replication, and react to
//! membership changes.  The engine holds no I/O: drivers execute the
//! commands it emits and deliver events back.
//!
//! The modules, leaves first: [`log_id`] defines log identifiers and
//! their order; [`quorum`] the voter configurations and the quorum
//! predicate; [`state`] the slice of Raft state the core reads and
//! writes; [`progress_entry`] the per-target inflight/matching/conflict
//! state machine; [`progress`] the target map with the quorum-accepted
//! value; [`clock`] the leader-lease watermark; [`engine`] the commands,
//! output buffer and configuration; [`handler`] the orchestration; and
//! [`metrics`] the published replication metrics.

pub mod clock;
pub mod engine;
pub mod handler;
pub mod log_id;
pub mod metrics;
pub mod progress;
pub mod progress_entry;
pub mod quorum;
pub mod state;

use vstd::prelude::*;

verus! {

} // verus!
