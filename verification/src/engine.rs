//! Commands the engine emits, its output buffer, its configuration, and
//! the leader-side state it drives.

use vstd::prelude::*;

use crate::clock::ClockProgress;
use crate::log_id::LogId;
use crate::progress::Progress;
use crate::progress_entry::{Inflight, ProgressEntry};
use crate::state::RaftState;

verus! {

/// What the engine asks its driver to do.
#[derive(Clone, Debug, PartialEq, Eq)]
pub enum Command {
    /// Send logs, a snapshot, or (with an idle request) a heartbeat.
    Replicate { target: u64, req: Inflight },
    /// Tell followers about the new committed log id.
    ReplicateCommitted { committed: Option<LogId> },
    /// Apply the range `(already_committed, upto]` to the state machine.
    Commit { already_committed: Option<LogId>, upto: LogId },
    /// Recreate the per-target send tasks.
    RebuildReplicationStreams { targets: Vec<(u64, ProgressEntry)> },
    /// Purge the log up to `upto`, inclusive.
    PurgeLog { upto: LogId },
    /// Start building a snapshot.
    TriggerSnapshot,
}

/// The data request id a command carries, if it is a data `Replicate`.
pub open spec fn replicate_data_id(c: Command) -> Option<u64> {
    match c {
        Command::Replicate { req, .. } => req.get_id_spec(),
        _ => None,
    }
}

/// Every data request id in `cmds` is below `bound`.
pub open spec fn output_ids_lt(cmds: Seq<Command>, bound: u64) -> bool {
    forall|i: int|
        0 <= i < cmds.len() ==> (replicate_data_id(#[trigger] cmds[i]) matches Some(id) ==> id
            < bound)
}

/// Data request ids strictly increase along the command stream.
pub open spec fn output_ids_increasing(cmds: Seq<Command>) -> bool {
    forall|i: int, j: int|
        0 <= i < j < cmds.len() ==> ((replicate_data_id(#[trigger] cmds[i]) is Some
            && replicate_data_id(#[trigger] cmds[j]) is Some) ==> replicate_data_id(
            cmds[i],
        ).unwrap() < replicate_data_id(cmds[j]).unwrap())
}

/// Appending a command without a data id disturbs no id bound or order.
pub proof fn lemma_push_non_data(cmds: Seq<Command>, c: Command, bound: u64)
    requires
        output_ids_lt(cmds, bound),
        output_ids_increasing(cmds),
        replicate_data_id(c) is None,
    ensures
        output_ids_lt(cmds.push(c), bound),
        output_ids_increasing(cmds.push(c)),
{
    let s = cmds.push(c);
    assert(forall|i: int| 0 <= i < cmds.len() ==> s[i] == cmds[i]);
    assert(s[s.len() - 1] == c);
}

/// Appending a data command whose id is at least the old bound keeps ids
/// strictly increasing, now below `id + 1`.
pub proof fn lemma_push_data(cmds: Seq<Command>, c: Command, bound: u64, id: u64)
    requires
        output_ids_lt(cmds, bound),
        output_ids_increasing(cmds),
        replicate_data_id(c) == Some(id),
        bound <= id,
        id < u64::MAX,
    ensures
        output_ids_lt(cmds.push(c), (id + 1) as u64),
        output_ids_increasing(cmds.push(c)),
{
    let s = cmds.push(c);
    assert(forall|i: int| 0 <= i < cmds.len() ==> s[i] == cmds[i]);
    assert(s[s.len() - 1] == c);
}

/// Data request ids in a well-formed command stream are unique: within a
/// leader term every emitted data `Replicate` carries its own id, and a
/// later one carries a greater id.
pub proof fn lemma_replicate_ids_unique(cmds: Seq<Command>, i: int, j: int)
    requires
        output_ids_increasing(cmds),
        0 <= i < cmds.len(),
        0 <= j < cmds.len(),
        i != j,
        replicate_data_id(cmds[i]) is Some,
        replicate_data_id(cmds[j]) is Some,
    ensures
        replicate_data_id(cmds[i]) != replicate_data_id(cmds[j]),
        i < j ==> replicate_data_id(cmds[i]).unwrap() < replicate_data_id(cmds[j]).unwrap(),
{
}

/// A command already in the stream stays in it when another is appended.
pub proof fn lemma_contains_after_push(s: Seq<Command>, c: Command, x: Command)
    requires
        s.contains(x),
    ensures
        s.push(c).contains(x),
{
    let i = choose|i: int| 0 <= i < s.len() && s[i] == x;
    assert(s.push(c)[i] == x);
}

/// An id bound may be raised.
pub proof fn lemma_ids_lt_weaken(cmds: Seq<Command>, b1: u64, b2: u64)
    requires
        output_ids_lt(cmds, b1),
        b1 <= b2,
    ensures
        output_ids_lt(cmds, b2),
{
}

/// The buffer of commands an event handler emits, in order.
#[derive(Clone, Debug, PartialEq, Eq)]
pub struct EngineOutput {
    pub commands: Vec<Command>,
}

impl EngineOutput {
    pub fn new() -> (r: EngineOutput)
        ensures
            r.commands@.len() == 0,
    {
        EngineOutput { commands: Vec::new() }
    }

    pub fn push_command(&mut self, cmd: Command)
        ensures
            final(self).commands@ == old(self).commands@.push(cmd),
    {
        self.commands.push(cmd);
    }
}

/// When to start building a snapshot.
#[derive(Clone, Copy, Debug, PartialEq, Eq, Structural)]
pub enum SnapshotPolicy {
    /// Never trigger a snapshot from the core.
    Never,
    /// Snapshot once at least this many entries are committed past the
    /// last snapshot.
    LogsSinceLast(u64),
}

impl SnapshotPolicy {
    pub open spec fn should_snapshot_spec(self, state: RaftState) -> bool {
        match self {
            SnapshotPolicy::Never => false,
            SnapshotPolicy::LogsSinceLast(n) => match (state.committed, state.snapshot_last_log_id) {
                (Some(c), None) => c.index + 1 >= n,
                (Some(c), Some(s)) => c.index >= s.index && c.index - s.index >= n,
                (None, _) => false,
            },
        }
    }

    pub fn should_snapshot(&self, state: &RaftState) -> (r: bool)
        ensures
            r == self.should_snapshot_spec(*state),
    {
        match self {
            SnapshotPolicy::Never => false,
            SnapshotPolicy::LogsSinceLast(n) => {
                match (&state.committed, &state.snapshot_last_log_id) {
                    (Some(c), None) => *n == 0 || c.index >= *n - 1,
                    (Some(c), Some(s)) => c.index >= s.index && c.index - s.index >= *n,
                    (None, _) => false,
                }
            },
        }
    }
}

/// Configuration the replication core reads.
#[derive(Clone, Copy, Debug, PartialEq, Eq, Structural)]
pub struct EngineConfig {
    /// This node's id.
    pub id: u64,
    /// Upper bound on entries per `Replicate` logs command.
    pub max_payload_entries: u64,
    pub snapshot_policy: SnapshotPolicy,
}

impl EngineConfig {
    pub open spec fn wf(self) -> bool {
        self.max_payload_entries >= 1
    }
}

/// The leader-only state: both progress trackers and the request-id
/// allocator.
#[derive(Clone, Debug, PartialEq, Eq)]
pub struct Leader {
    pub progress: Progress,
    pub clock_progress: ClockProgress,
    /// Next request id to allocate; ids already handed out are below it.
    pub next_request_id: u64,
}

} // verus!
