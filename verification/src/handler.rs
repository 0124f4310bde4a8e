//! The replication handler: orchestrates per-target progress, commit,
//! membership-driven rebuilds and the purge interlock.
//!
//! Every operation is synchronous and deterministic; it mutates the
//! leader-side state and appends commands for the driver to execute.

use vstd::prelude::*;

use crate::clock::ClockProgress;
use crate::engine::{
    lemma_contains_after_push, lemma_ids_lt_weaken, lemma_push_data, lemma_push_non_data,
    output_ids_increasing, output_ids_lt, Command, EngineConfig, EngineOutput, Leader,
};
use crate::log_id::{next_index, next_index_spec, olid_le, olid_lt, LogId};
use crate::progress::{entry_in, Progress};
use crate::progress_entry::{Inflight, ProgressEntry, ProgressError, RequestId};
use crate::quorum::qs_view_eq;
use crate::state::{EffectiveMembership, Membership, RaftState, ServerState};

verus! {

/// Whether to send a message even when there is no data: a heartbeat.
#[derive(Clone, Copy, Debug, PartialEq, Eq, Structural)]
pub enum SendNone {
    False,
    True,
}

/// The payload of a successful replication response.
#[derive(Clone, Copy, Debug, PartialEq, Eq)]
pub struct ReplicationResult {
    /// When the request was sent; acknowledges this leader's authority.
    pub sending_time: u64,
    /// Accepted up to a log id, or rejected with a conflicting log id.
    pub result: Result<Option<LogId>, LogId>,
}

/// Performs the log purge under the precondition the replication handler
/// establishes.
pub struct LogHandler;

impl LogHandler {
    /// Advance `last_purged_log_id` to `purge_upto` and emit the purge
    /// command.
    pub fn purge_log(&self, state: &mut RaftState, output: &mut EngineOutput)
        requires
            old(state).wf(),
            olid_lt(old(state).last_purged_log_id, old(state).purge_upto),
        ensures
            final(state).wf(),
            final(state).purge_upto is Some,
            *final(state) == (RaftState {
                last_purged_log_id: old(state).purge_upto,
                ..*old(state)
            }),
            final(output).commands@ == old(output).commands@.push(
                Command::PurgeLog { upto: old(state).purge_upto.unwrap() },
            ),
    {
        let upto = match state.purge_upto() {
            Some(u) => *u,
            None => {
                proof {
                    assert(false);
                }
                LogId { leader_id: crate::log_id::LeaderId { term: 0, node_id: 0 }, index: 0 }
            },
        };
        state.last_purged_log_id = Some(upto);
        output.push_command(Command::PurgeLog { upto });
    }
}

/// Triggers snapshot building.
pub struct SnapshotHandler;

impl SnapshotHandler {
    pub fn trigger_snapshot(&self, output: &mut EngineOutput)
        ensures
            final(output).commands@ == old(output).commands@.push(Command::TriggerSnapshot),
    {
        output.push_command(Command::TriggerSnapshot);
    }
}

/// Handles replication: progress updates, commit, stream rebuilds on
/// membership change, and the purge interlock.
pub struct ReplicationHandler {
    pub config: EngineConfig,
    pub leader: Leader,
    pub state: RaftState,
    pub output: EngineOutput,
}

/// Matchings never go down: every target tracked before and after has a
/// matching at least what it had.
pub open spec fn matchings_le(a: Progress, b: Progress) -> bool {
    forall|t: u64|
        a.tracked_spec(t) && b.tracked_spec(t) ==> olid_le(
            #[trigger] a.matching_of(t),
            #[trigger] b.matching_of(t),
        )
}

/// The commands a commit advance appends: tell the followers, apply the
/// range, and possibly start a snapshot.
pub open spec fn commit_commands(prev: Option<LogId>, g: LogId, snap: bool) -> Seq<Command> {
    let base = seq![
        Command::ReplicateCommitted { committed: Some(g) },
        Command::Commit { already_committed: prev, upto: g },
    ];
    if snap {
        base.push(Command::TriggerSnapshot)
    } else {
        base
    }
}

/// How trying to commit the candidate `g` relates the handler before and
/// after: `committed` moves exactly when `g` is from this leader's vote
/// and greater, and then exactly the commit commands are appended, with
/// the snapshot trigger iff the policy fires on the committed state.
pub open spec fn commit_outcome(
    h0: ReplicationHandler,
    h1: ReplicationHandler,
    g: Option<LogId>,
) -> bool {
    &&& h1.state == (RaftState { committed: h1.state.committed, ..h0.state })
    &&& olid_le(h0.state.committed, h1.state.committed)
    &&& ((h1.state.committed != h0.state.committed) <==> (g matches Some(c) && c.leader_id
        == h0.state.vote.leader_id && olid_lt(h0.state.committed, g)))
    &&& (h1.state.committed != h0.state.committed ==> (h1.state.committed == g
        && h1.output.commands@ == h0.output.commands@ + commit_commands(
        h0.state.committed,
        g.unwrap(),
        h0.config.snapshot_policy.should_snapshot_spec(h1.state),
    )))
    &&& (h1.state.committed == h0.state.committed ==> h1.output == h0.output)
}

/// What accepting `log_id` from `target` does to everything but the
/// leader clock: the target's entry is raised to the maximum and cleared,
/// every other entry and the id allocator stand, and the commit rule runs
/// on the freshly recomputed quorum-accepted value.
pub open spec fn matching_applied(
    h0: ReplicationHandler,
    h1: ReplicationHandler,
    target: u64,
    log_id: Option<LogId>,
) -> bool {
    let p0 = h0.leader.progress;
    let p1 = h1.leader.progress;
    let e0 = p0.entry_of(target);
    let e1 = p1.entry_of(target);
    &&& h1.config == h0.config
    &&& h1.leader.next_request_id == h0.leader.next_request_id
    &&& p1.quorum_set == p0.quorum_set
    &&& p1.learners == p0.learners
    &&& (forall|t: u64| p1.tracked_spec(t) == p0.tracked_spec(t))
    &&& (forall|t: u64| p0.tracked_spec(t) && t != target ==> p1.entry_of(t) == p0.entry_of(t))
    &&& e1.matching == (if olid_le(e0.matching, log_id) {
        log_id
    } else {
        e0.matching
    })
    &&& e1.inflight is Idle
    &&& e1.end == (if e0.end >= next_index_spec(e1.matching) {
        e0.end as int
    } else {
        next_index_spec(e1.matching)
    })
    &&& olid_le(p0.granted, p1.granted)
    &&& commit_outcome(h0, h1, p1.granted)
}

/// What a conflict at index `conflict` from `target` does: only the
/// target's window shrinks and its inflight clears.
pub open spec fn conflict_applied(
    h0: ReplicationHandler,
    h1: ReplicationHandler,
    target: u64,
    conflict: u64,
) -> bool {
    let p0 = h0.leader.progress;
    let p1 = h1.leader.progress;
    &&& h1.config == h0.config
    &&& h1.state == h0.state
    &&& h1.output == h0.output
    &&& h1.leader.next_request_id == h0.leader.next_request_id
    &&& p1.quorum_set == p0.quorum_set
    &&& p1.learners == p0.learners
    &&& p1.granted == p0.granted
    &&& (forall|t: u64| p1.tracked_spec(t) == p0.tracked_spec(t))
    &&& (forall|t: u64| p0.tracked_spec(t) && t != target ==> p1.entry_of(t) == p0.entry_of(t))
    &&& p1.entry_of(target) == (ProgressEntry {
        inflight: Inflight::Idle,
        end: ({
            let shrunk = if conflict <= p0.entry_of(target).end {
                conflict as int
            } else {
                p0.entry_of(target).end as int
            };
            if shrunk >= next_index_spec(p0.entry_of(target).matching) {
                shrunk
            } else {
                next_index_spec(p0.entry_of(target).matching)
            }
        }) as u64,
        ..p0.entry_of(target)
    })
}

/// What acknowledging instant `t` from `target` does to the leader clock:
/// the target's value rises to the maximum, every other value and the
/// membership stand, and the quorum-acknowledged instant does not shrink.
pub open spec fn clock_acked(c0: ClockProgress, c1: ClockProgress, target: u64, t: u64) -> bool {
    &&& c1.inner.quorum_set == c0.inner.quorum_set
    &&& c1.inner.learners == c0.inner.learners
    &&& (forall|u: u64| c1.tracked_spec(u) == c0.tracked_spec(u))
    &&& c1.value_of(target) == (match c0.value_of(target) {
        Some(v) => if v > t {
            Some(v)
        } else {
            Some(t)
        },
        None => Some(t),
    })
    &&& (forall|u: u64| c0.tracked_spec(u) && u != target ==> c1.value_of(u) == c0.value_of(u))
    &&& (match (c0.granted_spec(), c1.granted_spec()) {
        (Some(v0), Some(v1)) => v0 <= v1,
        (Some(_), None) => false,
        (None, _) => true,
    })
}

/// What handling one successful response does: the clock is acknowledged,
/// then a heartbeat stops, an acceptance with a matching id is applied, a
/// conflict with a matching logs id shrinks the window, and a stale id
/// changes nothing further.
pub open spec fn response_applied(
    h0: ReplicationHandler,
    h1: ReplicationHandler,
    target: u64,
    request_id: RequestId,
    result: ReplicationResult,
) -> bool {
    &&& h1.config == h0.config
    &&& clock_acked(h0.leader.clock_progress, h1.leader.clock_progress, target, result.sending_time)
    &&& (request_id is HeartBeat ==> (h1.leader.progress == h0.leader.progress && h1.state
        == h0.state && h1.output == h0.output && h1.leader.next_request_id
        == h0.leader.next_request_id))
    &&& (request_id matches RequestId::Data(id) ==> {
        let e0 = h0.leader.progress.entry_of(target);
        &&& (result.result matches Ok(m) ==> (if e0.inflight.get_id_spec() == Some(id) {
            matching_applied(h0, h1, target, m)
        } else {
            h1.leader.progress == h0.leader.progress && h1.state == h0.state && h1.output
                == h0.output && h1.leader.next_request_id == h0.leader.next_request_id
        }))
        &&& (result.result matches Err(cf) ==> (if e0.inflight matches Inflight::Logs {
            id: iid,
            ..
        } && iid == id {
            conflict_applied(h0, h1, target, cf.index)
        } else {
            h1.leader.progress == h0.leader.progress && h1.state == h0.state && h1.output
                == h0.output && h1.leader.next_request_id == h0.leader.next_request_id
        }))
    })
}

/// What handling one transport error does: a heartbeat error changes
/// nothing; a data error clears the target's inflight when the id still
/// answers it, so the range is resent, and otherwise changes nothing.
pub open spec fn transport_error_applied(
    h0: ReplicationHandler,
    h1: ReplicationHandler,
    target: u64,
    request_id: RequestId,
) -> bool {
    let p0 = h0.leader.progress;
    let p1 = h1.leader.progress;
    &&& h1.config == h0.config
    &&& h1.state == h0.state
    &&& h1.output == h0.output
    &&& h1.leader.next_request_id == h0.leader.next_request_id
    &&& h1.leader.clock_progress == h0.leader.clock_progress
    &&& (request_id is HeartBeat ==> p1 == p0)
    &&& (request_id matches RequestId::Data(id) ==> (
    if p0.entry_of(target).inflight.get_id_spec() == Some(id) {
        &&& p1.quorum_set == p0.quorum_set
        &&& p1.learners == p0.learners
        &&& p1.granted == p0.granted
        &&& (forall|t: u64| p1.tracked_spec(t) == p0.tracked_spec(t))
        &&& (forall|t: u64| p0.tracked_spec(t) && t != target ==> p1.entry_of(t) == p0.entry_of(t))
        &&& p1.entry_of(target) == (ProgressEntry {
            inflight: Inflight::Idle,
            ..p0.entry_of(target)
        })
    } else {
        p1 == p0
    }))
}

/// What re-examining the purge does: the purge runs, advancing
/// `last_purged_log_id` to `purge_upto` and emitting the one command,
/// exactly when it is pending and no inflight log range still reads it;
/// otherwise nothing at all changes.
pub open spec fn purge_applied(h0: ReplicationHandler, h1: ReplicationHandler) -> bool {
    &&& h1 == (ReplicationHandler { state: h1.state, output: h1.output, ..h0 })
    &&& h1.state == (RaftState { last_purged_log_id: h1.state.last_purged_log_id, ..h0.state })
    &&& ((h1.state.last_purged_log_id != h0.state.last_purged_log_id) <==> (olid_lt(
        h0.state.last_purged_log_id,
        h0.state.purge_upto,
    ) && (forall|t: u64|
        h0.leader.progress.tracked_spec(t)
            ==> !(#[trigger] h0.leader.progress.entry_of(t)).is_log_range_inflight_spec(
            h0.state.purge_upto.unwrap(),
        ))))
    &&& (h1.state.last_purged_log_id != h0.state.last_purged_log_id ==> (
        h1.state.last_purged_log_id == h0.state.purge_upto && h1.output.commands@
            == h0.output.commands@.push(
            Command::PurgeLog { upto: h0.state.purge_upto.unwrap() },
        )))
    &&& (h1.state.last_purged_log_id == h0.state.last_purged_log_id ==> h1 == h0)
}

impl ReplicationHandler {
    pub open spec fn wf(self) -> bool {
        &&& self.config.wf()
        &&& self.state.wf()
        &&& self.leader.progress.wf()
        &&& self.leader.clock_progress.wf()
        &&& output_ids_lt(self.output.commands@, self.leader.next_request_id)
        &&& output_ids_increasing(self.output.commands@)
    }

    /// A handler for a node that just became leader: progress entries are
    /// fresh, with `end` at the log tail, and nothing is in flight.
    pub fn new(config: EngineConfig, state: RaftState) -> (r: ReplicationHandler)
        requires
            config.wf(),
            state.wf(),
            state.server_state == ServerState::Leader,
        ensures
            r.wf(),
            r.config == config,
            r.state == state,
            r.output.commands@.len() == 0,
            r.leader.next_request_id == 0,
            qs_view_eq(
                r.leader.progress.quorum_set,
                state.membership_state.effective.membership.voters,
            ),
            r.leader.progress.learners@
                == state.membership_state.effective.membership.learners@,
            forall|t: u64|
                r.leader.progress.tracked_spec(t) <==> (crate::quorum::is_voter_spec(
                    state.membership_state.effective.membership.voters,
                    t,
                ) || state.membership_state.effective.membership.learners@.contains(t)),
            forall|t: u64|
                r.leader.clock_progress.tracked_spec(t) == r.leader.progress.tracked_spec(t),
            forall|t: u64|
                r.leader.progress.tracked_spec(t) ==> r.leader.progress.entry_of(t)
                    == ProgressEntry::empty_spec(next_index_spec(state.last_log_id) as u64),
            forall|t: u64|
                r.leader.clock_progress.tracked_spec(t) ==> r.leader.clock_progress.value_of(t)
                    is None,
    {
        let end = next_index(state.last_log_id());
        let default_entry = ProgressEntry::empty(end);
        let qs = state.membership_state.effective.membership.to_quorum_set();
        let learners = state.membership_state.effective.membership.learner_ids();
        proof {
            crate::quorum::lemma_qs_view_eq_props(
                qs,
                state.membership_state.effective.membership.voters,
            );
        }
        let progress = Progress::new(qs, learners, default_entry);
        let qs2 = state.membership_state.effective.membership.to_quorum_set();
        let learners2 = state.membership_state.effective.membership.learner_ids();
        proof {
            crate::quorum::lemma_qs_view_eq_props(
                qs2,
                state.membership_state.effective.membership.voters,
            );
        }
        let clock_inner = Progress::new(qs2, learners2, ProgressEntry::empty(0));
        let clock_progress = ClockProgress { inner: clock_inner };
        ReplicationHandler {
            config,
            leader: Leader { progress, clock_progress, next_request_id: 0 },
            state,
            output: EngineOutput::new(),
        }
    }

    /// Append a new membership: install it as effective, rebuild the
    /// progress trackers and the replication streams, and start
    /// replicating.  The leader keeps replicating even if it is no longer
    /// a voter; it steps down only once the membership log commits.
    pub fn append_membership(&mut self, log_id: &LogId, m: &Membership)
        requires
            old(self).wf(),
            m.wf(),
            old(self).state.server_state == ServerState::Leader,
            old(self).state.vote.leader_id.node_id == old(self).config.id,
            old(self).leader.next_request_id + crate::quorum::qs_size(m.voters)
                + m.learners@.len() <= u64::MAX,
        ensures
            final(self).wf(),
            final(self).config == old(self).config,
            final(self).state.committed == old(self).state.committed,
            final(self).state.membership_state.effective.log_id == Some(*log_id),
            qs_view_eq(
                final(self).state.membership_state.effective.membership.voters,
                m.voters,
            ),
            final(self).state.membership_state.effective.membership.learners@ == m.learners@,
            old(self).output.commands@.is_prefix_of(final(self).output.commands@),
            matchings_le(old(self).leader.progress, final(self).leader.progress),
            forall|t: u64|
                old(self).leader.progress.tracked_spec(t) && final(self).leader.progress.tracked_spec(t) ==> final(self).leader.progress.matching_of(t)
                    == old(self).leader.progress.matching_of(t),
            qs_view_eq(final(self).leader.progress.quorum_set, m.voters),
            final(self).leader.progress.learners@ == m.learners@,
            forall|t: u64|
                final(self).leader.progress.tracked_spec(t) <==> (crate::quorum::is_voter_spec(
                    m.voters,
                    t,
                ) || m.learners@.contains(t)),
            forall|t: u64|
                final(self).leader.progress.tracked_spec(t) ==> final(self).leader.progress.entry_of(t).matching == (if old(self).leader.progress.tracked_spec(t) {
                    old(self).leader.progress.entry_of(t).matching
                } else {
                    None::<LogId>
                }),
            forall|t: u64|
                final(self).leader.progress.tracked_spec(t) ==> final(self).leader.progress.entry_of(t).end == (if old(self).leader.progress.tracked_spec(t) {
                    old(self).leader.progress.entry_of(t).end as int
                } else {
                    next_index_spec(old(self).state.last_log_id)
                }),
            final(self).output.commands@.len() > old(self).output.commands@.len(),
            final(self).output.commands@[old(self).output.commands@.len() as int]
                is RebuildReplicationStreams,
            forall|i: int|
                old(self).output.commands@.len() + 1 <= i < final(self).output.commands@.len()
                    ==> (final(self).output.commands@[i] is Replicate),
    {
        let em = EffectiveMembership { log_id: Some(*log_id), membership: m.duplicate() };
        self.state.membership_state.append(em);
        self.rebuild_progresses();
        proof {
            crate::quorum::lemma_qs_view_eq_props(
                self.leader.progress.quorum_set,
                self.state.membership_state.effective.membership.voters,
            );
            crate::quorum::lemma_qs_view_eq_props(
                self.state.membership_state.effective.membership.voters,
                m.voters,
            );
        }
        self.rebuild_replication_streams();
        self.initiate_replication(SendNone::False);
    }

    /// Rebuild both progress trackers to the effective membership:
    /// surviving targets keep their state, new ones get fresh entries,
    /// departed ones are dropped.
    pub fn rebuild_progresses(&mut self)
        requires
            old(self).wf(),
        ensures
            final(self).wf(),
            final(self).config == old(self).config,
            final(self).state == old(self).state,
            final(self).output == old(self).output,
            final(self).leader.next_request_id == old(self).leader.next_request_id,
            qs_view_eq(
                final(self).leader.progress.quorum_set,
                old(self).state.membership_state.effective.membership.voters,
            ),
            forall|t: u64|
                final(self).leader.progress.tracked_spec(t) <==> (crate::quorum::is_voter_spec(
                    final(self).leader.progress.quorum_set,
                    t,
                ) || final(self).leader.progress.learners@.contains(t)),
            forall|t: u64|
                final(self).leader.progress.tracked_spec(t) ==> final(self).leader.progress.entry_of(t) == (if old(self).leader.progress.tracked_spec(t) {
                    old(self).leader.progress.entry_of(t)
                } else {
                    ProgressEntry::empty_spec(next_index_spec(old(self).state.last_log_id) as u64)
                }),
            forall|t: u64|
                final(self).leader.clock_progress.tracked_spec(t) ==> final(self).leader.clock_progress.value_of(t) == (if old(self).leader.clock_progress.tracked_spec(t) {
                    old(self).leader.clock_progress.value_of(t)
                } else {
                    None::<u64>
                }),
            final(self).leader.progress.vector@.len() <= crate::quorum::qs_size(
                final(self).leader.progress.quorum_set,
            ) + final(self).leader.progress.learners@.len(),
            final(self).leader.progress.learners@ == old(self).state.membership_state.effective.membership.learners@,
            matchings_le(old(self).leader.progress, final(self).leader.progress),
    {
        let end = next_index(self.state.last_log_id());
        let default_entry = ProgressEntry::empty(end);
        let qs = self.state.membership_state.effective.membership.to_quorum_set();
        let learners = self.state.membership_state.effective.membership.learner_ids();
        proof {
            crate::quorum::lemma_qs_view_eq_props(
                qs,
                self.state.membership_state.effective.membership.voters,
            );
        }
        let np = self.leader.progress.upgrade_quorum_set(qs, learners, default_entry);
        self.leader.progress = np;
        let qs2 = self.state.membership_state.effective.membership.to_quorum_set();
        let learners2 = self.state.membership_state.effective.membership.learner_ids();
        proof {
            crate::quorum::lemma_qs_view_eq_props(
                qs2,
                self.state.membership_state.effective.membership.voters,
            );
        }
        let nc = self.leader.clock_progress.upgrade_quorum_set(qs2, learners2);
        self.leader.clock_progress = nc;
    }

    /// Handle a successful replication response: acknowledge the leader
    /// clock, then apply the matching or the conflict.  A pure heartbeat
    /// carries no data id and updates only the clock.
    pub fn update_success_progress(
        &mut self,
        target: u64,
        request_id: RequestId,
        result: ReplicationResult,
    ) -> (r: Result<(), ProgressError>)
        requires
            old(self).wf(),
            old(self).leader.progress.tracked_spec(target),
            old(self).leader.clock_progress.tracked_spec(target),
            result.sending_time < u64::MAX,
            request_id is Data ==> (result.result matches Ok(m) ==> (m matches Some(l)
                && l.index < u64::MAX)),
        ensures
            final(self).wf(),
            final(self).config == old(self).config,
            olid_le(old(self).state.committed, final(self).state.committed),
            matchings_le(old(self).leader.progress, final(self).leader.progress),
            old(self).output.commands@.is_prefix_of(final(self).output.commands@),
            final(self).leader.next_request_id == old(self).leader.next_request_id,
            request_id is HeartBeat ==> (final(self).leader.progress == old(self).leader.progress
                && final(self).state == old(self).state && final(self).output == old(self).output),
            response_applied(*old(self), *final(self), target, request_id, result),
            (r is Err) == (request_id matches RequestId::Data(id) && result.result is Err && !(old(self).leader.progress.entry_of(target).inflight matches Inflight::Logs { id: iid, .. }
                && iid == id)),
    {
        self.update_leader_clock(target, result.sending_time);
        let ghost mid = *self;
        let id = match request_id.request_id() {
            Some(id) => id,
            None => {
                return Ok(());
            },
        };
        match result.result {
            Ok(matching) => {
                self.update_matching(target, id, matching);
                proof {
                    assert(mid.leader.progress == old(self).leader.progress);
                    assert(mid.state == old(self).state);
                    assert(mid.output == old(self).output);
                    if old(self).leader.progress.entry_of(target).inflight.get_id_spec() == Some(
                        id,
                    ) {
                        assert(matching_applied(mid, *self, target, matching));
                        assert(matching_applied(*old(self), *self, target, matching));
                    }
                }
                Ok(())
            },
            Err(conflict) => {
                let r = self.update_conflicting(target, id, conflict);
                proof {
                    assert(mid.leader.progress == old(self).leader.progress);
                    assert(mid.state == old(self).state);
                    assert(mid.output == old(self).output);
                    if old(self).leader.progress.entry_of(target).inflight matches Inflight::Logs {
                        id: iid,
                        ..
                    } && iid == id {
                        assert(conflict_applied(mid, *self, target, conflict.index));
                        assert(conflict_applied(*old(self), *self, target, conflict.index));
                    }
                }
                r
            },
        }
    }

    /// A response from `target` grants the leader's authority as of the
    /// instant the request was sent: raise the leader clock.
    pub fn update_leader_clock(&mut self, node_id: u64, t: u64)
        requires
            old(self).wf(),
            old(self).leader.clock_progress.tracked_spec(node_id),
            t < u64::MAX,
        ensures
            final(self).wf(),
            *final(self) == (ReplicationHandler {
                leader: final(self).leader,
                ..*old(self)
            }),
            final(self).leader == (Leader {
                clock_progress: final(self).leader.clock_progress,
                ..old(self).leader
            }),
            clock_acked(
                old(self).leader.clock_progress,
                final(self).leader.clock_progress,
                node_id,
                t,
            ),
    {
        let _granted = self.leader.clock_progress.increase_to(node_id, t);
    }

    /// Apply an accepted replication result: raise `target`'s matching and
    /// try to commit the new quorum-accepted log id.  A reply whose id
    /// does not answer the current inflight is dropped, changing nothing.
    /// A valid acceptance always names a log id: `None` is ruled out by
    /// precondition rather than tolerated.
    pub fn update_matching(&mut self, node_id: u64, inflight_id: u64, log_id: Option<LogId>)
        requires
            old(self).wf(),
            old(self).leader.progress.tracked_spec(node_id),
            log_id matches Some(l) && l.index < u64::MAX,
        ensures
            final(self).wf(),
            final(self).config == old(self).config,
            olid_le(old(self).state.committed, final(self).state.committed),
            matchings_le(old(self).leader.progress, final(self).leader.progress),
            old(self).output.commands@.is_prefix_of(final(self).output.commands@),
            final(self).leader.next_request_id == old(self).leader.next_request_id,
            final(self).leader.clock_progress == old(self).leader.clock_progress,
            old(self).leader.progress.entry_of(node_id).inflight.get_id_spec() != Some(
                inflight_id,
            ) ==> *final(self) == *old(self),
            old(self).leader.progress.entry_of(node_id).inflight.get_id_spec() == Some(
                inflight_id,
            ) ==> matching_applied(*old(self), *final(self), node_id, log_id),
    {
        let res = self.leader.progress.update_matching(node_id, inflight_id, log_id);
        match res {
            Ok(granted) => {
                self.try_commit_quorum_accepted(granted);
            },
            Err(_stale) => {
                // A benign artifact of a rebuild or retry: drop it.
            },
        }
    }

    /// Commit the quorum-accepted log id, if it was proposed by this
    /// leader.  Raft's rule: a leader commits by counting only entries of
    /// its own term; earlier entries commit transitively.
    pub fn try_commit_quorum_accepted(&mut self, granted: Option<LogId>)
        requires
            old(self).wf(),
        ensures
            final(self).wf(),
            final(self).config == old(self).config,
            final(self).leader == old(self).leader,
            olid_le(old(self).state.committed, final(self).state.committed),
            final(self).state == (RaftState {
                committed: final(self).state.committed,
                ..old(self).state
            }),
            old(self).output.commands@.is_prefix_of(final(self).output.commands@),
            commit_outcome(*old(self), *final(self), granted),
            !(granted matches Some(c) && c.leader_id == old(self).state.vote.leader_id && olid_lt(
                old(self).state.committed,
                granted,
            )) ==> *final(self) == *old(self),
    {
        match granted {
            Some(c) => {
                if !self.state.vote_ref().is_same_leader(&c.leader_id) {
                    return ;
                }
            },
            None => {},
        }
        let prev = self.state.update_committed(&granted);
        match prev {
            Some(already) => {
                let committed_now = *self.state.committed();
                self.output.push_command(
                    Command::ReplicateCommitted { committed: committed_now },
                );
                proof {
                    lemma_push_non_data(
                        old(self).output.commands@,
                        Command::ReplicateCommitted { committed: committed_now },
                        self.leader.next_request_id,
                    );
                }
                let upto = match committed_now {
                    Some(c) => c,
                    None => {
                        proof {
                            assert(false);
                        }
                        LogId {
                            leader_id: crate::log_id::LeaderId { term: 0, node_id: 0 },
                            index: 0,
                        }
                    },
                };
                let ghost cmds1 = self.output.commands@;
                self.output.push_command(Command::Commit { already_committed: already, upto });
                proof {
                    lemma_push_non_data(
                        cmds1,
                        Command::Commit { already_committed: already, upto },
                        self.leader.next_request_id,
                    );
                }
                if self.config.snapshot_policy.should_snapshot(&self.state) {
                    let ghost cmds2 = self.output.commands@;
                    let sh = self.snapshot_handler();
                    sh.trigger_snapshot(&mut self.output);
                    proof {
                        lemma_push_non_data(
                            cmds2,
                            Command::TriggerSnapshot,
                            self.leader.next_request_id,
                        );
                    }
                }
                proof {
                    assert(self.output.commands@ =~= old(self).output.commands@ + commit_commands(
                        old(self).state.committed,
                        upto,
                        self.config.snapshot_policy.should_snapshot_spec(self.state),
                    ));
                }
            },
            None => {},
        }
    }

    /// Apply a conflict response: shrink `target`'s send window.  A stale
    /// id is a hard error handed back to the caller; the state is
    /// untouched either way but for the window.
    pub fn update_conflicting(&mut self, target: u64, inflight_id: u64, conflict: LogId) -> (r:
        Result<(), ProgressError>)
        requires
            old(self).wf(),
            old(self).leader.progress.tracked_spec(target),
        ensures
            final(self).wf(),
            *final(self) == (ReplicationHandler {
                leader: final(self).leader,
                ..*old(self)
            }),
            final(self).leader == (Leader {
                progress: final(self).leader.progress,
                ..old(self).leader
            }),
            forall|t: u64|
                old(self).leader.progress.tracked_spec(t) ==> final(self).leader.progress.matching_of(t) == old(self).leader.progress.matching_of(t),
            (r is Ok) == (old(self).leader.progress.entry_of(target).inflight
                matches Inflight::Logs { id, .. } && id == inflight_id),
            r is Err ==> *final(self) == *old(self),
            r is Ok ==> conflict_applied(*old(self), *final(self), target, conflict.index),
    {
        self.leader.progress.update_conflicting(target, inflight_id, conflict.index)
    }

    /// Handle any replication response.  A transport error clears the
    /// inflight of a data request so it is retried; a heartbeat error
    /// changes nothing.  Either way the pending purge is re-examined.
    pub fn update_progress(
        &mut self,
        target: u64,
        request_id: RequestId,
        repl_res: Result<ReplicationResult, String>,
    ) -> (r: Result<(), ProgressError>)
        requires
            old(self).wf(),
            old(self).leader.progress.tracked_spec(target),
            old(self).leader.clock_progress.tracked_spec(target),
            repl_res matches Ok(p) ==> p.sending_time < u64::MAX,
            request_id is Data ==> (repl_res matches Ok(p) ==> (p.result matches Ok(m) ==> (
            m matches Some(l) && l.index < u64::MAX))),
        ensures
            final(self).wf(),
            final(self).config == old(self).config,
            olid_le(old(self).state.committed, final(self).state.committed),
            matchings_le(old(self).leader.progress, final(self).leader.progress),
            old(self).output.commands@.is_prefix_of(final(self).output.commands@),
            final(self).leader.next_request_id == old(self).leader.next_request_id,
            repl_res is Err ==> (final(self).state.committed == old(self).state.committed
                && forall|t: u64|
                old(self).leader.progress.tracked_spec(t) ==> final(self).leader.progress.matching_of(t) == old(self).leader.progress.matching_of(t)),
            repl_res is Err ==> (request_id matches RequestId::Data(id) ==> (
            if old(self).leader.progress.entry_of(target).inflight.get_id_spec() == Some(id) {
                final(self).leader.progress.entry_of(target).inflight is Idle
            } else {
                final(self).leader.progress == old(self).leader.progress
            })),
            (repl_res is Err && request_id is HeartBeat) ==> final(self).leader.progress == old(self).leader.progress,
            (r is Err) == (repl_res matches Ok(p) && request_id matches RequestId::Data(id)
                && p.result is Err && !(old(self).leader.progress.entry_of(target).inflight
                matches Inflight::Logs { id: iid, .. } && iid == id)),
            repl_res matches Ok(p) ==> exists|mid: ReplicationHandler|
                #[trigger] response_applied(*old(self), mid, target, request_id, p)
                    && purge_applied(mid, *final(self)),
            repl_res is Err ==> exists|mid: ReplicationHandler|
                #[trigger] transport_error_applied(*old(self), mid, target, request_id)
                    && purge_applied(mid, *final(self)),
    {
        let r = match repl_res {
            Ok(p) => self.update_success_progress(target, request_id, p),
            Err(_err) => {
                match request_id {
                    RequestId::HeartBeat => {
                        // A heartbeat error leaves the inflight alone.
                        Ok(())
                    },
                    RequestId::Data(id) => {
                        // Reset the inflight so the range is retried; a
                        // stale id changes nothing.
                        self.leader.progress.reset_inflight_if_id(target, id);
                        Ok(())
                    },
                }
            },
        };
        let ghost mid = *self;
        // The purge may have been postponed because a replication task was
        // reading the range: re-examine it now that progress moved.
        self.try_purge_log();
        proof {
            if repl_res is Ok {
                assert(response_applied(
                    *old(self),
                    mid,
                    target,
                    request_id,
                    repl_res.unwrap(),
                ));
            } else {
                assert(transport_error_applied(*old(self), mid, target, request_id));
            }
            assert(purge_applied(mid, *self));
        }
        r
    }

    /// Reset every remote inflight and ask the driver to recreate the
    /// per-target send tasks.  Replies to the cancelled requests will be
    /// rejected by request id.
    pub fn rebuild_replication_streams(&mut self)
        requires
            old(self).wf(),
        ensures
            final(self).wf(),
            *final(self) == (ReplicationHandler {
                leader: final(self).leader,
                output: final(self).output,
                ..*old(self)
            }),
            final(self).leader == (Leader {
                progress: final(self).leader.progress,
                ..old(self).leader
            }),
            forall|t: u64|
                final(self).leader.progress.tracked_spec(t) == old(self).leader.progress.tracked_spec(t),
            forall|t: u64|
                old(self).leader.progress.tracked_spec(t) ==> final(self).leader.progress.matching_of(t) == old(self).leader.progress.matching_of(t),
            forall|t: u64|
                old(self).leader.progress.tracked_spec(t) && t != old(self).config.id ==> final(self).leader.progress.entry_of(t).inflight is Idle,
            old(self).output.commands@.is_prefix_of(final(self).output.commands@),
            final(self).output.commands@.len() == old(self).output.commands@.len() + 1,
            final(self).leader.progress.vector@.len() == old(self).leader.progress.vector@.len(),
            final(self).leader.progress.quorum_set == old(self).leader.progress.quorum_set,
            final(self).leader.progress.learners == old(self).leader.progress.learners,
            final(self).leader.progress.granted == old(self).leader.progress.granted,
            forall|t: u64|
                old(self).leader.progress.tracked_spec(t) && t != old(self).config.id ==> final(self).leader.progress.entry_of(t) == (ProgressEntry {
                    inflight: Inflight::Idle,
                    ..old(self).leader.progress.entry_of(t)
                }),
            old(self).leader.progress.tracked_spec(old(self).config.id) ==> final(self).leader.progress.entry_of(old(self).config.id) == old(self).leader.progress.entry_of(old(self).config.id),
            final(self).output.commands@.last() is RebuildReplicationStreams,
            final(self).output.commands@.last() matches Command::RebuildReplicationStreams {
                targets,
            } ==> {
                &&& (forall|k: int|
                    0 <= k < targets@.len() ==> ((#[trigger] targets@[k]).0 != old(self).config.id
                        && final(self).leader.progress.tracked_spec(targets@[k].0)
                        && final(self).leader.progress.entry_of(targets@[k].0) == targets@[k].1))
                &&& (forall|t: u64|
                    old(self).leader.progress.tracked_spec(t) && t != old(self).config.id
                        ==> exists|k: int|
                        0 <= k < targets@.len() && (#[trigger] targets@[k]).0 == t)
            },
    {
        let targets = self.leader.progress.reset_inflights_except(self.config.id);
        let ghost cmds0 = self.output.commands@;
        self.output.push_command(Command::RebuildReplicationStreams { targets });
        proof {
            lemma_push_non_data(
                cmds0,
                Command::RebuildReplicationStreams { targets },
                self.leader.next_request_id,
            );
        }
    }

    /// For every remote target with nothing inflight, decide and emit the
    /// next replication request; with `send_none`, targets that hold the
    /// whole log get a heartbeat instead.
    pub fn initiate_replication(&mut self, send_none: SendNone)
        requires
            old(self).wf(),
            old(self).leader.next_request_id + old(self).leader.progress.vector@.len()
                <= u64::MAX,
        ensures
            final(self).wf(),
            *final(self) == (ReplicationHandler {
                leader: final(self).leader,
                output: final(self).output,
                ..*old(self)
            }),
            final(self).leader == (Leader {
                progress: final(self).leader.progress,
                next_request_id: final(self).leader.next_request_id,
                ..old(self).leader
            }),
            final(self).leader.progress.quorum_set == old(self).leader.progress.quorum_set,
            final(self).leader.progress.learners == old(self).leader.progress.learners,
            final(self).leader.progress.granted == old(self).leader.progress.granted,
            final(self).leader.progress.vector@.len() == old(self).leader.progress.vector@.len(),
            forall|t: u64|
                final(self).leader.progress.tracked_spec(t) == old(self).leader.progress.tracked_spec(t),
            forall|t: u64|
                old(self).leader.progress.tracked_spec(t) ==> final(self).leader.progress.matching_of(t) == old(self).leader.progress.matching_of(t),
            old(self).output.commands@.is_prefix_of(final(self).output.commands@),
            old(self).leader.next_request_id <= final(self).leader.next_request_id,
            forall|i: int|
                old(self).output.commands@.len() <= i < final(self).output.commands@.len()
                    ==> (final(self).output.commands@[i] is Replicate),
            forall|i: int|
                old(self).output.commands@.len() <= i < final(self).output.commands@.len()
                    ==> #[trigger] emitted_ok(
                    old(self).leader.progress.vector@,
                    old(self).config.id,
                    old(self).state,
                    old(self).config.max_payload_entries as int,
                    send_none,
                    old(self).leader.next_request_id,
                    final(self).leader.next_request_id,
                    final(self).output.commands@[i],
                ),
            forall|t: u64|
                old(self).leader.progress.tracked_spec(t) ==> final(self).leader.progress.entry_of(t).end == old(self).leader.progress.entry_of(t).end,
            forall|t: u64|
                old(self).leader.progress.tracked_spec(t) ==> #[trigger] initiate_effect(
                    *old(self),
                    *final(self),
                    send_none,
                    t,
                ),
    {
        let ghost s_old = self.leader.progress.vector@;
        let ghost c0 = self.leader.next_request_id;
        let n = self.leader.progress.vector.len();
        let mut k: usize = 0;
        while k < n
            invariant
                k <= n,
                n == self.leader.progress.vector@.len(),
                self.wf(),
                self.config == old(self).config,
                self.state == old(self).state,
                self.leader.clock_progress == old(self).leader.clock_progress,
                self.leader.progress.quorum_set == old(self).leader.progress.quorum_set,
                self.leader.progress.learners == old(self).leader.progress.learners,
                self.leader.progress.granted == old(self).leader.progress.granted,
                self.leader.progress.vector@.len() == old(self).leader.progress.vector@.len(),
                forall|i: int|
                    0 <= i < n ==> (#[trigger] self.leader.progress.vector@[i]).0 == old(self).leader.progress.vector@[i].0,
                forall|t: u64|
                    self.leader.progress.tracked_spec(t) == old(self).leader.progress.tracked_spec(t),
                forall|t: u64|
                    old(self).leader.progress.tracked_spec(t) ==> self.leader.progress.matching_of(
                        t,
                    ) == old(self).leader.progress.matching_of(t),
                old(self).output.commands@.is_prefix_of(self.output.commands@),
                c0 == old(self).leader.next_request_id,
                c0 <= self.leader.next_request_id,
                self.leader.next_request_id + (n - k) <= u64::MAX,
                forall|i: int|
                    old(self).output.commands@.len() <= i < self.output.commands@.len() ==> (
                    self.output.commands@[i] is Replicate),
                forall|i: int|
                    old(self).output.commands@.len() <= i < self.output.commands@.len()
                        ==> #[trigger] emitted_ok(
                        s_old,
                        old(self).config.id,
                        old(self).state,
                        old(self).config.max_payload_entries as int,
                        send_none,
                        c0,
                        self.leader.next_request_id,
                        self.output.commands@[i],
                    ),
                s_old == old(self).leader.progress.vector@,
                crate::progress::keys_distinct(s_old),
                forall|i: int|
                    k <= i < n ==> (#[trigger] self.leader.progress.vector@[i]).1 == s_old[i].1,
                forall|i: int|
                    0 <= i < k ==> #[trigger] sent_for(
                        s_old,
                        self.leader.progress.vector@,
                        self.output.commands@,
                        c0,
                        self.leader.next_request_id,
                        old(self).config.id,
                        old(self).state,
                        old(self).config.max_payload_entries as int,
                        send_none,
                        i,
                    ),
            decreases n - k,
        {
            let ghost s_pre = self.leader.progress.vector@;
            let ghost cmds_pre = self.output.commands@;
            let ghost c_pre = self.leader.next_request_id;
            let t = self.leader.progress.vector[k].0;
            proof {
                crate::progress::lemma_idx_in(self.leader.progress.vector@, k as int);
            }
            if t == self.config.id {
                proof {
                    lemma_emitted_preserved(
                        s_old,
                        old(self).config.id,
                        old(self).state,
                        old(self).config.max_payload_entries as int,
                        send_none,
                        c0,
                        c_pre,
                        self.leader.next_request_id,
                        cmds_pre,
                        self.output.commands@,
                        old(self).output.commands@.len() as int,
                    );
                    lemma_sent_preserved(
                        s_old,
                        s_pre,
                        self.leader.progress.vector@,
                        cmds_pre,
                        self.output.commands@,
                        c0,
                        c_pre,
                        self.leader.next_request_id,
                        old(self).config.id,
                        old(self).state,
                        old(self).config.max_payload_entries as int,
                        send_none,
                        k as int,
                        t,
                    );
                }
            } else {
                let request_id = self.leader.next_request_id;
                let res = self.leader.progress.next_send(
                    t,
                    &self.state,
                    self.config.max_payload_entries,
                    request_id,
                );
                match res {
                    Ok(inf) => {
                        self.leader.next_request_id = request_id + 1;
                        let ghost cmds0 = self.output.commands@;
                        Self::send_to_target(&mut self.output, &t, &inf);
                        proof {
                            lemma_push_data(
                                cmds0,
                                Command::Replicate { target: t, req: inf },
                                request_id,
                                request_id,
                            );
                            assert(self.output.commands@[self.output.commands@.len() - 1] == (
                            Command::Replicate { target: t, req: inf }));
                            lemma_sent_preserved(
                                s_old,
                                s_pre,
                                self.leader.progress.vector@,
                                cmds_pre,
                                self.output.commands@,
                                c0,
                                c_pre,
                                self.leader.next_request_id,
                                old(self).config.id,
                                old(self).state,
                                old(self).config.max_payload_entries as int,
                                send_none,
                                k as int,
                                t,
                            );
                            // The new position: the decided request was
                            // installed and emitted under id `request_id`.
                            crate::progress::lemma_idx_in(self.leader.progress.vector@, k as int);
                            assert(entry_in(self.leader.progress.vector@, t)
                                == self.leader.progress.vector@[k as int].1);
                            assert(self.leader.progress.vector@[k as int].1 == (ProgressEntry {
                                inflight: crate::progress_entry::send_decision(
                                    s_old[k as int].1,
                                    old(self).state,
                                    old(self).config.max_payload_entries as int,
                                    request_id,
                                ),
                                ..s_old[k as int].1
                            }));
                            assert(self.output.commands@.contains(
                                Command::Replicate {
                                    target: t,
                                    req: crate::progress_entry::send_decision(
                                        s_old[k as int].1,
                                        old(self).state,
                                        old(self).config.max_payload_entries as int,
                                        request_id,
                                    ),
                                },
                            ));
                            assert(emitted_ok(
                                s_old,
                                old(self).config.id,
                                old(self).state,
                                old(self).config.max_payload_entries as int,
                                send_none,
                                c0,
                                self.leader.next_request_id,
                                self.output.commands@.last(),
                            ));
                            assert(forall|i2: int|
                                0 <= i2 < cmds_pre.len() ==> #[trigger] self.output.commands@[i2]
                                    == cmds_pre[i2]);
                            lemma_emitted_preserved(
                                s_old,
                                old(self).config.id,
                                old(self).state,
                                old(self).config.max_payload_entries as int,
                                send_none,
                                c0,
                                c_pre,
                                self.leader.next_request_id,
                                cmds_pre,
                                self.output.commands@,
                                old(self).output.commands@.len() as int,
                            );
                        }
                    },
                    Err(inf) => {
                        let idle = inf.is_idle();
                        if idle {
                            match send_none {
                                SendNone::True => {
                                    let ghost cmds0 = self.output.commands@;
                                    Self::send_to_target(&mut self.output, &t, &inf);
                                    proof {
                                        lemma_push_non_data(
                                            cmds0,
                                            Command::Replicate { target: t, req: inf },
                                            self.leader.next_request_id,
                                        );
                                        assert(self.output.commands@[self.output.commands@.len()
                                            - 1] == (Command::Replicate {
                                            target: t,
                                            req: Inflight::Idle,
                                        }));
                                        assert(emitted_ok(
                                            s_old,
                                            old(self).config.id,
                                            old(self).state,
                                            old(self).config.max_payload_entries as int,
                                            send_none,
                                            c0,
                                            self.leader.next_request_id,
                                            self.output.commands@.last(),
                                        ));
                                        assert(forall|i2: int|
                                            0 <= i2 < cmds_pre.len()
                                                ==> #[trigger] self.output.commands@[i2]
                                                == cmds_pre[i2]);
                                        lemma_emitted_preserved(
                                            s_old,
                                            old(self).config.id,
                                            old(self).state,
                                            old(self).config.max_payload_entries as int,
                                            send_none,
                                            c0,
                                            c_pre,
                                            self.leader.next_request_id,
                                            cmds_pre,
                                            self.output.commands@,
                                            old(self).output.commands@.len() as int,
                                        );
                                        lemma_sent_preserved(
                                            s_old,
                                            s_pre,
                                            self.leader.progress.vector@,
                                            cmds_pre,
                                            self.output.commands@,
                                            c0,
                                            c_pre,
                                            self.leader.next_request_id,
                                            old(self).config.id,
                                            old(self).state,
                                            old(self).config.max_payload_entries as int,
                                            send_none,
                                            k as int,
                                            t,
                                        );
                                    }
                                },
                                SendNone::False => {},
                            }
                        }
                        proof {
                            // The target was either busy or fully caught up.
                            assert(!(s_old[k as int].1.inflight is Idle && next_index_spec(
                                s_old[k as int].1.matching,
                            ) < next_index_spec(old(self).state.last_log_id)));
                            if !(idle && send_none == SendNone::True) {
                                lemma_emitted_preserved(
                                    s_old,
                                    old(self).config.id,
                                    old(self).state,
                                    old(self).config.max_payload_entries as int,
                                    send_none,
                                    c0,
                                    c_pre,
                                    self.leader.next_request_id,
                                    cmds_pre,
                                    self.output.commands@,
                                    old(self).output.commands@.len() as int,
                                );
                                lemma_sent_preserved(
                                    s_old,
                                    s_pre,
                                    self.leader.progress.vector@,
                                    cmds_pre,
                                    self.output.commands@,
                                    c0,
                                    c_pre,
                                    self.leader.next_request_id,
                                    old(self).config.id,
                                    old(self).state,
                                    old(self).config.max_payload_entries as int,
                                    send_none,
                                    k as int,
                                    t,
                                );
                            }
                        }
                    },
                }
            }
            k += 1;
        }
        proof {
            assert forall|t: u64| old(self).leader.progress.tracked_spec(t) implies
                #[trigger] initiate_effect(*old(self), *self, send_none, t) by {
                let i = choose|i: int| 0 <= i < s_old.len() && (#[trigger] s_old[i]).0 == t;
                crate::progress::lemma_idx_in(s_old, i);
                crate::progress::lemma_idx_in(self.leader.progress.vector@, i);
                assert(sent_for(
                    s_old,
                    self.leader.progress.vector@,
                    self.output.commands@,
                    c0,
                    self.leader.next_request_id,
                    old(self).config.id,
                    old(self).state,
                    old(self).config.max_payload_entries as int,
                    send_none,
                    i,
                ));
            }
            assert forall|t: u64| old(self).leader.progress.tracked_spec(t) implies
                self.leader.progress.entry_of(t).end == old(self).leader.progress.entry_of(
                t,
            ).end by {
                let i = choose|i: int| 0 <= i < s_old.len() && (#[trigger] s_old[i]).0 == t;
                crate::progress::lemma_idx_in(s_old, i);
                crate::progress::lemma_idx_in(self.leader.progress.vector@, i);
                assert(sent_for(
                    s_old,
                    self.leader.progress.vector@,
                    self.output.commands@,
                    c0,
                    self.leader.next_request_id,
                    old(self).config.id,
                    old(self).state,
                    old(self).config.max_payload_entries as int,
                    send_none,
                    i,
                ));
            }
        }
    }

    /// Emit one replication request.
    pub fn send_to_target(output: &mut EngineOutput, target: &u64, inflight: &Inflight)
        ensures
            final(output).commands@ == old(output).commands@.push(
                Command::Replicate { target: *target, req: *inflight },
            ),
    {
        output.push_command(Command::Replicate { target: *target, req: *inflight });
    }

    /// Run the pending purge unless a replication task still reads the
    /// range.  When blocked it does nothing; every later progress update
    /// re-examines the precondition.
    pub fn try_purge_log(&mut self)
        requires
            old(self).wf(),
        ensures
            final(self).wf(),
            old(self).output.commands@.is_prefix_of(final(self).output.commands@),
            purge_applied(*old(self), *final(self)),
    {
        let pu = *self.state.purge_upto();
        if crate::log_id::olid_le_exec(&pu, self.state.last_purged_log_id()) {
            proof {
                crate::log_id::lemma_olid_total(pu, self.state.last_purged_log_id);
            }
            return ;
        }
        let upto = match pu {
            Some(u) => u,
            None => {
                proof {
                    assert(false);
                }
                LogId { leader_id: crate::log_id::LeaderId { term: 0, node_id: 0 }, index: 0 }
            },
        };
        let n = self.leader.progress.vector.len();
        let mut in_use = false;
        let mut k: usize = 0;
        while k < n
            invariant
                k <= n,
                n == self.leader.progress.vector@.len(),
                self.leader.progress.wf(),
                in_use == exists|i: int|
                    0 <= i < k && (#[trigger] self.leader.progress.vector@[i]).1.is_log_range_inflight_spec(
                        upto,
                    ),
            decreases n - k,
        {
            let e = self.leader.progress.vector[k].1;
            proof {
                assert(self.leader.progress.vector@[k as int].1.wf());
            }
            if e.is_log_range_inflight(&upto) {
                in_use = true;
                proof {
                    assert(self.leader.progress.vector@[k as int].1.is_log_range_inflight_spec(
                        upto,
                    ));
                }
            }
            k += 1;
        }
        if in_use {
            // The range is still being read: postpone.
            proof {
                assert(upto == old(self).state.purge_upto.unwrap());
                let i = choose|i: int|
                    0 <= i < self.leader.progress.vector@.len() && (
                    #[trigger] self.leader.progress.vector@[i]).1.is_log_range_inflight_spec(upto);
                crate::progress::lemma_idx_in(self.leader.progress.vector@, i);
                let t0 = self.leader.progress.vector@[i].0;
                assert(old(self).leader.progress.tracked_spec(t0));
                assert(old(self).leader.progress.entry_of(t0).is_log_range_inflight_spec(upto));
            }
            return ;
        }
        proof {
            assert forall|t: u64| self.leader.progress.tracked_spec(t) implies !(
            #[trigger] self.leader.progress.entry_of(t)).is_log_range_inflight_spec(upto) by {
                let i = choose|i: int|
                    0 <= i < self.leader.progress.vector@.len() && (
                    #[trigger] self.leader.progress.vector@[i]).0 == t;
                crate::progress::lemma_idx_in(self.leader.progress.vector@, i);
            }
        }
        let lh = self.log_handler();
        let ghost cmds0 = self.output.commands@;
        lh.purge_log(&mut self.state, &mut self.output);
        proof {
            lemma_push_non_data(
                cmds0,
                Command::PurgeLog { upto },
                self.leader.next_request_id,
            );
        }
    }

    /// The leader's own log write completed: count it toward the quorum
    /// without a network round-trip.
    pub fn update_local_progress(&mut self, upto: Option<LogId>)
        requires
            old(self).wf(),
            old(self).leader.next_request_id < u64::MAX,
            upto matches Some(l) ==> l.index < u64::MAX,
        ensures
            final(self).wf(),
            final(self).config == old(self).config,
            olid_le(old(self).state.committed, final(self).state.committed),
            matchings_le(old(self).leader.progress, final(self).leader.progress),
            old(self).output.commands@.is_prefix_of(final(self).output.commands@),
            upto is None ==> *final(self) == *old(self),
            (upto is Some && !old(self).leader.progress.tracked_spec(old(self).config.id)) ==> *final(self) == *old(self),
            (upto is Some && old(self).leader.progress.tracked_spec(old(self).config.id)
                && !olid_lt(
                old(self).leader.progress.entry_of(old(self).config.id).matching,
                upto,
            )) ==> *final(self) == *old(self),
            (upto is Some && old(self).leader.progress.tracked_spec(old(self).config.id)
                && olid_lt(
                old(self).leader.progress.entry_of(old(self).config.id).matching,
                upto,
            )) ==> {
                &&& final(self).leader.clock_progress == old(self).leader.clock_progress
                &&& final(self).leader.next_request_id == old(self).leader.next_request_id + 1
                &&& final(self).leader.progress.quorum_set == old(self).leader.progress.quorum_set
                &&& final(self).leader.progress.learners == old(self).leader.progress.learners
                &&& (forall|t: u64|
                    final(self).leader.progress.tracked_spec(t) == old(self).leader.progress.tracked_spec(t))
                &&& (forall|t: u64|
                    old(self).leader.progress.tracked_spec(t) && t != old(self).config.id ==> final(self).leader.progress.entry_of(t) == old(self).leader.progress.entry_of(t))
                &&& final(self).leader.progress.entry_of(old(self).config.id).matching == upto
                &&& final(self).leader.progress.entry_of(old(self).config.id).inflight is Idle
                &&& olid_le(old(self).leader.progress.granted, final(self).leader.progress.granted)
                &&& commit_outcome(*old(self), *final(self), final(self).leader.progress.granted)
            },
    {
        let upto = match upto {
            Some(u) => u,
            None => {
                return ;
            },
        };
        let id = self.config.id;
        // The leader may no longer be in the membership.
        let entry = match self.leader.progress.get(id) {
            Some(e) => e,
            None => {
                return ;
            },
        };
        if crate::log_id::olid_le_exec(&Some(upto), &entry.matching) {
            proof {
                crate::log_id::lemma_olid_total(Some(upto), entry.matching);
            }
            return ;
        }
        let request_id = self.leader.next_request_id;
        self.leader.next_request_id = request_id + 1;
        proof {
            lemma_ids_lt_weaken(
                self.output.commands@,
                old(self).leader.next_request_id,
                self.leader.next_request_id,
            );
        }
        let inf = Inflight::Logs { id: request_id, prev: None, last: upto };
        self.leader.progress.install_inflight(id, inf);
        self.update_matching(id, request_id, Some(upto));
        proof {
            crate::log_id::lemma_olid_total(
                old(self).leader.progress.entry_of(id).matching,
                Some(upto),
            );
        }
    }

    /// The log handler operating on this engine's state and output.
    pub fn log_handler(&mut self) -> (r: LogHandler)
        ensures
            *final(self) == *old(self),
    {
        LogHandler
    }

    /// The snapshot handler operating on this engine's output.
    pub fn snapshot_handler(&mut self) -> (r: SnapshotHandler)
        ensures
            *final(self) == *old(self),
    {
        SnapshotHandler
    }

    pub fn state(&self) -> (r: &RaftState)
        ensures
            *r == self.state,
    {
        &self.state
    }
}

/// The per-position guarantee `initiate_replication` builds up, for
/// position `i` of the target list as it stood at entry: the leader's own
/// entry and busy entries are untouched; a caught-up idle entry is
/// untouched and, when asked, got a heartbeat; an idle lagging entry got
/// exactly the decided request, under a fresh id, both installed and
/// emitted.
pub open spec fn sent_for(
    s_old: Seq<(u64, ProgressEntry)>,
    s_now: Seq<(u64, ProgressEntry)>,
    cmds: Seq<Command>,
    c0: u64,
    c1: u64,
    self_id: u64,
    state: RaftState,
    mp: int,
    send_none: SendNone,
    i: int,
) -> bool {
    let t = s_old[i].0;
    let e0 = s_old[i].1;
    let e1 = s_now[i].1;
    &&& (t == self_id ==> e1 == e0)
    &&& (t != self_id && !(e0.inflight is Idle) ==> e1 == e0)
    &&& (t != self_id && e0.inflight is Idle && next_index_spec(e0.matching) >= next_index_spec(
        state.last_log_id,
    ) ==> (e1 == e0 && (send_none == SendNone::True ==> cmds.contains(
        Command::Replicate { target: t, req: Inflight::Idle },
    ))))
    &&& (t != self_id && e0.inflight is Idle && next_index_spec(e0.matching) < next_index_spec(
        state.last_log_id,
    ) ==> (exists|rid: u64|
        c0 <= rid < c1 && e1 == (ProgressEntry {
            inflight: crate::progress_entry::send_decision(e0, state, mp, rid),
            ..e0
        }) && #[trigger] cmds.contains(
            Command::Replicate {
                target: t,
                req: crate::progress_entry::send_decision(e0, state, mp, rid),
            },
        )))
}

/// Every command `initiate_replication` appends is a `Replicate` for a
/// remote target that was idle at entry: a heartbeat only when asked and
/// the target held the whole log, else the decided request under a fresh
/// id.
pub open spec fn emitted_ok(
    s_old: Seq<(u64, ProgressEntry)>,
    self_id: u64,
    state: RaftState,
    mp: int,
    send_none: SendNone,
    c0: u64,
    c1: u64,
    c: Command,
) -> bool {
    match c {
        Command::Replicate { target, req } => exists|j: int|
            0 <= j < s_old.len() && (#[trigger] s_old[j]).0 == target && target != self_id
                && s_old[j].1.inflight is Idle && ((req == Inflight::Idle && send_none
                == SendNone::True && next_index_spec(s_old[j].1.matching) >= next_index_spec(
                state.last_log_id,
            )) || (next_index_spec(s_old[j].1.matching) < next_index_spec(state.last_log_id)
                && exists|rid: u64|
                c0 <= rid < c1 && req == crate::progress_entry::send_decision(
                    s_old[j].1,
                    state,
                    mp,
                    rid,
                ))),
        _ => false,
    }
}

/// What `initiate_replication` did for target `t`: `sent_for`, read off
/// the entries instead of positions.
pub open spec fn initiate_effect(
    h0: ReplicationHandler,
    h1: ReplicationHandler,
    send_none: SendNone,
    t: u64,
) -> bool {
    let e0 = h0.leader.progress.entry_of(t);
    let e1 = h1.leader.progress.entry_of(t);
    let cmds = h1.output.commands@;
    let mp = h0.config.max_payload_entries as int;
    &&& (t == h0.config.id ==> e1 == e0)
    &&& (t != h0.config.id && !(e0.inflight is Idle) ==> e1 == e0)
    &&& (t != h0.config.id && e0.inflight is Idle && next_index_spec(e0.matching)
        >= next_index_spec(h0.state.last_log_id) ==> (e1 == e0 && (send_none == SendNone::True
        ==> cmds.contains(Command::Replicate { target: t, req: Inflight::Idle }))))
    &&& (t != h0.config.id && e0.inflight is Idle && next_index_spec(e0.matching)
        < next_index_spec(h0.state.last_log_id) ==> (exists|rid: u64|
        h0.leader.next_request_id <= rid < h1.leader.next_request_id && e1 == (ProgressEntry {
            inflight: crate::progress_entry::send_decision(e0, h0.state, mp, rid),
            ..e0
        }) && #[trigger] cmds.contains(
            Command::Replicate {
                target: t,
                req: crate::progress_entry::send_decision(e0, h0.state, mp, rid),
            },
        )))
}

/// The guarantees already established for processed positions survive one
/// more step: positions other than the one just served are untouched, the
/// command stream only grew, and the id allocator only advanced.
proof fn lemma_sent_preserved(
    s_old: Seq<(u64, ProgressEntry)>,
    sp: Seq<(u64, ProgressEntry)>,
    s_now: Seq<(u64, ProgressEntry)>,
    cmds_pre: Seq<Command>,
    cmds_now: Seq<Command>,
    c0: u64,
    c_pre: u64,
    c_now: u64,
    self_id: u64,
    state: RaftState,
    mp: int,
    send_none: SendNone,
    k: int,
    t: u64,
)
    requires
        crate::progress::keys_distinct(s_old),
        0 <= k < s_old.len(),
        s_old[k].0 == t,
        sp.len() == s_old.len(),
        s_now.len() == s_old.len(),
        forall|i: int| 0 <= i < s_old.len() ==> (#[trigger] sp[i]).0 == s_old[i].0,
        forall|i: int| 0 <= i < s_old.len() ==> (#[trigger] s_now[i]).0 == s_old[i].0,
        forall|i: int|
            0 <= i < s_old.len() && s_old[i].0 != t ==> (#[trigger] s_now[i]).1 == sp[i].1,
        cmds_now == cmds_pre || cmds_now == cmds_pre.push(cmds_now.last()),
        c_pre <= c_now,
        forall|i: int|
            0 <= i < k ==> #[trigger] sent_for(
                s_old,
                sp,
                cmds_pre,
                c0,
                c_pre,
                self_id,
                state,
                mp,
                send_none,
                i,
            ),
    ensures
        forall|i: int|
            0 <= i < k ==> #[trigger] sent_for(
                s_old,
                s_now,
                cmds_now,
                c0,
                c_now,
                self_id,
                state,
                mp,
                send_none,
                i,
            ),
{
    assert forall|i: int| 0 <= i < k implies #[trigger] sent_for(
        s_old,
        s_now,
        cmds_now,
        c0,
        c_now,
        self_id,
        state,
        mp,
        send_none,
        i,
    ) by {
        assert(sent_for(s_old, sp, cmds_pre, c0, c_pre, self_id, state, mp, send_none, i));
        let u = s_old[i].0;
        assert(u != t);
        assert(s_now[i].1 == sp[i].1);
        let e0 = s_old[i].1;
        if u != self_id && e0.inflight is Idle && next_index_spec(e0.matching) >= next_index_spec(
            state.last_log_id,
        ) && send_none == SendNone::True && cmds_now != cmds_pre {
            lemma_contains_after_push(
                cmds_pre,
                cmds_now.last(),
                Command::Replicate { target: u, req: Inflight::Idle },
            );
        }
        if u != self_id && e0.inflight is Idle && next_index_spec(e0.matching) < next_index_spec(
            state.last_log_id,
        ) {
            let rid = choose|rid: u64|
                c0 <= rid < c_pre && sp[i].1 == (ProgressEntry {
                    inflight: crate::progress_entry::send_decision(e0, state, mp, rid),
                    ..e0
                }) && #[trigger] cmds_pre.contains(
                    Command::Replicate {
                        target: u,
                        req: crate::progress_entry::send_decision(e0, state, mp, rid),
                    },
                );
            if cmds_now != cmds_pre {
                lemma_contains_after_push(
                    cmds_pre,
                    cmds_now.last(),
                    Command::Replicate {
                        target: u,
                        req: crate::progress_entry::send_decision(e0, state, mp, rid),
                    },
                );
            }
            assert(cmds_now.contains(
                Command::Replicate {
                    target: u,
                    req: crate::progress_entry::send_decision(e0, state, mp, rid),
                },
            ));
        }
    }
}

/// The emitted-command guarantee survives one more step: earlier commands
/// are untouched and the id allocator only advanced; a newly pushed
/// command must satisfy it on its own.
proof fn lemma_emitted_preserved(
    s_old: Seq<(u64, ProgressEntry)>,
    self_id: u64,
    state: RaftState,
    mp: int,
    send_none: SendNone,
    c0: u64,
    c_pre: u64,
    c_now: u64,
    cmds_pre: Seq<Command>,
    cmds_now: Seq<Command>,
    lo: int,
)
    requires
        0 <= lo,
        c_pre <= c_now,
        cmds_pre.len() <= cmds_now.len(),
        forall|i: int| 0 <= i < cmds_pre.len() ==> #[trigger] cmds_now[i] == cmds_pre[i],
        forall|i: int|
            lo <= i < cmds_pre.len() ==> #[trigger] emitted_ok(
                s_old,
                self_id,
                state,
                mp,
                send_none,
                c0,
                c_pre,
                cmds_pre[i],
            ),
        forall|i: int|
            cmds_pre.len() <= i < cmds_now.len() ==> emitted_ok(
                s_old,
                self_id,
                state,
                mp,
                send_none,
                c0,
                c_now,
                #[trigger] cmds_now[i],
            ),
    ensures
        forall|i: int|
            lo <= i < cmds_now.len() ==> #[trigger] emitted_ok(
                s_old,
                self_id,
                state,
                mp,
                send_none,
                c0,
                c_now,
                cmds_now[i],
            ),
{
    assert forall|i: int| lo <= i < cmds_now.len() implies #[trigger] emitted_ok(
        s_old,
        self_id,
        state,
        mp,
        send_none,
        c0,
        c_now,
        cmds_now[i],
    ) by {
        if i < cmds_pre.len() {
            assert(cmds_now[i] == cmds_pre[i]);
            assert(emitted_ok(s_old, self_id, state, mp, send_none, c0, c_pre, cmds_pre[i]));
            match cmds_pre[i] {
                Command::Replicate { target, req } => {
                    let j = choose|j: int|
                        0 <= j < s_old.len() && (#[trigger] s_old[j]).0 == target && target
                            != self_id && s_old[j].1.inflight is Idle && ((req == Inflight::Idle
                            && send_none == SendNone::True && next_index_spec(s_old[j].1.matching)
                            >= next_index_spec(state.last_log_id)) || (next_index_spec(
                            s_old[j].1.matching,
                        ) < next_index_spec(state.last_log_id) && exists|rid: u64|
                            c0 <= rid < c_pre && req == crate::progress_entry::send_decision(
                                s_old[j].1,
                                state,
                                mp,
                                rid,
                            )));
                    if next_index_spec(s_old[j].1.matching) < next_index_spec(
                        state.last_log_id,
                    ) && !(req == Inflight::Idle && send_none == SendNone::True
                        && next_index_spec(s_old[j].1.matching) >= next_index_spec(
                        state.last_log_id,
                    )) {
                        let rid = choose|rid: u64|
                            c0 <= rid < c_pre && req == crate::progress_entry::send_decision(
                                s_old[j].1,
                                state,
                                mp,
                                rid,
                            );
                        assert(c0 <= rid < c_now);
                    }
                },
                _ => {},
            }
        }
    }
}

} // verus!
