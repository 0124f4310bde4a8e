//! Per-target replication progress: the inflight/matching/conflict state
//! machine.
//!
//! `matching` is the greatest log id the target is known to have accepted;
//! `end` is the exclusive upper bound of the index the leader believes the
//! target could accept next, shrunk on conflicts; `inflight` is the one
//! outstanding request, tagged with a request id so that stale replies are
//! detected.

use vstd::prelude::*;

use crate::log_id::{next_index, next_index_spec, olid_le, olid_max, LogId};
use crate::state::{log_id_at_spec, RaftState};

verus! {

/// The id a replication response carries: a heartbeat has no data id.
#[derive(Clone, Copy, Debug, PartialEq, Eq, Structural)]
pub enum RequestId {
    HeartBeat,
    Data(u64),
}

impl RequestId {
    pub open spec fn request_id_spec(self) -> Option<u64> {
        match self {
            RequestId::HeartBeat => None,
            RequestId::Data(id) => Some(id),
        }
    }

    /// The data id, if this is a data request.
    pub fn request_id(&self) -> (r: Option<u64>)
        ensures
            r == self.request_id_spec(),
    {
        match self {
            RequestId::HeartBeat => None,
            RequestId::Data(id) => Some(*id),
        }
    }
}

/// The one outstanding replication request to a target.
#[derive(Clone, Copy, Debug, PartialEq, Eq, Structural)]
pub enum Inflight {
    /// Nothing is being sent.
    Idle,
    /// A log range `(prev, last]` is being sent.
    Logs { id: u64, prev: Option<LogId>, last: LogId },
    /// A snapshot up to `last_included` is being sent.
    Snapshot { id: u64, last_included: Option<LogId> },
}

impl Inflight {
    pub open spec fn get_id_spec(self) -> Option<u64> {
        match self {
            Inflight::Idle => None,
            Inflight::Logs { id, .. } => Some(id),
            Inflight::Snapshot { id, .. } => Some(id),
        }
    }

    pub fn get_id(&self) -> (r: Option<u64>)
        ensures
            r == self.get_id_spec(),
    {
        match self {
            Inflight::Idle => None,
            Inflight::Logs { id, .. } => Some(*id),
            Inflight::Snapshot { id, .. } => Some(*id),
        }
    }

    pub open spec fn is_idle_spec(self) -> bool {
        self is Idle
    }

    pub fn is_idle(&self) -> (r: bool)
        ensures
            r == self.is_idle_spec(),
    {
        match self {
            Inflight::Idle => true,
            _ => false,
        }
    }

    /// Whether a response tagged `request_id` answers this inflight.
    pub fn is_my_id(&self, request_id: RequestId) -> (r: bool)
        ensures
            r == (request_id.request_id_spec() is Some && self.get_id_spec()
                == request_id.request_id_spec()),
    {
        match request_id {
            RequestId::HeartBeat => false,
            RequestId::Data(id) => {
                match self.get_id() {
                    Some(my) => my == id,
                    None => false,
                }
            },
        }
    }
}

/// Why a progress update was not applied.
#[derive(Clone, Copy, Debug, PartialEq, Eq, Structural)]
pub enum ProgressError {
    /// The response's request id does not match the current inflight.
    StaleRequestId,
    /// A conflict response arrived while no log range was inflight.
    NotLogsInflight,
}

/// The last index of the log range `next_send` would emit, given the
/// target's window and the payload cap.
pub open spec fn send_last_index_spec(
    matching: Option<LogId>,
    end: int,
    last_log_index: int,
    max_payload: int,
) -> int {
    let next = next_index_spec(matching);
    if end > next {
        let capped = if last_log_index <= next + max_payload - 1 {
            last_log_index
        } else {
            next + max_payload - 1
        };
        if end - 1 <= capped {
            end - 1
        } else {
            capped
        }
    } else {
        next
    }
}

/// What `next_send` emits for an idle, lagging entry `e`: a snapshot when
/// the first needed entry is purged, else the log range from `matching`
/// capped by the payload budget and the conflict window.
pub open spec fn send_decision(e: ProgressEntry, state: RaftState, max_payload: int, id: u64) -> Inflight {
    let needs_snapshot = match state.last_purged_log_id {
        Some(p) => next_index_spec(e.matching) <= p.index,
        None => false,
    };
    if needs_snapshot {
        Inflight::Snapshot { id, last_included: state.snapshot_last_log_id }
    } else {
        Inflight::Logs {
            id,
            prev: e.matching,
            last: log_id_at_spec(
                state.log_ids@,
                send_last_index_spec(
                    e.matching,
                    e.end as int,
                    next_index_spec(state.last_log_id) - 1,
                    max_payload,
                ) as u64,
            ),
        }
    }
}

/// Replication progress the leader tracks for one target.
#[derive(Clone, Copy, Debug, PartialEq, Eq, Structural)]
pub struct ProgressEntry {
    /// Greatest log id known accepted by the target.
    pub matching: Option<LogId>,
    /// The outstanding request, if any.
    pub inflight: Inflight,
    /// Exclusive upper bound of the index the target could accept next.
    pub end: u64,
}

impl ProgressEntry {
    /// The entry never believes less than what already matched.
    pub open spec fn wf(self) -> bool {
        next_index_spec(self.matching) <= self.end
    }

    /// A fresh entry: nothing matched, nothing inflight.
    pub open spec fn empty_spec(end: u64) -> ProgressEntry {
        ProgressEntry { matching: None, inflight: Inflight::Idle, end }
    }

    pub fn empty(end: u64) -> (r: ProgressEntry)
        ensures
            r == ProgressEntry::empty_spec(end),
            r.wf(),
    {
        ProgressEntry { matching: None, inflight: Inflight::Idle, end }
    }

    /// Apply a successful replication response: the target accepted up to
    /// `log_id`.  Fails, changing nothing, when `request_id` does not match
    /// the inflight (a stale reply).
    pub fn update_matching(&mut self, request_id: u64, log_id: Option<LogId>) -> (r: Result<
        (),
        ProgressError,
    >)
        requires
            old(self).wf(),
            log_id matches Some(l) ==> l.index < u64::MAX,
        ensures
            final(self).wf(),
            (r is Ok) == (old(self).inflight.get_id_spec() == Some(request_id)),
            r is Err ==> (*final(self) == *old(self) && r == Err::<(), ProgressError>(
                ProgressError::StaleRequestId,
            )),
            r is Ok ==> final(self).matching == (if olid_le(old(self).matching, log_id) {
                log_id
            } else {
                old(self).matching
            }),
            r is Ok ==> final(self).inflight is Idle,
            r is Ok ==> final(self).end == (if old(self).end >= next_index_spec(
                final(self).matching,
            ) {
                old(self).end as int
            } else {
                next_index_spec(final(self).matching)
            }),
            olid_le(old(self).matching, final(self).matching),
    {
        let matches_id = match self.inflight.get_id() {
            Some(id) => id == request_id,
            None => false,
        };
        if !matches_id {
            return Err(ProgressError::StaleRequestId);
        }
        self.matching = olid_max(self.matching, log_id);
        let next = next_index(&self.matching);
        if next > self.end {
            self.end = next;
        }
        self.inflight = Inflight::Idle;
        Ok(())
    }

    /// Apply a conflict response: the target rejected the range, naming the
    /// conflicting index.  Shrinks the send window; never touches
    /// `matching`.  Fails, changing nothing, on a stale id or when no log
    /// range is inflight.
    pub fn update_conflicting(&mut self, request_id: u64, conflict: u64) -> (r: Result<
        (),
        ProgressError,
    >)
        requires
            old(self).wf(),
        ensures
            final(self).wf(),
            (r is Ok) == (old(self).inflight matches Inflight::Logs { id, .. } && id == request_id),
            r is Err ==> *final(self) == *old(self),
            (r is Err && old(self).inflight.get_id_spec() != Some(request_id)) ==> r == Err::<
                (),
                ProgressError,
            >(ProgressError::StaleRequestId),
            r is Ok ==> final(self).matching == old(self).matching,
            r is Ok ==> final(self).inflight is Idle,
            r is Ok ==> final(self).end == {
                let shrunk = if conflict <= old(self).end {
                    conflict as int
                } else {
                    old(self).end as int
                };
                if shrunk >= next_index_spec(old(self).matching) {
                    shrunk
                } else {
                    next_index_spec(old(self).matching)
                }
            },
    {
        let matches_id = match self.inflight.get_id() {
            Some(id) => id == request_id,
            None => false,
        };
        if !matches_id {
            return Err(ProgressError::StaleRequestId);
        }
        match self.inflight {
            Inflight::Logs { .. } => {},
            _ => {
                return Err(ProgressError::NotLogsInflight);
            },
        }
        if conflict < self.end {
            self.end = conflict;
        }
        let next = next_index(&self.matching);
        if next > self.end {
            self.end = next;
        }
        self.inflight = Inflight::Idle;
        Ok(())
    }

    /// Whether this entry's inflight log range still reads an index at or
    /// below `upto`, which blocks purging up to `upto`.
    pub open spec fn is_log_range_inflight_spec(self, upto: LogId) -> bool {
        match self.inflight {
            Inflight::Logs { prev, .. } => next_index_spec(prev) <= upto.index,
            _ => false,
        }
    }

    pub fn is_log_range_inflight(&self, upto: &LogId) -> (r: bool)
        requires
            self.wf(),
        ensures
            r == self.is_log_range_inflight_spec(*upto),
    {
        match &self.inflight {
            Inflight::Logs { prev, .. } => {
                match prev {
                    None => true,
                    Some(p) => p.index < upto.index,
                }
            },
            _ => false,
        }
    }

    /// Decide what to send next to this target: a log range from `matching`,
    /// a snapshot when the needed entries are purged, or nothing.  On
    /// success the new inflight is installed, tagged `request_id`.  Fails
    /// with the current inflight when one is outstanding or when the target
    /// already holds the whole log.
    pub fn next_send(
        &mut self,
        state: &RaftState,
        max_payload_entries: u64,
        request_id: u64,
    ) -> (r: Result<Inflight, Inflight>)
        requires
            old(self).wf(),
            state.wf(),
            max_payload_entries >= 1,
        ensures
            final(self).wf(),
            final(self).matching == old(self).matching,
            final(self).end == old(self).end,
            r is Err ==> *final(self) == *old(self) && r == Err::<Inflight, Inflight>(
                old(self).inflight,
            ),
            (r is Ok) == (old(self).inflight is Idle && next_index_spec(old(self).matching)
                < next_index_spec(state.last_log_id)),
            r matches Ok(inf) ==> final(self).inflight == inf && inf.get_id_spec() == Some(
                request_id,
            ),
            r matches Ok(inf) ==> inf == send_decision(
                *old(self),
                *state,
                max_payload_entries as int,
                request_id,
            ),
            r matches Ok(inf) ==> (inf matches Inflight::Snapshot { id, last_included } ==> (
            last_included == state.snapshot_last_log_id && (state.last_purged_log_id matches Some(
                p,
            ) && next_index_spec(old(self).matching) <= p.index))),
            r matches Ok(inf) ==> (inf matches Inflight::Logs { id, prev, last } ==> {
                &&& prev == old(self).matching
                &&& (match state.last_purged_log_id {
                    Some(p) => next_index_spec(old(self).matching) > p.index,
                    None => true,
                })
                &&& last == log_id_at_spec(
                    state.log_ids@,
                    send_last_index_spec(
                        old(self).matching,
                        old(self).end as int,
                        next_index_spec(state.last_log_id) - 1,
                        max_payload_entries as int,
                    ) as u64,
                )
                &&& next_index_spec(prev) <= last.index < next_index_spec(state.last_log_id)
                &&& last.index < old(self).end + max_payload_entries
            }),
    {
        if !self.inflight.is_idle() {
            return Err(self.inflight);
        }
        let next = next_index(&self.matching);
        let last_next = next_index(state.last_log_id());
        if next >= last_next {
            return Err(self.inflight);
        }
        let needs_snapshot = match state.last_purged_log_id() {
            None => false,
            Some(p) => next <= p.index,
        };
        if needs_snapshot {
            let inf = Inflight::Snapshot {
                id: request_id,
                last_included: state.snapshot_last_log_id,
            };
            self.inflight = inf;
            return Ok(inf);
        }
        // The last log id exists: the log is nonempty past `next`.
        let last_log = match state.last_log_id() {
            Some(l) => *l,
            None => {
                proof {
                    assert(false);
                }
                LogId { leader_id: crate::log_id::LeaderId { term: 0, node_id: 0 }, index: 0 }
            },
        };
        let mut li: u64 = last_log.index;
        if self.end > next {
            // Cap by the payload budget, then by the conflict window.
            if li - next >= max_payload_entries {
                li = next + (max_payload_entries - 1);
            }
            if self.end - 1 < li {
                li = self.end - 1;
            }
        } else {
            // Empty window: probe the single next entry.
            li = next;
        }
        let last = if li == last_log.index {
            proof {
                assert(state.log_ids@.take(state.log_ids@.len() as int) =~= state.log_ids@);
                assert(log_id_at_spec(state.log_ids@, li) == last_log);
            }
            last_log
        } else {
            state.log_id_at(li)
        };
        let inf = Inflight::Logs { id: request_id, prev: self.matching, last };
        self.inflight = inf;
        Ok(inf)
    }
}

} // verus!
