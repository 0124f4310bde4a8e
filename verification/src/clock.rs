//! Leader-clock progress: the instant each target last acknowledged this
//! leader, and the quorum-acknowledged instant (the leader-lease
//! watermark).
//!
//! The shape and the accepted-value computation are those of `Progress`;
//! an acknowledged instant is held as a log id with a fixed leader id, so
//! the order on optional log ids restricted to these values is exactly the
//! order on optional instants.

use vstd::prelude::*;

use crate::log_id::{LeaderId, LogId};
use crate::progress::Progress;
use crate::progress_entry::ProgressEntry;
use crate::quorum::{is_voter_spec, qs_wf, QuorumSet};

verus! {

/// The fixed leader id under which instants are encoded.
pub open spec fn clock_leader_id() -> LeaderId {
    LeaderId { term: 0, node_id: 0 }
}

/// Encode an instant as a log id.
pub open spec fn enc_instant(t: u64) -> LogId {
    LogId { leader_id: clock_leader_id(), index: t }
}

/// Decode an optional encoded instant.
pub open spec fn dec_instant(l: Option<LogId>) -> Option<u64> {
    match l {
        None => None,
        Some(x) => Some(x.index),
    }
}

/// Per-target acknowledged instants and the quorum-acknowledged one.
#[derive(Clone, Debug, PartialEq, Eq)]
pub struct ClockProgress {
    pub inner: Progress,
}

impl ClockProgress {
    /// Every held value is an encoded instant.
    pub open spec fn encoded(self) -> bool {
        forall|t: u64|
            self.inner.tracked_spec(t) ==> (#[trigger] self.inner.matching_of(t) matches Some(l)
                ==> l.leader_id == clock_leader_id())
    }

    pub open spec fn wf(self) -> bool {
        self.inner.wf() && self.encoded()
    }

    pub open spec fn tracked_spec(self, t: u64) -> bool {
        self.inner.tracked_spec(t)
    }

    /// The instant `t` last acknowledged, if any.
    pub open spec fn value_of(self, t: u64) -> Option<u64> {
        dec_instant(self.inner.matching_of(t))
    }

    /// The quorum-acknowledged instant.
    pub open spec fn granted_spec(self) -> Option<u64> {
        dec_instant(self.inner.granted)
    }

    /// Raise `target`'s acknowledged instant to at least `t` and return
    /// the fresh quorum-acknowledged instant.  Per-target values are
    /// monotone; after a membership change the quorum-acknowledged value
    /// itself may move down.
    pub fn increase_to(&mut self, target: u64, t: u64) -> (r: Option<u64>)
        requires
            old(self).wf(),
            old(self).tracked_spec(target),
            t < u64::MAX,
        ensures
            final(self).wf(),
            forall|u: u64| final(self).tracked_spec(u) == old(self).tracked_spec(u),
            final(self).value_of(target) == (match old(self).value_of(target) {
                Some(v) => if v > t {
                    Some(v)
                } else {
                    Some(t)
                },
                None => Some(t),
            }),
            forall|u: u64|
                old(self).tracked_spec(u) && u != target ==> final(self).value_of(u) == old(
                    self,
                ).value_of(u),
            r == final(self).granted_spec(),
            final(self).inner.quorum_set == old(self).inner.quorum_set,
            final(self).inner.learners == old(self).inner.learners,
            match (old(self).granted_spec(), final(self).granted_spec()) {
                (Some(v0), Some(v1)) => v0 <= v1,
                (Some(_), None) => false,
                (None, _) => true,
            },
    {
        proof {
            lemma_granted_encoded(*self);
        }
        let l = LogId { leader_id: crate::log_id::LeaderId { term: 0, node_id: 0 }, index: t };
        let g = self.inner.increase_matching(target, Some(l));
        proof {
            assert(self.encoded()) by {
                assert forall|u: u64|
                    self.inner.tracked_spec(u) implies (#[trigger] self.inner.matching_of(
                    u,
                ) matches Some(x) ==> x.leader_id == clock_leader_id()) by {
                    if u != target {
                        assert(self.inner.matching_of(u) == old(self).inner.matching_of(u));
                    }
                }
            }
        }
        proof {
            lemma_granted_encoded(*self);
        }
        match g {
            None => None,
            Some(x) => Some(x.index),
        }
    }

    /// Build the clock progress for a new membership: survivors keep
    /// their acknowledged instants, new targets start unacknowledged.
    pub fn upgrade_quorum_set(&self, quorum_set: QuorumSet, learner_ids: Vec<u64>) -> (r:
        ClockProgress)
        requires
            self.wf(),
            qs_wf(quorum_set),
        ensures
            r.wf(),
            r.inner.quorum_set == quorum_set,
            forall|t: u64|
                r.tracked_spec(t) <==> (is_voter_spec(quorum_set, t) || learner_ids@.contains(t)),
            forall|t: u64|
                r.tracked_spec(t) ==> r.value_of(t) == (if self.tracked_spec(t) {
                    self.value_of(t)
                } else {
                    None::<u64>
                }),
    {
        let default_entry = ProgressEntry::empty(0);
        let inner = self.inner.upgrade_quorum_set(quorum_set, learner_ids, default_entry);
        let r = ClockProgress { inner };
        proof {
            assert forall|t: u64|
                r.inner.tracked_spec(t) implies (#[trigger] r.inner.matching_of(t) matches Some(l)
                ==> l.leader_id == clock_leader_id()) by {
                if self.inner.tracked_spec(t) {
                    assert(r.inner.entry_of(t) == self.inner.entry_of(t));
                    assert(r.inner.matching_of(t) == self.inner.matching_of(t));
                    assert(self.inner.matching_of(t) matches Some(l) ==> l.leader_id
                        == clock_leader_id());
                } else {
                    assert(r.inner.entry_of(t) == default_entry);
                    assert(r.inner.matching_of(t) is None);
                }
            }
        }
        r
    }
}

/// The quorum-acknowledged value of a well-formed clock progress is an
/// encoded instant: it is some voter's acknowledged value (or `None`).
proof fn lemma_granted_encoded(c: ClockProgress)
    requires
        c.wf(),
    ensures
        c.inner.granted matches Some(l) ==> l.leader_id == clock_leader_id(),
{
    if c.inner.granted is Some {
        let i = choose|i: int|
            0 <= i < c.inner.vector@.len() && is_voter_spec(
                c.inner.quorum_set,
                (#[trigger] c.inner.vector@[i]).0,
            ) && c.inner.vector@[i].1.matching == c.inner.granted;
        crate::progress::lemma_idx_in(c.inner.vector@, i);
        assert(c.inner.tracked_spec(c.inner.vector@[i].0));
        assert(c.inner.matching_of(c.inner.vector@[i].0) == c.inner.granted);
    }
}

} // verus!
