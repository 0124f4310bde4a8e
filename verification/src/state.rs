//! The slice of Raft state the replication core reads and writes.
//!
//! Besides the vote and the commit/purge watermarks this holds a compressed
//! list of key log ids: the first log id proposed by each leader plus the
//! last log id, enough to answer which leader proposed the entry at a given
//! index.

use vstd::prelude::*;

use crate::log_id::{leader_id_le, next_index_spec, olid_le, olid_lt, LeaderId, LogId};
use crate::quorum::{clone_vec_u64, qs_view_eq, QuorumSet};

verus! {

/// The vote this node currently holds; its leader id stamps committed entries.
#[derive(Clone, Copy, Debug, PartialEq, Eq, Structural)]
pub struct Vote {
    pub leader_id: LeaderId,
}

impl Vote {
    /// Whether a committed-entry leader id is the one this vote elected.
    pub open spec fn is_same_leader_spec(self, l: LeaderId) -> bool {
        self.leader_id == l
    }

    pub fn is_same_leader(&self, l: &LeaderId) -> (r: bool)
        ensures
            r == self.is_same_leader_spec(*l),
    {
        self.leader_id == *l
    }
}

#[derive(Clone, Copy, Debug, PartialEq, Eq, Structural)]
pub enum ServerState {
    Follower,
    Candidate,
    Leader,
}

/// A voter configuration plus the learners replicated to but not counted.
#[derive(Clone, Debug, PartialEq, Eq)]
#[verifier::ext_equal]
pub struct Membership {
    pub voters: QuorumSet,
    pub learners: Vec<u64>,
}

impl Membership {
    pub open spec fn wf(self) -> bool {
        &&& self.voters.wf()
        &&& crate::quorum::sorted_distinct(self.learners@)
        &&& forall|i: int|
            0 <= i < self.learners@.len() ==> !crate::quorum::is_voter_spec(
                self.voters,
                #[trigger] self.learners@[i],
            )
    }

    pub fn to_quorum_set(&self) -> (r: QuorumSet)
        ensures
            qs_view_eq(r, self.voters),
    {
        self.voters.duplicate()
    }

    pub fn learner_ids(&self) -> (r: Vec<u64>)
        ensures
            r@ == self.learners@,
    {
        clone_vec_u64(&self.learners)
    }

    /// A copy of this membership with the same voters and learners.
    pub fn duplicate(&self) -> (r: Membership)
        ensures
            qs_view_eq(r.voters, self.voters),
            r.learners@ == self.learners@,
            r.wf() == self.wf(),
    {
        let r = Membership {
            voters: self.voters.duplicate(),
            learners: clone_vec_u64(&self.learners),
        };
        proof {
            crate::quorum::lemma_qs_view_eq_props(r.voters, self.voters);
        }
        r
    }
}

/// The most recent membership log entry, committed or not.
#[derive(Clone, Debug, PartialEq, Eq)]
#[verifier::ext_equal]
pub struct EffectiveMembership {
    pub log_id: Option<LogId>,
    pub membership: Membership,
}

/// The committed membership and the effective (possibly uncommitted) one.
#[derive(Clone, Debug, PartialEq, Eq)]
pub struct MembershipState {
    pub committed: EffectiveMembership,
    pub effective: EffectiveMembership,
}

impl MembershipState {
    /// Install a newly appended membership as the effective one.
    pub fn append(&mut self, em: EffectiveMembership)
        ensures
            final(self).effective == em,
            final(self).committed == old(self).committed,
    {
        self.effective = em;
    }

    pub fn effective(&self) -> (r: &EffectiveMembership)
        ensures
            *r == self.effective,
    {
        &self.effective
    }
}

/// Leader id of the key-log-id segment covering index `i`.
pub open spec fn seg_leader(s: Seq<LogId>, i: int) -> LeaderId
    decreases s.len(),
{
    if s.len() == 0 {
        arbitrary()
    } else if s.last().index <= i {
        s.last().leader_id
    } else {
        seg_leader(s.drop_last(), i)
    }
}

/// The log id at index `i`, reconstructed from the key log ids.
pub open spec fn log_id_at_spec(s: Seq<LogId>, i: u64) -> LogId {
    LogId { leader_id: seg_leader(s, i as int), index: i }
}

/// The read/write slice of Raft state used by the replication core.
#[derive(Clone, Debug, PartialEq, Eq)]
pub struct RaftState {
    pub vote: Vote,
    pub server_state: ServerState,
    pub membership_state: MembershipState,
    pub last_log_id: Option<LogId>,
    /// First log id of each leader segment, plus the last log id.
    pub log_ids: Vec<LogId>,
    pub committed: Option<LogId>,
    pub last_purged_log_id: Option<LogId>,
    pub purge_upto: Option<LogId>,
    pub snapshot_last_log_id: Option<LogId>,
}

impl RaftState {
    pub open spec fn wf(self) -> bool {
        &&& olid_le(self.last_purged_log_id, self.purge_upto)
        &&& olid_le(self.purge_upto, self.committed)
        &&& (self.purge_upto matches Some(p) ==> next_index_spec(self.last_purged_log_id)
            <= p.index + 1)
        &&& next_index_spec(self.last_log_id) <= u64::MAX
        &&& (self.last_log_id is None <==> self.log_ids@.len() == 0)
        &&& (self.log_ids@.len() > 0 ==> self.last_log_id == Some(self.log_ids@.last()))
        &&& (forall|i: int, j: int|
            0 <= i < j < self.log_ids@.len() ==> self.log_ids@[i].index < self.log_ids@[j].index)
        &&& (forall|i: int, j: int|
            0 <= i < j < self.log_ids@.len() ==> leader_id_le(
                self.log_ids@[i].leader_id,
                self.log_ids@[j].leader_id,
            ))
        &&& (self.log_ids@.len() > 0 ==> self.log_ids@[0].index <= next_index_spec(
            self.last_purged_log_id,
        ))
        &&& self.membership_state.effective.membership.wf()
        &&& self.membership_state.committed.membership.wf()
    }

    /// A fresh leader-side state: empty log, nothing committed or purged.
    pub fn new(vote: Vote, membership: Membership) -> (r: RaftState)
        requires
            membership.wf(),
        ensures
            r.wf(),
            r.vote == vote,
            r.server_state == ServerState::Leader,
            r.membership_state.effective.membership == membership,
            r.last_log_id is None,
            r.committed is None,
            r.last_purged_log_id is None,
            r.purge_upto is None,
    {
        let em_committed = EffectiveMembership { log_id: None, membership: membership.duplicate() };
        let em = EffectiveMembership { log_id: None, membership };
        RaftState {
            vote,
            server_state: ServerState::Leader,
            membership_state: MembershipState { committed: em_committed, effective: em },
            last_log_id: None,
            log_ids: Vec::new(),
            committed: None,
            last_purged_log_id: None,
            purge_upto: None,
            snapshot_last_log_id: None,
        }
    }

    pub fn last_log_id(&self) -> (r: &Option<LogId>)
        ensures
            *r == self.last_log_id,
    {
        &self.last_log_id
    }

    pub fn committed(&self) -> (r: &Option<LogId>)
        ensures
            *r == self.committed,
    {
        &self.committed
    }

    pub fn last_purged_log_id(&self) -> (r: &Option<LogId>)
        ensures
            *r == self.last_purged_log_id,
    {
        &self.last_purged_log_id
    }

    pub fn purge_upto(&self) -> (r: &Option<LogId>)
        ensures
            *r == self.purge_upto,
    {
        &self.purge_upto
    }

    pub fn vote_ref(&self) -> (r: &Vote)
        ensures
            *r == self.vote,
    {
        &self.vote
    }

    /// Whether this node is the established leader under its own vote.
    pub fn is_leader(&self, id: &u64) -> (r: bool)
        ensures
            r == (self.server_state == ServerState::Leader && self.vote.leader_id.node_id == id),
    {
        match self.server_state {
            ServerState::Leader => self.vote.leader_id.node_id == *id,
            _ => false,
        }
    }

    /// Append the next log id; it must continue the log contiguously and
    /// not go back to an earlier leader.
    pub fn append_log_id(&mut self, l: LogId)
        requires
            old(self).wf(),
            l.index < u64::MAX,
            l.index == (match old(self).last_log_id {
                Some(_) => next_index_spec(old(self).last_log_id),
                None => next_index_spec(old(self).last_purged_log_id),
            }),
            match old(self).last_log_id {
                Some(x) => leader_id_le(x.leader_id, l.leader_id),
                None => true,
            },
        ensures
            final(self).wf(),
            final(self).last_log_id == Some(l),
            final(self).committed == old(self).committed,
            final(self).last_purged_log_id == old(self).last_purged_log_id,
            final(self).purge_upto == old(self).purge_upto,
            final(self).vote == old(self).vote,
            final(self).server_state == old(self).server_state,
            final(self).membership_state == old(self).membership_state,
            final(self).snapshot_last_log_id == old(self).snapshot_last_log_id,
    {
        let n = self.log_ids.len();
        let ghost olds = self.log_ids@;
        if n >= 2 && self.log_ids[n - 2].leader_id == l.leader_id {
            let _ = self.log_ids.pop();
            self.log_ids.push(l);
            proof {
                let s2 = self.log_ids@;
                assert(s2 =~= olds.update(n - 1, l));
                assert(olds.last() == olds[n - 1]);
                assert forall|i: int, j: int| 0 <= i < j < s2.len() implies s2[i].index
                    < s2[j].index by {
                    if j < n - 1 {
                        assert(olds[i].index < olds[j].index);
                    } else {
                        assert(i < n - 1 ==> olds[i].index <= olds[n - 1].index);
                    }
                }
                assert forall|i: int, j: int| 0 <= i < j < s2.len() implies leader_id_le(
                    s2[i].leader_id,
                    s2[j].leader_id,
                ) by {
                    if j == n - 1 {
                        assert(i <= n - 2);
                        let pv = olds[n - 2];
                        assert(i < n - 2 ==> leader_id_le(olds[i].leader_id, pv.leader_id));
                        assert(pv.leader_id == l.leader_id);
                    }
                }
            }
        } else {
            self.log_ids.push(l);
            proof {
                let s2 = self.log_ids@;
                assert(s2 =~= olds.push(l));
                if n > 0 {
                    assert(olds.last() == olds[n - 1]);
                    assert forall|i: int, j: int| 0 <= i < j < s2.len() implies s2[i].index
                        < s2[j].index by {
                        if j == n {
                            assert(i < n - 1 ==> olds[i].index < olds[n - 1].index);
                        }
                    }
                    assert forall|i: int, j: int| 0 <= i < j < s2.len() implies leader_id_le(
                        s2[i].leader_id,
                        s2[j].leader_id,
                    ) by {
                        if j == n {
                            let pv = olds[n - 1];
                            assert(i < n - 1 ==> leader_id_le(olds[i].leader_id, pv.leader_id));
                        }
                    }
                }
            }
        }
        self.last_log_id = Some(l);
    }

    /// Raise `committed` if `granted` is greater; report the previous value.
    pub fn update_committed(&mut self, granted: &Option<LogId>) -> (r: Option<Option<LogId>>)
        requires
            old(self).wf(),
        ensures
            final(self).wf(),
            olid_le(old(self).committed, final(self).committed),
            olid_lt(old(self).committed, *granted) ==> (r == Some(old(self).committed)
                && final(self).committed == *granted),
            !olid_lt(old(self).committed, *granted) ==> (r is None
                && final(self).committed == old(self).committed),
            *final(self) == (RaftState { committed: final(self).committed, ..*old(self) }),
    {
        if crate::log_id::olid_lt_exec(&self.committed, granted) {
            let prev = self.committed;
            self.committed = *granted;
            proof {
                crate::log_id::lemma_olid_trans(self.purge_upto, prev, self.committed);
            }
            Some(prev)
        } else {
            None
        }
    }

    /// Record the intent to purge the log up to `p`.
    pub fn set_purge_upto(&mut self, p: LogId)
        requires
            old(self).wf(),
            olid_le(old(self).last_purged_log_id, Some(p)),
            olid_le(Some(p), old(self).committed),
            next_index_spec(old(self).last_purged_log_id) <= p.index + 1,
        ensures
            final(self).wf(),
            final(self).purge_upto == Some(p),
            *final(self) == (RaftState { purge_upto: Some(p), ..*old(self) }),
    {
        self.purge_upto = Some(p);
    }

    /// Leader id of the entry at `index`, from the key log ids.
    pub fn log_id_at(&self, index: u64) -> (r: LogId)
        requires
            self.wf(),
            self.log_ids@.len() > 0,
            self.log_ids@[0].index <= index,
        ensures
            r == log_id_at_spec(self.log_ids@, index),
    {
        let mut k = self.log_ids.len();
        proof {
            assert(self.log_ids@.take(k as int) =~= self.log_ids@);
        }
        while k > 0 && self.log_ids[k - 1].index > index
            invariant
                1 <= k <= self.log_ids@.len(),
                self.log_ids@.len() > 0,
                self.log_ids@[0].index <= index,
                seg_leader(self.log_ids@, index as int) == seg_leader(
                    self.log_ids@.take(k as int),
                    index as int,
                ),
            decreases k,
        {
            proof {
                assert(k >= 2);
                assert(self.log_ids@.take(k as int).drop_last() =~= self.log_ids@.take(k - 1));
                assert(self.log_ids@.take(k as int).last() == self.log_ids@[k - 1]);
            }
            k -= 1;
        }
        proof {
            assert(self.log_ids@.take(k as int).last() == self.log_ids@[k - 1]);
        }
        LogId { leader_id: self.log_ids[k - 1].leader_id, index }
    }
}

} // verus!
