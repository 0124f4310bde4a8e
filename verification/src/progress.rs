//! Progress over all replication targets and the quorum-accepted log id.
//!
//! `Progress` maps each target (voters and learners) to its
//! `ProgressEntry` and caches the quorum-accepted value: the greatest
//! matching log id `v` such that the targets whose matching is at least
//! `v` form a quorum.  During joint consensus that means a majority of
//! both configurations.

use vstd::prelude::*;

use crate::log_id::{lemma_olid_total, lemma_olid_trans, olid_le, olid_lt, olid_lt_exec, LogId};
use crate::progress_entry::{Inflight, ProgressEntry, ProgressError};
use crate::quorum::{is_quorum_spec, is_voter_spec, qs_wf, QuorumSet};

verus! {

/// Whether the target list `s` holds an entry for `t`.
pub open spec fn tracked_in(s: Seq<(u64, ProgressEntry)>, t: u64) -> bool {
    exists|i: int| 0 <= i < s.len() && (#[trigger] s[i]).0 == t
}

/// The position of `t`'s entry (unique when keys are distinct).
pub open spec fn idx_in(s: Seq<(u64, ProgressEntry)>, t: u64) -> int {
    choose|i: int| 0 <= i < s.len() && (#[trigger] s[i]).0 == t
}

pub open spec fn entry_in(s: Seq<(u64, ProgressEntry)>, t: u64) -> ProgressEntry {
    s[idx_in(s, t)].1
}

pub open spec fn matching_in(s: Seq<(u64, ProgressEntry)>, t: u64) -> Option<LogId> {
    entry_in(s, t).matching
}

/// The targets in `s` whose matching is at least `v`.
pub open spec fn granted_set_of(s: Seq<(u64, ProgressEntry)>, v: Option<LogId>) -> Set<u64> {
    Set::new(|t: u64| tracked_in(s, t) && olid_le(v, matching_in(s, t)))
}

/// Keys of `s` are pairwise distinct.
pub open spec fn keys_distinct(s: Seq<(u64, ProgressEntry)>) -> bool {
    forall|a: int, b: int| 0 <= a < b < s.len() ==> (#[trigger] s[a]).0 != (#[trigger] s[b]).0
}

/// `g` is the quorum-accepted value of `s` under `qs`: granted by a
/// quorum, no greater value is, and it is some voter's matching (or the
/// bottom `None`).
pub open spec fn accepted_ok(s: Seq<(u64, ProgressEntry)>, qs: QuorumSet, g: Option<LogId>) -> bool {
    &&& is_quorum_spec(qs, granted_set_of(s, g))
    &&& forall|v: Option<LogId>|
        olid_lt(g, v) ==> !is_quorum_spec(qs, #[trigger] granted_set_of(s, v))
    &&& (g is Some ==> exists|i: int|
        0 <= i < s.len() && is_voter_spec(qs, (#[trigger] s[i]).0) && s[i].1.matching == g)
}

/// The per-target progress map, the quorum set it is judged under, and the
/// cached quorum-accepted value.
#[derive(Clone, Debug, PartialEq, Eq)]
pub struct Progress {
    /// Target id paired with its progress; keys are distinct.
    pub vector: Vec<(u64, ProgressEntry)>,
    /// The voter configuration(s).
    pub quorum_set: QuorumSet,
    /// Targets replicated to but not counted for quorum.
    pub learners: Vec<u64>,
    /// Cached quorum-accepted value.
    pub granted: Option<LogId>,
}

impl Progress {
    pub open spec fn tracked_spec(self, t: u64) -> bool {
        tracked_in(self.vector@, t)
    }

    pub open spec fn entry_of(self, t: u64) -> ProgressEntry {
        entry_in(self.vector@, t)
    }

    pub open spec fn matching_of(self, t: u64) -> Option<LogId> {
        matching_in(self.vector@, t)
    }

    pub open spec fn granted_set(self, v: Option<LogId>) -> Set<u64> {
        granted_set_of(self.vector@, v)
    }

    /// The cached value really is the quorum-accepted value.
    pub open spec fn granted_ok(self) -> bool {
        accepted_ok(self.vector@, self.quorum_set, self.granted)
    }

    /// Everything but the cached value: distinct keys, well-formed entries,
    /// every voter and learner tracked, every key a voter or learner.
    pub open spec fn wf_base(self) -> bool {
        &&& keys_distinct(self.vector@)
        &&& (forall|i: int| 0 <= i < self.vector@.len() ==> (#[trigger] self.vector@[i]).1.wf())
        &&& qs_wf(self.quorum_set)
        &&& (forall|t: u64| is_voter_spec(self.quorum_set, t) ==> tracked_in(self.vector@, t))
        &&& (forall|i: int|
            0 <= i < self.learners@.len() ==> tracked_in(
                self.vector@,
                #[trigger] self.learners@[i],
            ))
        &&& (forall|i: int|
            0 <= i < self.vector@.len() ==> (is_voter_spec(
                self.quorum_set,
                (#[trigger] self.vector@[i]).0,
            ) || self.learners@.contains(self.vector@[i].0)))
    }

    pub open spec fn wf(self) -> bool {
        self.wf_base() && self.granted_ok()
    }

    /// Find the position of `t`'s entry.
    pub fn index_of(&self, target: u64) -> (r: Option<usize>)
        requires
            keys_distinct(self.vector@),
        ensures
            tracked_in(self.vector@, target) <==> r is Some,
            r matches Some(i) ==> (i < self.vector@.len() && self.vector@[i as int].0 == target
                && idx_in(self.vector@, target) == i && entry_in(self.vector@, target)
                == self.vector@[i as int].1),
    {
        let mut i: usize = 0;
        while i < self.vector.len()
            invariant
                i <= self.vector@.len(),
                keys_distinct(self.vector@),
                forall|k: int| 0 <= k < i ==> (#[trigger] self.vector@[k]).0 != target,
            decreases self.vector@.len() - i,
        {
            if self.vector[i].0 == target {
                proof {
                    lemma_idx_in(self.vector@, i as int);
                }
                return Some(i);
            }
            i += 1;
        }
        None
    }

    /// The entry for `target`, if tracked.
    pub fn get(&self, target: u64) -> (r: Option<ProgressEntry>)
        requires
            keys_distinct(self.vector@),
        ensures
            tracked_in(self.vector@, target) ==> r == Some(entry_in(self.vector@, target)),
            !tracked_in(self.vector@, target) ==> r is None,
    {
        match self.index_of(target) {
            Some(i) => Some(self.vector[i].1),
            None => None,
        }
    }

    /// The cached quorum-accepted value.
    pub fn granted(&self) -> (r: &Option<LogId>)
        ensures
            *r == self.granted,
    {
        &self.granted
    }

    /// Whether the targets with matching at least `v` are a quorum.
    fn quorum_at(&self, v: &Option<LogId>) -> (r: bool)
        requires
            keys_distinct(self.vector@),
        ensures
            r == is_quorum_spec(self.quorum_set, granted_set_of(self.vector@, *v)),
    {
        match &self.quorum_set {
            QuorumSet::Uniform(c) => self.cfg_quorum_at(c, v),
            QuorumSet::Joint(a, b) => {
                let ra = self.cfg_quorum_at(a, v);
                let rb = self.cfg_quorum_at(b, v);
                ra && rb
            },
        }
    }

    /// Strict-majority count of one configuration against the granting set.
    fn cfg_quorum_at(&self, cfg: &Vec<u64>, v: &Option<LogId>) -> (r: bool)
        requires
            keys_distinct(self.vector@),
        ensures
            r == crate::quorum::cfg_quorum(cfg@, granted_set_of(self.vector@, *v)),
    {
        let ghost s = granted_set_of(self.vector@, *v);
        let mut count: usize = 0;
        let mut i: usize = 0;
        while i < cfg.len()
            invariant
                i <= cfg.len(),
                count <= i,
                keys_distinct(self.vector@),
                s == granted_set_of(self.vector@, *v),
                count == crate::quorum::count_in(cfg@.take(i as int), s),
            decreases cfg.len() - i,
        {
            proof {
                assert(cfg@.take(i + 1).drop_last() =~= cfg@.take(i as int));
                assert(cfg@.take(i + 1).last() == cfg@[i as int]);
            }
            let t = cfg[i];
            let granted_t = match self.index_of(t) {
                Some(j) => crate::log_id::olid_le_exec(v, &self.vector[j].1.matching),
                None => false,
            };
            proof {
                assert(granted_t == s.contains(t));
            }
            if granted_t {
                count += 1;
            }
            i += 1;
        }
        proof {
            assert(cfg@.take(cfg@.len() as int) =~= cfg@);
            crate::quorum::lemma_count_in_bounds(cfg@, s);
        }
        count > cfg.len() / 2
    }

    /// Recompute the cached quorum-accepted value from the matchings.
    fn recompute_granted(&mut self)
        requires
            old(self).wf_base(),
        ensures
            final(self).vector == old(self).vector,
            final(self).quorum_set == old(self).quorum_set,
            final(self).learners == old(self).learners,
            final(self).wf(),
    {
        let mut best: Option<LogId> = None;
        proof {
            assert forall|t: u64| is_voter_spec(self.quorum_set, t) implies granted_set_of(
                self.vector@,
                None,
            ).contains(t) by {
                assert(tracked_in(self.vector@, t));
            }
            crate::quorum::lemma_all_voters_quorum(
                self.quorum_set,
                granted_set_of(self.vector@, None),
            );
        }
        let n = self.vector.len();
        let mut k: usize = 0;
        while k < n
            invariant
                k <= n,
                n == self.vector@.len(),
                keys_distinct(self.vector@),
                is_quorum_spec(self.quorum_set, granted_set_of(self.vector@, best)),
                forall|i: int|
                    0 <= i < k ==> (is_voter_spec(self.quorum_set, (#[trigger] self.vector@[i]).0)
                        && olid_lt(best, self.vector@[i].1.matching) ==> !is_quorum_spec(
                        self.quorum_set,
                        granted_set_of(self.vector@, self.vector@[i].1.matching),
                    )),
                best is Some ==> exists|i: int|
                    0 <= i < n && is_voter_spec(self.quorum_set, (#[trigger] self.vector@[i]).0)
                        && self.vector@[i].1.matching == best,
            decreases n - k,
        {
            let ghost best0 = best;
            let (t, e) = self.vector[k];
            if self.quorum_set.is_voter(t) {
                let v = e.matching;
                if olid_lt_exec(&best, &v) {
                    let q = self.quorum_at(&v);
                    if q {
                        best = v;
                        proof {
                            lemma_idx_in(self.vector@, k as int);
                            assert forall|i: int|
                                0 <= i < k + 1 && is_voter_spec(
                                    self.quorum_set,
                                    (#[trigger] self.vector@[i]).0,
                                ) && olid_lt(best, self.vector@[i].1.matching) implies
                                !is_quorum_spec(
                                self.quorum_set,
                                granted_set_of(self.vector@, self.vector@[i].1.matching),
                            ) by {
                                if i < k {
                                    lemma_olid_trans(best0, best, self.vector@[i].1.matching);
                                    assert(olid_lt(best0, self.vector@[i].1.matching));
                                }
                            }
                        }
                    }
                }
            }
            k += 1;
        }
        self.granted = best;
        proof {
            lemma_accepted_max(self.vector@, self.quorum_set, best);
        }
    }

    /// Apply a successful replication response for `target` and return the
    /// freshly computed quorum-accepted value.  A stale request id changes
    /// nothing.
    pub fn update_matching(&mut self, target: u64, request_id: u64, log_id: Option<LogId>) -> (r:
        Result<Option<LogId>, ProgressError>)
        requires
            old(self).wf(),
            old(self).tracked_spec(target),
            log_id matches Some(l) ==> l.index < u64::MAX,
        ensures
            final(self).wf(),
            final(self).quorum_set == old(self).quorum_set,
            final(self).learners == old(self).learners,
            forall|t: u64| final(self).tracked_spec(t) == old(self).tracked_spec(t),
            (r is Ok) == (old(self).entry_of(target).inflight.get_id_spec() == Some(request_id)),
            r is Err ==> (*final(self) == *old(self) && r == Err::<Option<LogId>, ProgressError>(
                ProgressError::StaleRequestId,
            )),
            r is Ok ==> {
                &&& forall|t: u64|
                    old(self).tracked_spec(t) && t != target ==> final(self).entry_of(t) == old(
                        self,
                    ).entry_of(t)
                &&& final(self).entry_of(target).matching == (if olid_le(
                    old(self).entry_of(target).matching,
                    log_id,
                ) {
                    log_id
                } else {
                    old(self).entry_of(target).matching
                })
                &&& final(self).entry_of(target).inflight is Idle
                &&& final(self).entry_of(target).end == (if old(self).entry_of(target).end
                    >= crate::log_id::next_index_spec(final(self).entry_of(target).matching) {
                    old(self).entry_of(target).end as int
                } else {
                    crate::log_id::next_index_spec(final(self).entry_of(target).matching)
                })
                &&& r == Ok::<Option<LogId>, ProgressError>(final(self).granted)
            },
            forall|t: u64|
                old(self).tracked_spec(t) ==> olid_le(
                    old(self).matching_of(t),
                    final(self).matching_of(t),
                ),
            olid_le(old(self).granted, final(self).granted),
    {
        let ghost s0 = self.vector@;
        let ghost g0 = self.granted;
        let idx = match self.index_of(target) {
            Some(i) => i,
            None => {
                proof {
                    assert(false);
                }
                0
            },
        };
        let mut e = self.vector[idx].1;
        let res = e.update_matching(request_id, log_id);
        match res {
            Ok(()) => {
                self.vector[idx] = (target, e);
                proof {
                    lemma_update_entry(s0, self.vector@, idx as int, target, e);
                    assert forall|t: u64| tracked_in(s0, t) implies olid_le(
                        matching_in(s0, t),
                        matching_in(self.vector@, t),
                    ) by {
                        if t != target {
                            lemma_olid_total(matching_in(s0, t), matching_in(self.vector@, t));
                        }
                    }
                }
                self.recompute_granted();
                proof {
                    lemma_granted_monotone(s0, self.vector@, self.quorum_set, g0, self.granted);
                }
                Ok(self.granted)
            },
            Err(err) => {
                proof {
                    crate::log_id::lemma_olid_total(g0, g0);
                }
                Err(err)
            },
        }
    }

    /// Apply a conflict response for `target`: shrink its send window.
    /// Matchings are untouched, so the accepted value stands.
    pub fn update_conflicting(&mut self, target: u64, request_id: u64, conflict: u64) -> (r: Result<
        (),
        ProgressError,
    >)
        requires
            old(self).wf(),
            old(self).tracked_spec(target),
        ensures
            final(self).wf(),
            final(self).quorum_set == old(self).quorum_set,
            final(self).learners == old(self).learners,
            final(self).granted == old(self).granted,
            forall|t: u64| final(self).tracked_spec(t) == old(self).tracked_spec(t),
            (r is Ok) == (old(self).entry_of(target).inflight matches Inflight::Logs { id, .. }
                && id == request_id),
            r is Err ==> *final(self) == *old(self),
            (r is Err && old(self).entry_of(target).inflight.get_id_spec() != Some(request_id))
                ==> r == Err::<(), ProgressError>(ProgressError::StaleRequestId),
            r is Ok ==> {
                &&& forall|t: u64|
                    old(self).tracked_spec(t) && t != target ==> final(self).entry_of(t) == old(
                        self,
                    ).entry_of(t)
                &&& final(self).entry_of(target) == (ProgressEntry {
                    inflight: Inflight::Idle,
                    end: ({
                        let shrunk = if conflict <= old(self).entry_of(target).end {
                            conflict as int
                        } else {
                            old(self).entry_of(target).end as int
                        };
                        if shrunk >= crate::log_id::next_index_spec(
                            old(self).entry_of(target).matching,
                        ) {
                            shrunk
                        } else {
                            crate::log_id::next_index_spec(old(self).entry_of(target).matching)
                        }
                    }) as u64,
                    ..old(self).entry_of(target)
                })
            },
            forall|t: u64|
                old(self).tracked_spec(t) ==> final(self).matching_of(t) == old(self).matching_of(
                    t,
                ),
    {
        let ghost s0 = self.vector@;
        let idx = match self.index_of(target) {
            Some(i) => i,
            None => {
                proof {
                    assert(false);
                }
                0
            },
        };
        let mut e = self.vector[idx].1;
        let res = e.update_conflicting(request_id, conflict);
        match res {
            Ok(()) => {
                self.vector[idx] = (target, e);
                proof {
                    lemma_update_entry(s0, self.vector@, idx as int, target, e);
                    lemma_accepted_stable(s0, self.vector@, self.quorum_set, self.granted);
                }
                Ok(())
            },
            Err(err) => Err(err),
        }
    }

    /// Raise `target`'s matching to at least `log_id` without touching its
    /// inflight, and return the fresh quorum-accepted value.  This is the
    /// monotone `increase_to` used by the leader-clock tracker.
    pub fn increase_matching(&mut self, target: u64, log_id: Option<LogId>) -> (r: Option<LogId>)
        requires
            old(self).wf(),
            old(self).tracked_spec(target),
            log_id matches Some(l) ==> l.index < u64::MAX,
        ensures
            final(self).wf(),
            final(self).quorum_set == old(self).quorum_set,
            final(self).learners == old(self).learners,
            forall|t: u64| final(self).tracked_spec(t) == old(self).tracked_spec(t),
            forall|t: u64|
                old(self).tracked_spec(t) && t != target ==> final(self).entry_of(t) == old(
                    self,
                ).entry_of(t),
            final(self).entry_of(target).matching == (if olid_le(
                old(self).entry_of(target).matching,
                log_id,
            ) {
                log_id
            } else {
                old(self).entry_of(target).matching
            }),
            final(self).entry_of(target).inflight == old(self).entry_of(target).inflight,
            r == final(self).granted,
            forall|t: u64|
                old(self).tracked_spec(t) ==> olid_le(
                    old(self).matching_of(t),
                    final(self).matching_of(t),
                ),
            olid_le(old(self).granted, final(self).granted),
    {
        let ghost s0 = self.vector@;
        let ghost g0 = self.granted;
        let idx = match self.index_of(target) {
            Some(i) => i,
            None => {
                proof {
                    assert(false);
                }
                0
            },
        };
        let mut e = self.vector[idx].1;
        e.matching = crate::log_id::olid_max(e.matching, log_id);
        let next = crate::log_id::next_index(&e.matching);
        if next > e.end {
            e.end = next;
        }
        self.vector[idx] = (target, e);
        proof {
            lemma_update_entry(s0, self.vector@, idx as int, target, e);
            assert forall|t: u64| tracked_in(s0, t) implies olid_le(
                matching_in(s0, t),
                matching_in(self.vector@, t),
            ) by {
                if t != target {
                    lemma_olid_total(matching_in(s0, t), matching_in(self.vector@, t));
                }
            }
        }
        self.recompute_granted();
        proof {
            lemma_granted_monotone(s0, self.vector@, self.quorum_set, g0, self.granted);
        }
        self.granted
    }

    /// Drop `target`'s inflight if the response id matches it; a stale id
    /// changes nothing.  Used on transport errors so the range is resent.
    pub fn reset_inflight_if_id(&mut self, target: u64, request_id: u64)
        requires
            old(self).wf(),
            old(self).tracked_spec(target),
        ensures
            final(self).wf(),
            final(self).quorum_set == old(self).quorum_set,
            final(self).learners == old(self).learners,
            final(self).granted == old(self).granted,
            forall|t: u64| final(self).tracked_spec(t) == old(self).tracked_spec(t),
            old(self).entry_of(target).inflight.get_id_spec() == Some(request_id) ==> {
                &&& final(self).entry_of(target) == (ProgressEntry {
                    inflight: Inflight::Idle,
                    ..old(self).entry_of(target)
                })
                &&& forall|t: u64|
                    old(self).tracked_spec(t) && t != target ==> final(self).entry_of(t) == old(
                        self,
                    ).entry_of(t)
            },
            old(self).entry_of(target).inflight.get_id_spec() != Some(request_id) ==> *final(self)
                == *old(self),
            forall|t: u64|
                old(self).tracked_spec(t) ==> final(self).matching_of(t) == old(self).matching_of(
                    t,
                ),
    {
        let ghost s0 = self.vector@;
        let idx = match self.index_of(target) {
            Some(i) => i,
            None => {
                proof {
                    assert(false);
                }
                0
            },
        };
        let mut e = self.vector[idx].1;
        let matches_id = match e.inflight.get_id() {
            Some(id) => id == request_id,
            None => false,
        };
        if matches_id {
            e.inflight = Inflight::Idle;
            self.vector[idx] = (target, e);
            proof {
                lemma_update_entry(s0, self.vector@, idx as int, target, e);
                lemma_accepted_stable(s0, self.vector@, self.quorum_set, self.granted);
            }
        }
    }

    /// A fresh progress: every voter and learner gets `default_entry`.
    pub fn new(
        quorum_set: QuorumSet,
        learner_ids: Vec<u64>,
        default_entry: ProgressEntry,
    ) -> (r: Progress)
        requires
            qs_wf(quorum_set),
            default_entry.wf(),
        ensures
            r.wf(),
            r.quorum_set == quorum_set,
            r.learners == learner_ids,
            forall|t: u64|
                r.tracked_spec(t) <==> (is_voter_spec(quorum_set, t) || learner_ids@.contains(t)),
            forall|t: u64| r.tracked_spec(t) ==> r.entry_of(t) == default_entry,
            r.vector@.len() <= crate::quorum::qs_size(quorum_set) + learner_ids@.len(),
    {
        let mut targets: Vec<u64> = quorum_set.voter_ids();
        crate::quorum::push_absent(&mut targets, &learner_ids);
        let mut vector: Vec<(u64, ProgressEntry)> = Vec::new();
        let mut i: usize = 0;
        while i < targets.len()
            invariant
                i <= targets@.len(),
                vector@.len() == i,
                default_entry.wf(),
                forall|k: int| 0 <= k < i ==> (#[trigger] vector@[k]).0 == targets@[k],
                forall|k: int| 0 <= k < i ==> (#[trigger] vector@[k]).1 == default_entry,
            decreases targets@.len() - i,
        {
            let t = targets[i];
            vector.push((t, default_entry));
            i += 1;
        }
        let mut r = Progress { vector, quorum_set, learners: learner_ids, granted: None };
        proof {
            let tg = targets@;
            assert forall|t: u64| tracked_in(r.vector@, t) <==> tg.contains(t) by {
                if tracked_in(r.vector@, t) {
                    let k = choose|k: int|
                        0 <= k < r.vector@.len() && (#[trigger] r.vector@[k]).0 == t;
                    assert(tg[k] == t);
                }
                if tg.contains(t) {
                    let k = choose|k: int| 0 <= k < tg.len() && #[trigger] tg[k] == t;
                    assert(r.vector@[k].0 == t);
                }
            }
            assert(keys_distinct(r.vector@)) by {
                assert forall|a: int, b: int| 0 <= a < b < r.vector@.len() implies (
                #[trigger] r.vector@[a]).0 != (#[trigger] r.vector@[b]).0 by {
                    assert(r.vector@[a].0 == tg[a] && r.vector@[b].0 == tg[b]);
                }
            }
            assert forall|t: u64| tracked_in(r.vector@, t) implies entry_in(r.vector@, t)
                == default_entry by {
                let k = choose|k: int| 0 <= k < r.vector@.len() && (#[trigger] r.vector@[k]).0 == t;
                lemma_idx_in(r.vector@, k);
            }
            assert forall|t: u64| is_voter_spec(quorum_set, t) implies tracked_in(
                r.vector@,
                t,
            ) by {
                assert(tg.contains(t));
            }
            assert forall|i2: int| 0 <= i2 < learner_ids@.len() implies tracked_in(
                r.vector@,
                #[trigger] learner_ids@[i2],
            ) by {
                assert(tg.contains(learner_ids@[i2]));
            }
            assert forall|i2: int| 0 <= i2 < r.vector@.len() implies (is_voter_spec(
                quorum_set,
                (#[trigger] r.vector@[i2]).0,
            ) || learner_ids@.contains(r.vector@[i2].0)) by {
                assert(r.vector@[i2].0 == tg[i2]);
                assert(tg.contains(tg[i2]));
            }
        }
        r.recompute_granted();
        r
    }

    /// Decide what to send to `target`, installing the new inflight tagged
    /// `request_id`; see `ProgressEntry::next_send`.
    pub fn next_send(
        &mut self,
        target: u64,
        state: &crate::state::RaftState,
        max_payload_entries: u64,
        request_id: u64,
    ) -> (r: Result<Inflight, Inflight>)
        requires
            old(self).wf(),
            old(self).tracked_spec(target),
            state.wf(),
            max_payload_entries >= 1,
        ensures
            final(self).wf(),
            final(self).quorum_set == old(self).quorum_set,
            final(self).learners == old(self).learners,
            final(self).granted == old(self).granted,
            final(self).vector@.len() == old(self).vector@.len(),
            forall|i: int|
                0 <= i < old(self).vector@.len() ==> (#[trigger] final(self).vector@[i]).0 == old(
                    self,
                ).vector@[i].0,
            forall|i: int|
                0 <= i < old(self).vector@.len() && old(self).vector@[i].0 != target ==> (
                #[trigger] final(self).vector@[i]).1 == old(self).vector@[i].1,
            forall|t: u64| final(self).tracked_spec(t) == old(self).tracked_spec(t),
            forall|t: u64|
                old(self).tracked_spec(t) ==> final(self).matching_of(t) == old(self).matching_of(
                    t,
                ),
            forall|t: u64|
                old(self).tracked_spec(t) && t != target ==> final(self).entry_of(t) == old(
                    self,
                ).entry_of(t),
            final(self).entry_of(target).matching == old(self).entry_of(target).matching,
            final(self).entry_of(target).end == old(self).entry_of(target).end,
            r is Err ==> (*final(self) == *old(self) && r == Err::<Inflight, Inflight>(
                old(self).entry_of(target).inflight,
            )),
            (r is Ok) == (old(self).entry_of(target).inflight is Idle && crate::log_id::next_index_spec(
                old(self).entry_of(target).matching,
            ) < crate::log_id::next_index_spec(state.last_log_id)),
            r matches Ok(inf) ==> (final(self).entry_of(target).inflight == inf
                && inf.get_id_spec() == Some(request_id)),
            r matches Ok(inf) ==> inf == crate::progress_entry::send_decision(
                old(self).entry_of(target),
                *state,
                max_payload_entries as int,
                request_id,
            ),
            r matches Ok(inf) ==> (inf matches Inflight::Snapshot { id, last_included } ==> (
            last_included == state.snapshot_last_log_id && (state.last_purged_log_id matches Some(
                p,
            ) && crate::log_id::next_index_spec(old(self).entry_of(target).matching) <= p.index))),
            r matches Ok(inf) ==> (inf matches Inflight::Logs { id, prev, last } ==> {
                &&& prev == old(self).entry_of(target).matching
                &&& (match state.last_purged_log_id {
                    Some(p) => crate::log_id::next_index_spec(old(self).entry_of(target).matching)
                        > p.index,
                    None => true,
                })
                &&& last == crate::state::log_id_at_spec(
                    state.log_ids@,
                    crate::progress_entry::send_last_index_spec(
                        old(self).entry_of(target).matching,
                        old(self).entry_of(target).end as int,
                        crate::log_id::next_index_spec(state.last_log_id) - 1,
                        max_payload_entries as int,
                    ) as u64,
                )
                &&& crate::log_id::next_index_spec(prev) <= last.index
                    < crate::log_id::next_index_spec(state.last_log_id)
                &&& last.index < old(self).entry_of(target).end + max_payload_entries
            }),
    {
        let ghost s0 = self.vector@;
        let idx = match self.index_of(target) {
            Some(i) => i,
            None => {
                proof {
                    assert(false);
                }
                0
            },
        };
        let mut e = self.vector[idx].1;
        let r = e.next_send(state, max_payload_entries, request_id);
        match r {
            Ok(inf) => {
                self.vector[idx] = (target, e);
                proof {
                    lemma_update_entry(s0, self.vector@, idx as int, target, e);
                    lemma_accepted_stable(s0, self.vector@, self.quorum_set, self.granted);
                }
                Ok(inf)
            },
            Err(inf) => {
                proof {
                    assert(self.vector@ =~= s0);
                }
                Err(inf)
            },
        }
    }

    /// Install `inf` as `target`'s inflight, replacing whatever was there.
    pub fn install_inflight(&mut self, target: u64, inf: Inflight)
        requires
            old(self).wf(),
            old(self).tracked_spec(target),
        ensures
            final(self).wf(),
            final(self).quorum_set == old(self).quorum_set,
            final(self).learners == old(self).learners,
            final(self).granted == old(self).granted,
            forall|t: u64| final(self).tracked_spec(t) == old(self).tracked_spec(t),
            forall|t: u64|
                old(self).tracked_spec(t) ==> final(self).matching_of(t) == old(self).matching_of(
                    t,
                ),
            forall|t: u64|
                old(self).tracked_spec(t) && t != target ==> final(self).entry_of(t) == old(
                    self,
                ).entry_of(t),
            final(self).entry_of(target) == (ProgressEntry {
                inflight: inf,
                ..old(self).entry_of(target)
            }),
    {
        let ghost s0 = self.vector@;
        let idx = match self.index_of(target) {
            Some(i) => i,
            None => {
                proof {
                    assert(false);
                }
                0
            },
        };
        let mut e = self.vector[idx].1;
        e.inflight = inf;
        self.vector[idx] = (target, e);
        proof {
            lemma_update_entry(s0, self.vector@, idx as int, target, e);
            lemma_accepted_stable(s0, self.vector@, self.quorum_set, self.granted);
        }
    }

    /// Reset the inflight of every target but `keep`, returning the reset
    /// targets and their entries for the rebuild command.
    pub fn reset_inflights_except(&mut self, keep: u64) -> (targets: Vec<(u64, ProgressEntry)>)
        requires
            old(self).wf(),
        ensures
            final(self).wf(),
            final(self).quorum_set == old(self).quorum_set,
            final(self).learners == old(self).learners,
            final(self).granted == old(self).granted,
            final(self).vector@.len() == old(self).vector@.len(),
            forall|t: u64| final(self).tracked_spec(t) == old(self).tracked_spec(t),
            forall|t: u64|
                old(self).tracked_spec(t) ==> final(self).matching_of(t) == old(self).matching_of(
                    t,
                ),
            forall|t: u64|
                old(self).tracked_spec(t) && t != keep ==> final(self).entry_of(t) == (
                ProgressEntry { inflight: Inflight::Idle, ..old(self).entry_of(t) }),
            old(self).tracked_spec(keep) ==> final(self).entry_of(keep) == old(self).entry_of(
                keep,
            ),
            forall|m: int|
                0 <= m < targets@.len() ==> ((#[trigger] targets@[m]).0 != keep
                    && final(self).tracked_spec(targets@[m].0)
                    && final(self).entry_of(targets@[m].0) == targets@[m].1),
            forall|t: u64|
                old(self).tracked_spec(t) && t != keep ==> exists|m: int|
                    0 <= m < targets@.len() && (#[trigger] targets@[m]).0 == t,
    {
        let ghost s0 = self.vector@;
        let mut targets: Vec<(u64, ProgressEntry)> = Vec::new();
        let n = self.vector.len();
        let mut i: usize = 0;
        while i < n
            invariant
                i <= n,
                n == self.vector@.len(),
                self.vector@.len() == s0.len(),
                self.quorum_set == old(self).quorum_set,
                self.learners == old(self).learners,
                self.granted == old(self).granted,
                s0 == old(self).vector@,
                keys_distinct(s0),
                forall|k: int| 0 <= k < s0.len() ==> (#[trigger] self.vector@[k]).0 == s0[k].0,
                forall|k: int| 0 <= k < s0.len() ==> (#[trigger] self.vector@[k]).1.wf(),
                forall|k: int|
                    0 <= k < s0.len() ==> (#[trigger] self.vector@[k]).1.matching
                        == s0[k].1.matching,
                forall|k: int|
                    i <= k < s0.len() ==> (#[trigger] self.vector@[k]).1 == s0[k].1,
                forall|k: int|
                    0 <= k < i && s0[k].0 != keep ==> (#[trigger] self.vector@[k]).1 == (
                    ProgressEntry { inflight: Inflight::Idle, ..s0[k].1 }),
                forall|k: int|
                    0 <= k < i && s0[k].0 == keep ==> (#[trigger] self.vector@[k]).1 == s0[k].1,
                forall|m: int|
                    0 <= m < targets@.len() ==> ((#[trigger] targets@[m]).0 != keep && exists|
                        k: int,
                    |
                        0 <= k < i && (#[trigger] s0[k]).0 == targets@[m].0 && targets@[m].1 == (
                        ProgressEntry { inflight: Inflight::Idle, ..s0[k].1 })),
                forall|k: int|
                    0 <= k < i && (#[trigger] s0[k]).0 != keep ==> exists|m: int|
                        0 <= m < targets@.len() && (#[trigger] targets@[m]).0 == s0[k].0,
            decreases n - i,
        {
            let (t, e0) = self.vector[i];
            if t != keep {
                let e = ProgressEntry { inflight: Inflight::Idle, ..e0 };
                let ghost targets0 = targets@;
                self.vector[i] = (t, e);
                targets.push((t, e));
                proof {
                    assert forall|k: int|
                        0 <= k < i + 1 && (#[trigger] s0[k]).0 != keep implies exists|m: int|
                        0 <= m < targets@.len() && (#[trigger] targets@[m]).0 == s0[k].0 by {
                        if k < i {
                            let m = choose|m: int|
                                0 <= m < targets0.len() && (#[trigger] targets0[m]).0 == s0[k].0;
                            assert(targets@[m].0 == s0[k].0);
                        } else {
                            assert(targets@[targets@.len() - 1].0 == s0[k].0);
                        }
                    }
                }
            }
            i += 1;
        }
        proof {
            assert(keys_distinct(self.vector@)) by {
                assert forall|a: int, b: int| 0 <= a < b < self.vector@.len() implies (
                #[trigger] self.vector@[a]).0 != (#[trigger] self.vector@[b]).0 by {
                    assert(self.vector@[a].0 == s0[a].0 && self.vector@[b].0 == s0[b].0);
                }
            }
            assert forall|t: u64| tracked_in(self.vector@, t) == tracked_in(s0, t) by {
                if tracked_in(self.vector@, t) {
                    let k = choose|k: int|
                        0 <= k < self.vector@.len() && (#[trigger] self.vector@[k]).0 == t;
                    assert(s0[k].0 == t);
                }
                if tracked_in(s0, t) {
                    let k = choose|k: int| 0 <= k < s0.len() && (#[trigger] s0[k]).0 == t;
                    assert(self.vector@[k].0 == t);
                }
            }
            assert forall|t: u64| tracked_in(s0, t) implies #[trigger] entry_in(self.vector@, t)
                == (if t == keep {
                entry_in(s0, t)
            } else {
                ProgressEntry { inflight: Inflight::Idle, ..entry_in(s0, t) }
            }) by {
                let k = choose|k: int| 0 <= k < s0.len() && (#[trigger] s0[k]).0 == t;
                lemma_idx_in(s0, k);
                assert(self.vector@[k].0 == t);
                lemma_idx_in(self.vector@, k);
            }
            assert forall|t: u64| tracked_in(s0, t) implies #[trigger] matching_in(self.vector@, t)
                == matching_in(s0, t) by {
                let k = choose|k: int| 0 <= k < s0.len() && (#[trigger] s0[k]).0 == t;
                lemma_idx_in(s0, k);
                assert(self.vector@[k].0 == t);
                lemma_idx_in(self.vector@, k);
            }
            lemma_accepted_stable(s0, self.vector@, self.quorum_set, self.granted);
            assert forall|m: int| 0 <= m < targets@.len() implies ((#[trigger] targets@[m]).0
                != keep && tracked_in(self.vector@, targets@[m].0) && entry_in(
                self.vector@,
                targets@[m].0,
            ) == targets@[m].1) by {
                let k = choose|k: int|
                    0 <= k < s0.len() && (#[trigger] s0[k]).0 == targets@[m].0 && targets@[m].1
                        == (ProgressEntry { inflight: Inflight::Idle, ..s0[k].1 });
                lemma_idx_in(s0, k);
                assert(self.vector@[k].0 == targets@[m].0);
                lemma_idx_in(self.vector@, k);
            }
            assert forall|t: u64| tracked_in(s0, t) && t != keep implies exists|m: int|
                0 <= m < targets@.len() && (#[trigger] targets@[m]).0 == t by {
                let k = choose|k: int| 0 <= k < s0.len() && (#[trigger] s0[k]).0 == t;
            }
        }
        targets
    }

    /// Build the progress for a new membership: survivors keep their exact
    /// entries, new targets start from `default_entry`, departed targets
    /// are dropped.
    pub fn upgrade_quorum_set(
        &self,
        quorum_set: QuorumSet,
        learner_ids: Vec<u64>,
        default_entry: ProgressEntry,
    ) -> (r: Progress)
        requires
            self.wf(),
            qs_wf(quorum_set),
            default_entry.wf(),
        ensures
            r.wf(),
            r.quorum_set == quorum_set,
            r.learners == learner_ids,
            forall|t: u64|
                r.tracked_spec(t) <==> (is_voter_spec(quorum_set, t) || learner_ids@.contains(t)),
            forall|t: u64|
                r.tracked_spec(t) ==> r.entry_of(t) == (if self.tracked_spec(t) {
                    self.entry_of(t)
                } else {
                    default_entry
                }),
            r.vector@.len() <= crate::quorum::qs_size(quorum_set) + learner_ids@.len(),
    {
        let mut targets: Vec<u64> = quorum_set.voter_ids();
        crate::quorum::push_absent(&mut targets, &learner_ids);
        let mut vector: Vec<(u64, ProgressEntry)> = Vec::new();
        let mut i: usize = 0;
        while i < targets.len()
            invariant
                i <= targets@.len(),
                vector@.len() == i,
                self.wf(),
                default_entry.wf(),
                forall|k: int| 0 <= k < i ==> (#[trigger] vector@[k]).0 == targets@[k],
                forall|k: int|
                    0 <= k < i ==> (#[trigger] vector@[k]).1 == (if tracked_in(
                        self.vector@,
                        targets@[k],
                    ) {
                        entry_in(self.vector@, targets@[k])
                    } else {
                        default_entry
                    }),
            decreases targets@.len() - i,
        {
            let t = targets[i];
            let e = match self.get(t) {
                Some(e) => e,
                None => default_entry,
            };
            vector.push((t, e));
            i += 1;
        }
        let mut r = Progress { vector, quorum_set, learners: learner_ids, granted: None };
        proof {
            assert forall|t: u64| tracked_in(r.vector@, t) <==> targets@.contains(t) by {
                if tracked_in(r.vector@, t) {
                    let k = choose|k: int|
                        0 <= k < r.vector@.len() && (#[trigger] r.vector@[k]).0 == t;
                    assert(targets@[k] == t);
                }
                if targets@.contains(t) {
                    let k = choose|k: int| 0 <= k < targets@.len() && #[trigger] targets@[k] == t;
                    assert(r.vector@[k].0 == t);
                }
            }
            let tg = targets@;
            assert(keys_distinct(r.vector@)) by {
                assert forall|a: int, b: int| 0 <= a < b < r.vector@.len() implies (
                #[trigger] r.vector@[a]).0 != (#[trigger] r.vector@[b]).0 by {
                    assert(r.vector@[a].0 == tg[a] && r.vector@[b].0 == tg[b]);
                }
            }
            assert forall|t: u64| tracked_in(r.vector@, t) implies entry_in(r.vector@, t) == (
            if tracked_in(self.vector@, t) {
                entry_in(self.vector@, t)
            } else {
                default_entry
            }) by {
                let k = choose|k: int| 0 <= k < r.vector@.len() && (#[trigger] r.vector@[k]).0 == t;
                lemma_idx_in(r.vector@, k);
            }
            assert forall|t: u64| is_voter_spec(quorum_set, t) implies tracked_in(
                r.vector@,
                t,
            ) by {
                assert(tg.contains(t));
            }
            assert forall|i2: int| 0 <= i2 < learner_ids@.len() implies tracked_in(
                r.vector@,
                #[trigger] learner_ids@[i2],
            ) by {
                assert(tg.contains(learner_ids@[i2]));
            }
            assert forall|i2: int| 0 <= i2 < r.vector@.len() implies (is_voter_spec(
                quorum_set,
                (#[trigger] r.vector@[i2]).0,
            ) || learner_ids@.contains(r.vector@[i2].0)) by {
                assert(r.vector@[i2].0 == tg[i2]);
                assert(tg.contains(tg[i2]));
            }
            assert forall|i2: int| 0 <= i2 < r.vector@.len() implies (
            #[trigger] r.vector@[i2]).1.wf() by {
                if tracked_in(self.vector@, tg[i2]) {
                    let j = idx_in(self.vector@, tg[i2]);
                    assert(0 <= j < self.vector@.len() && self.vector@[j].0 == tg[i2]);
                    assert(self.vector@[j].1.wf());
                }
            }
        }
        r.recompute_granted();
        r
    }
}

/// When matchings only grow (same quorum set, same targets), the
/// quorum-accepted value cannot shrink: the old value's granting set still
/// grants it, so by maximality the new value is at least it.
pub proof fn lemma_granted_monotone(
    s0: Seq<(u64, ProgressEntry)>,
    s1: Seq<(u64, ProgressEntry)>,
    qs: QuorumSet,
    g0: Option<LogId>,
    g1: Option<LogId>,
)
    requires
        accepted_ok(s0, qs, g0),
        accepted_ok(s1, qs, g1),
        forall|u: u64| tracked_in(s1, u) == tracked_in(s0, u),
        forall|u: u64| tracked_in(s0, u) ==> olid_le(matching_in(s0, u), matching_in(s1, u)),
    ensures
        olid_le(g0, g1),
{
    lemma_olid_total(g0, g1);
    if !olid_le(g0, g1) {
        assert(olid_lt(g1, g0));
        assert forall|u: u64|
            is_voter_spec(qs, u) && granted_set_of(s0, g0).contains(u) implies granted_set_of(
            s1,
            g0,
        ).contains(u) by {
            lemma_olid_trans(g0, matching_in(s0, u), matching_in(s1, u));
        }
        crate::quorum::lemma_quorum_monotone(qs, granted_set_of(s0, g0), granted_set_of(s1, g0));
        assert(!is_quorum_spec(qs, granted_set_of(s1, g0)));
    }
}

/// The cached quorum-accepted value of a well-formed progress is correct:
/// the targets whose matching is at least it form a quorum, and for no
/// greater value do they.
pub proof fn lemma_quorum_accepted_correct(p: Progress)
    requires
        p.wf(),
    ensures
        is_quorum_spec(p.quorum_set, p.granted_set(p.granted)),
        forall|v: Option<LogId>|
            olid_lt(p.granted, v) ==> !is_quorum_spec(p.quorum_set, #[trigger] p.granted_set(v)),
{
}

/// The position holding key `t` is unique, so `idx_in` and `entry_in` read
/// exactly that position.
pub proof fn lemma_idx_in(s: Seq<(u64, ProgressEntry)>, i: int)
    requires
        keys_distinct(s),
        0 <= i < s.len(),
    ensures
        tracked_in(s, s[i].0),
        idx_in(s, s[i].0) == i,
        entry_in(s, s[i].0) == s[i].1,
{
    let t = s[i].0;
    assert(tracked_in(s, t));
    let j = idx_in(s, t);
    if j != i {
        if j < i {
            assert(s[j].0 != s[i].0);
        } else {
            assert(s[i].0 != s[j].0);
        }
    }
}

/// Updating one position with the same key leaves the key set, and every
/// other entry, as it was.
pub proof fn lemma_update_entry(
    s0: Seq<(u64, ProgressEntry)>,
    s1: Seq<(u64, ProgressEntry)>,
    idx: int,
    t: u64,
    e: ProgressEntry,
)
    requires
        keys_distinct(s0),
        0 <= idx < s0.len(),
        s0[idx].0 == t,
        s1 == s0.update(idx, (t, e)),
    ensures
        keys_distinct(s1),
        forall|u: u64| tracked_in(s1, u) == tracked_in(s0, u),
        forall|u: u64| tracked_in(s0, u) && u != t ==> entry_in(s1, u) == entry_in(s0, u),
        entry_in(s1, t) == e,
        forall|u: u64| tracked_in(s0, u) && u != t ==> matching_in(s1, u) == matching_in(s0, u),
        forall|i: int| 0 <= i < s1.len() ==> (#[trigger] s1[i]).0 == s0[i].0,
{
    assert(s1.len() == s0.len());
    assert forall|u: u64| tracked_in(s1, u) == tracked_in(s0, u) by {
        if tracked_in(s1, u) {
            let k = choose|i: int| 0 <= i < s1.len() && (#[trigger] s1[i]).0 == u;
            assert(s0[k].0 == u);
        }
        if tracked_in(s0, u) {
            let k = choose|i: int| 0 <= i < s0.len() && (#[trigger] s0[i]).0 == u;
            assert(s1[k].0 == u);
        }
    }
    assert forall|u: u64| tracked_in(s0, u) && u != t implies entry_in(s1, u) == entry_in(
        s0,
        u,
    ) by {
        let k = choose|i: int| 0 <= i < s0.len() && (#[trigger] s0[i]).0 == u;
        assert(k != idx);
        lemma_idx_in(s0, k);
        assert(s1[k].0 == u);
        lemma_idx_in(s1, k);
    }
    lemma_idx_in(s1, idx);
}

/// Target lists with the same keys and matchings accept the same values.
pub proof fn lemma_accepted_stable(
    s0: Seq<(u64, ProgressEntry)>,
    s1: Seq<(u64, ProgressEntry)>,
    qs: QuorumSet,
    g: Option<LogId>,
)
    requires
        accepted_ok(s0, qs, g),
        s1.len() == s0.len(),
        forall|u: u64| tracked_in(s1, u) == tracked_in(s0, u),
        forall|u: u64| tracked_in(s0, u) ==> matching_in(s1, u) == matching_in(s0, u),
        forall|i: int| 0 <= i < s1.len() ==> (#[trigger] s1[i]).0 == s0[i].0,
        keys_distinct(s0),
    ensures
        accepted_ok(s1, qs, g),
{
    assert forall|v: Option<LogId>| #[trigger] granted_set_of(s1, v) =~= granted_set_of(
        s0,
        v,
    ) by {
        assert forall|u: u64|
            granted_set_of(s1, v).contains(u) == granted_set_of(s0, v).contains(u) by {
            if tracked_in(s0, u) {
                assert(matching_in(s1, u) == matching_in(s0, u));
            }
        }
    }
    assert(granted_set_of(s1, g) == granted_set_of(s0, g));
    assert forall|v: Option<LogId>| olid_lt(g, v) implies !is_quorum_spec(
        qs,
        #[trigger] granted_set_of(s1, v),
    ) by {
        assert(granted_set_of(s1, v) == granted_set_of(s0, v));
    }
    if g is Some {
        let i = choose|i: int|
            0 <= i < s0.len() && is_voter_spec(qs, (#[trigger] s0[i]).0) && s0[i].1.matching == g;
        lemma_idx_in(s0, i);
        assert(s1[i].0 == s0[i].0);
        assert(keys_distinct(s1)) by {
            assert forall|a: int, b: int| 0 <= a < b < s1.len() implies (#[trigger] s1[a]).0 != (
            #[trigger] s1[b]).0 by {
                assert(s1[a].0 == s0[a].0 && s1[b].0 == s0[b].0);
            }
        }
        lemma_idx_in(s1, i);
        assert(matching_in(s1, s1[i].0) == matching_in(s0, s0[i].0));
        assert(s1[i].1.matching == g);
    }
}

/// From "no voter's matching above `g` grants a quorum" to "no value above
/// `g` does": a granting set for a greater value is contained in the
/// granting set of its least member's matching.
proof fn lemma_accepted_max(s: Seq<(u64, ProgressEntry)>, qs: QuorumSet, g: Option<LogId>)
    requires
        keys_distinct(s),
        qs_wf(qs),
        is_quorum_spec(qs, granted_set_of(s, g)),
        forall|i: int|
            0 <= i < s.len() ==> (is_voter_spec(qs, (#[trigger] s[i]).0) && olid_lt(
                g,
                s[i].1.matching,
            ) ==> !is_quorum_spec(qs, granted_set_of(s, s[i].1.matching))),
        g is Some ==> exists|i: int|
            0 <= i < s.len() && is_voter_spec(qs, (#[trigger] s[i]).0) && s[i].1.matching == g,
    ensures
        accepted_ok(s, qs, g),
{
    assert forall|v: Option<LogId>| olid_lt(g, v) implies !is_quorum_spec(
        qs,
        #[trigger] granted_set_of(s, v),
    ) by {
        if is_quorum_spec(qs, granted_set_of(s, v)) {
            crate::quorum::lemma_quorum_has_member(qs, granted_set_of(s, v));
            let t0 = choose|t: u64| is_voter_spec(qs, t) && granted_set_of(s, v).contains(t);
            let j0 = choose|i: int| 0 <= i < s.len() && (#[trigger] s[i]).0 == t0;
            lemma_idx_in(s, j0);
            assert(is_voter_spec(qs, s[j0].0) && olid_le(v, s[j0].1.matching));
            let i0 = lemma_min_voter_ge(s, qs, v, s.len() as int);
            let c = s[i0].1.matching;
            lemma_olid_trans(g, v, c);
            lemma_olid_total(g, c);
            assert(olid_lt(g, c)) by {
                if g == c {
                    lemma_olid_total(g, v);
                }
            }
            assert(!is_quorum_spec(qs, granted_set_of(s, c)));
            assert forall|t: u64|
                is_voter_spec(qs, t) && granted_set_of(s, v).contains(t) implies granted_set_of(
                s,
                c,
            ).contains(t) by {
                let j = choose|i: int| 0 <= i < s.len() && (#[trigger] s[i]).0 == t;
                lemma_idx_in(s, j);
                assert(olid_le(v, s[j].1.matching));
                assert(olid_le(c, s[j].1.matching));
            }
            crate::quorum::lemma_quorum_monotone(qs, granted_set_of(s, v), granted_set_of(s, c));
            assert(false);
        }
    }
}

/// Among the first `k` targets, some voter's matching is at least `v`;
/// return the position of the least such matching.
proof fn lemma_min_voter_ge(s: Seq<(u64, ProgressEntry)>, qs: QuorumSet, v: Option<LogId>, k: int) -> (i0: int)
    requires
        keys_distinct(s),
        0 < k <= s.len(),
        exists|i: int|
            0 <= i < k && is_voter_spec(qs, (#[trigger] s[i]).0) && olid_le(v, s[i].1.matching),
    ensures
        0 <= i0 < k,
        is_voter_spec(qs, s[i0].0),
        olid_le(v, s[i0].1.matching),
        forall|j: int|
            0 <= j < k && is_voter_spec(qs, (#[trigger] s[j]).0) && olid_le(v, s[j].1.matching)
                ==> olid_le(s[i0].1.matching, s[j].1.matching),
    decreases k,
{
    let last_ok = is_voter_spec(qs, s[k - 1].0) && olid_le(v, s[k - 1].1.matching);
    let rest_ok = exists|i: int|
        0 <= i < k - 1 && is_voter_spec(qs, (#[trigger] s[i]).0) && olid_le(v, s[i].1.matching);
    if rest_ok {
        let i1 = lemma_min_voter_ge(s, qs, v, k - 1);
        if last_ok {
            lemma_olid_total(s[k - 1].1.matching, s[i1].1.matching);
            if olid_le(s[k - 1].1.matching, s[i1].1.matching) {
                assert forall|j: int|
                    0 <= j < k && is_voter_spec(qs, (#[trigger] s[j]).0) && olid_le(
                        v,
                        s[j].1.matching,
                    ) implies olid_le(s[k - 1].1.matching, s[j].1.matching) by {
                    if j < k - 1 {
                        lemma_olid_trans(
                            s[k - 1].1.matching,
                            s[i1].1.matching,
                            s[j].1.matching,
                        );
                    }
                }
                k - 1
            } else {
                i1
            }
        } else {
            i1
        }
    } else {
        assert(last_ok);
        k - 1
    }
}

} // verus!
