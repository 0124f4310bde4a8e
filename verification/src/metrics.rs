//! Metrics the leader publishes about replication progress.
//!
//! `LeaderMetrics` maps each replication target to the log id it matched,
//! held as a vector sorted by target id.  Updates come as small command
//! values: one that rewrites a single record in place, one that removes a
//! target.

use vstd::prelude::*;

use crate::log_id::{LeaderId, LogId};

verus! {

/// Why an update could not be applied in place.
#[derive(Clone, Copy, Debug, PartialEq, Eq, Structural)]
pub enum UpdateError {
    CanNotUpdateInPlace,
}

/// What one target has matched.
#[derive(Clone, Copy, Debug, PartialEq, Eq, Structural)]
pub struct ReplicationMetrics {
    pub matched_leader_id: LeaderId,
    pub matched_index: u64,
}

/// Whether the metrics hold a record for `t`.
pub open spec fn m_tracked(s: Seq<(u64, ReplicationMetrics)>, t: u64) -> bool {
    exists|i: int| 0 <= i < s.len() && (#[trigger] s[i]).0 == t
}

/// The record for `t` (unique when keys are sorted).
pub open spec fn m_value(s: Seq<(u64, ReplicationMetrics)>, t: u64) -> ReplicationMetrics {
    s[choose|i: int| 0 <= i < s.len() && (#[trigger] s[i]).0 == t].1
}

/// Keys strictly increase.
pub open spec fn m_sorted(s: Seq<(u64, ReplicationMetrics)>) -> bool {
    forall|i: int, j: int| 0 <= i < j < s.len() ==> (#[trigger] s[i]).0 < (#[trigger] s[j]).0
}

/// Replication metrics of every known target, sorted by target id.
#[derive(Clone, Debug, Default, PartialEq, Eq)]
pub struct LeaderMetrics {
    pub replication: Vec<(u64, ReplicationMetrics)>,
}

impl LeaderMetrics {
    pub open spec fn wf(self) -> bool {
        m_sorted(self.replication@)
    }

    pub fn new() -> (r: LeaderMetrics)
        ensures
            r.wf(),
            r.replication@.len() == 0,
    {
        LeaderMetrics { replication: Vec::new() }
    }

    /// A one-line rendering: each target with its matched log id.
    pub fn summary(&self) -> (r: String)
        ensures
            r@ == summary_spec(self.replication@),
    {
        let mut res = String::new();
        res.append("LeaderMetrics{");
        let mut i: usize = 0;
        while i < self.replication.len()
            invariant
                i <= self.replication@.len(),
                res@ == "LeaderMetrics{"@ + entries_spec(self.replication@.take(i as int)),
            decreases self.replication@.len() - i,
        {
            proof {
                assert(self.replication@.take(i + 1).drop_last() =~= self.replication@.take(
                    i as int,
                ));
                assert(self.replication@.take(i + 1).last() == self.replication@[i as int]);
            }
            if i > 0 {
                res.append(", ");
            }
            let (t, m) = self.replication[i];
            let ts = u64_dec(t);
            res.append(ts.as_str());
            res.append(":");
            let ms = m.summary();
            res.append(ms.as_str());
            proof {
                assert(res@ =~= "LeaderMetrics{"@ + entries_spec(self.replication@.take(i + 1)));
            }
            i += 1;
        }
        res.append("}");
        proof {
            assert(self.replication@.take(self.replication@.len() as int) =~= self.replication@);
            assert(res@ =~= summary_spec(self.replication@));
        }
        res
    }
}

impl ReplicationMetrics {
    /// The matched log id as `term-node-index`.
    pub fn summary(&self) -> (r: String)
        ensures
            r@ == rm_spec(*self),
    {
        let mut res = u64_dec(self.matched_leader_id.term);
        res.append("-");
        let ns = u64_dec(self.matched_leader_id.node_id);
        res.append(ns.as_str());
        res.append("-");
        let is = u64_dec(self.matched_index);
        res.append(is.as_str());
        proof {
            assert(res@ =~= rm_spec(*self));
        }
        res
    }
}

/// Rendering of one record's value.
pub open spec fn rm_spec(m: ReplicationMetrics) -> Seq<char> {
    dec_seq(m.matched_leader_id.term as int) + "-"@ + dec_seq(m.matched_leader_id.node_id as int)
        + "-"@ + dec_seq(m.matched_index as int)
}

/// Rendering of one record.
pub open spec fn entry_spec(t: u64, m: ReplicationMetrics) -> Seq<char> {
    dec_seq(t as int) + ":"@ + rm_spec(m)
}

/// Rendering of all records, separated by commas.
pub open spec fn entries_spec(s: Seq<(u64, ReplicationMetrics)>) -> Seq<char>
    decreases s.len(),
{
    if s.len() == 0 {
        Seq::empty()
    } else if s.len() == 1 {
        entry_spec(s[0].0, s[0].1)
    } else {
        entries_spec(s.drop_last()) + ", "@ + entry_spec(s.last().0, s.last().1)
    }
}

/// The whole rendering.
pub open spec fn summary_spec(s: Seq<(u64, ReplicationMetrics)>) -> Seq<char> {
    "LeaderMetrics{"@ + entries_spec(s) + "}"@
}

/// Rewrites the record of one target that this leader already reports,
/// provided the matched leader id is unchanged.
pub struct UpdateMatchedLogId {
    pub target: u64,
    pub matched: LogId,
}

impl UpdateMatchedLogId {
    /// In-place update: only the matched index of an existing record with
    /// the same leader id may change.
    pub fn apply_in_place(&self, to: &mut LeaderMetrics) -> (r: Result<(), UpdateError>)
        requires
            old(to).wf(),
        ensures
            final(to).wf(),
            (r is Ok) == (m_tracked(old(to).replication@, self.target) && m_value(
                old(to).replication@,
                self.target,
            ).matched_leader_id == self.matched.leader_id),
            r is Err ==> (*final(to) == *old(to) && r == Err::<(), UpdateError>(
                UpdateError::CanNotUpdateInPlace,
            )),
            r is Ok ==> {
                &&& forall|t: u64|
                    m_tracked(final(to).replication@, t) == m_tracked(old(to).replication@, t)
                &&& m_value(final(to).replication@, self.target) == (ReplicationMetrics {
                    matched_leader_id: self.matched.leader_id,
                    matched_index: self.matched.index,
                })
                &&& forall|t: u64|
                    m_tracked(old(to).replication@, t) && t != self.target ==> m_value(
                        final(to).replication@,
                        t,
                    ) == m_value(old(to).replication@, t)
            },
    {
        let ghost s0 = to.replication@;
        let n = to.replication.len();
        let mut i: usize = 0;
        while i < n
            invariant
                i <= n,
                n == to.replication@.len(),
                to.replication@ == s0,
                s0 == old(to).replication@,
                *to == *old(to),
                m_sorted(s0),
                forall|k: int| 0 <= k < i ==> (#[trigger] s0[k]).0 != self.target,
            decreases n - i,
        {
            let (t, m) = to.replication[i];
            if t == self.target {
                proof {
                    lemma_m_idx(s0, i as int);
                }
                if m.matched_leader_id == self.matched.leader_id {
                    let nm = ReplicationMetrics {
                        matched_leader_id: self.matched.leader_id,
                        matched_index: self.matched.index,
                    };
                    to.replication[i] = (t, nm);
                    proof {
                        lemma_m_update(s0, to.replication@, i as int, t, nm);
                    }
                    return Ok(());
                } else {
                    return Err(UpdateError::CanNotUpdateInPlace);
                }
            }
            i += 1;
        }
        proof {
            assert(!m_tracked(s0, self.target)) by {
                if m_tracked(s0, self.target) {
                    let k = choose|k: int| 0 <= k < s0.len() && (#[trigger] s0[k]).0 == self.target;
                }
            }
        }
        Err(UpdateError::CanNotUpdateInPlace)
    }

    /// Full update: insert or replace the record, keeping the order.
    pub fn apply_mut(&self, to: &mut LeaderMetrics)
        requires
            old(to).wf(),
        ensures
            final(to).wf(),
            forall|t: u64|
                m_tracked(final(to).replication@, t) == (m_tracked(old(to).replication@, t) || t
                    == self.target),
            m_value(final(to).replication@, self.target) == (ReplicationMetrics {
                matched_leader_id: self.matched.leader_id,
                matched_index: self.matched.index,
            }),
            forall|t: u64|
                m_tracked(old(to).replication@, t) && t != self.target ==> m_value(
                    final(to).replication@,
                    t,
                ) == m_value(old(to).replication@, t),
    {
        let nm = ReplicationMetrics {
            matched_leader_id: self.matched.leader_id,
            matched_index: self.matched.index,
        };
        let ghost s0 = to.replication@;
        let n = to.replication.len();
        let mut i: usize = 0;
        while i < n
            invariant
                i <= n,
                n == to.replication@.len(),
                to.replication@ == s0,
                s0 == old(to).replication@,
                *to == *old(to),
                m_sorted(s0),
                nm == (ReplicationMetrics {
                    matched_leader_id: self.matched.leader_id,
                    matched_index: self.matched.index,
                }),
                forall|k: int| 0 <= k < i ==> (#[trigger] s0[k]).0 < self.target,
            decreases n - i,
        {
            let (t, _m) = to.replication[i];
            if t == self.target {
                proof {
                    lemma_m_idx(s0, i as int);
                }
                to.replication[i] = (t, nm);
                proof {
                    lemma_m_update(s0, to.replication@, i as int, t, nm);
                }
                return ;
            }
            if t > self.target {
                // The record is absent: this is its sorted position.
                to.replication.insert(i, (self.target, nm));
                proof {
                    assert forall|k: int| i <= k < s0.len() implies (#[trigger] s0[k]).0
                        > self.target by {
                        assert(k > i ==> s0[i as int].0 < s0[k].0);
                    }
                    lemma_m_insert(s0, to.replication@, i as int, self.target, nm);
                }
                return ;
            }
            i += 1;
        }
        // Every key is smaller: append at the end.
        to.replication.insert(i, (self.target, nm));
        proof {
            lemma_m_insert(s0, to.replication@, i as int, self.target, nm);
        }
    }
}

/// Removes one target's record.
pub struct RemoveTarget {
    pub target: u64,
}

impl RemoveTarget {
    /// Removing shrinks the map; it can never be done in place.
    pub fn apply_in_place(&self, _to: &LeaderMetrics) -> (r: Result<(), UpdateError>)
        ensures
            r == Err::<(), UpdateError>(UpdateError::CanNotUpdateInPlace),
    {
        Err(UpdateError::CanNotUpdateInPlace)
    }

    /// Full update: drop the record, if present.
    pub fn apply_mut(&self, to: &mut LeaderMetrics)
        requires
            old(to).wf(),
        ensures
            final(to).wf(),
            forall|t: u64|
                m_tracked(final(to).replication@, t) == (m_tracked(old(to).replication@, t) && t
                    != self.target),
            forall|t: u64|
                m_tracked(old(to).replication@, t) && t != self.target ==> m_value(
                    final(to).replication@,
                    t,
                ) == m_value(old(to).replication@, t),
    {
        let ghost s0 = to.replication@;
        let n = to.replication.len();
        let mut i: usize = 0;
        while i < n
            invariant
                i <= n,
                n == to.replication@.len(),
                to.replication@ == s0,
                s0 == old(to).replication@,
                *to == *old(to),
                m_sorted(s0),
                forall|k: int| 0 <= k < i ==> (#[trigger] s0[k]).0 != self.target,
            decreases n - i,
        {
            let (t, _m) = to.replication[i];
            if t == self.target {
                let _ = to.replication.remove(i);
                proof {
                    lemma_m_remove(s0, to.replication@, i as int, self.target);
                }
                return ;
            }
            i += 1;
        }
        proof {
            assert(!m_tracked(s0, self.target)) by {
                if m_tracked(s0, self.target) {
                    let k = choose|k: int| 0 <= k < s0.len() && (#[trigger] s0[k]).0 == self.target;
                }
            }
        }
    }
}

/// The digit character for `d`.
pub open spec fn dec_digit(d: int) -> char {
    if d == 0 {
        '0'
    } else if d == 1 {
        '1'
    } else if d == 2 {
        '2'
    } else if d == 3 {
        '3'
    } else if d == 4 {
        '4'
    } else if d == 5 {
        '5'
    } else if d == 6 {
        '6'
    } else if d == 7 {
        '7'
    } else if d == 8 {
        '8'
    } else {
        '9'
    }
}

/// Decimal rendering of a nonnegative number, most significant digit
/// first.
pub open spec fn dec_seq(n: int) -> Seq<char>
    decreases n,
{
    if n < 10 {
        seq![dec_digit(n)]
    } else {
        dec_seq(n / 10).push(dec_digit(n % 10))
    }
}

/// The single-character string for digit `d`.
fn digit_str(d: u64) -> (r: &'static str)
    requires
        d < 10,
    ensures
        r@ == seq![dec_digit(d as int)],
{
    let r: &'static str = if d == 0 {
        "0"
    } else if d == 1 {
        "1"
    } else if d == 2 {
        "2"
    } else if d == 3 {
        "3"
    } else if d == 4 {
        "4"
    } else if d == 5 {
        "5"
    } else if d == 6 {
        "6"
    } else if d == 7 {
        "7"
    } else if d == 8 {
        "8"
    } else {
        "9"
    };
    proof {
        reveal_strlit("0");
        reveal_strlit("1");
        reveal_strlit("2");
        reveal_strlit("3");
        reveal_strlit("4");
        reveal_strlit("5");
        reveal_strlit("6");
        reveal_strlit("7");
        reveal_strlit("8");
        reveal_strlit("9");
        assert(r@ =~= seq![dec_digit(d as int)]);
    }
    r
}

/// Decimal rendering of `x`.
pub fn u64_dec(x: u64) -> (r: String)
    ensures
        r@ == dec_seq(x as int),
    decreases x,
{
    if x < 10 {
        let s = digit_str(x);
        let mut r = String::new();
        r.append(s);
        proof {
            assert(r@ =~= dec_seq(x as int));
        }
        r
    } else {
        let mut r = u64_dec(x / 10);
        let s = digit_str(x % 10);
        r.append(s);
        proof {
            assert(r@ =~= dec_seq(x as int));
        }
        r
    }
}

/// Updating one position with the same key keeps the key set and every
/// other record.
proof fn lemma_m_update(
    s0: Seq<(u64, ReplicationMetrics)>,
    s1: Seq<(u64, ReplicationMetrics)>,
    idx: int,
    t: u64,
    m: ReplicationMetrics,
)
    requires
        m_sorted(s0),
        0 <= idx < s0.len(),
        s0[idx].0 == t,
        s1 == s0.update(idx, (t, m)),
    ensures
        m_sorted(s1),
        forall|u: u64| m_tracked(s1, u) == m_tracked(s0, u),
        forall|u: u64| m_tracked(s0, u) && u != t ==> m_value(s1, u) == m_value(s0, u),
        m_value(s1, t) == m,
    // The order, hence key distinctness, carries over position by position.
{
    assert forall|u: u64| m_tracked(s1, u) == m_tracked(s0, u) by {
        if m_tracked(s1, u) {
            let k = choose|i: int| 0 <= i < s1.len() && (#[trigger] s1[i]).0 == u;
            assert(s0[k].0 == u);
        }
        if m_tracked(s0, u) {
            let k = choose|i: int| 0 <= i < s0.len() && (#[trigger] s0[i]).0 == u;
            assert(s1[k].0 == u);
        }
    }
    assert forall|u: u64| m_tracked(s0, u) && u != t implies m_value(s1, u) == m_value(s0, u) by {
        let k = choose|i: int| 0 <= i < s0.len() && (#[trigger] s0[i]).0 == u;
        lemma_m_idx(s0, k);
        assert(s1[k].0 == u);
        lemma_m_idx(s1, k);
    }
    lemma_m_idx(s1, idx);
}

/// The position holding a key is unique under sortedness.
proof fn lemma_m_idx(s: Seq<(u64, ReplicationMetrics)>, i: int)
    requires
        m_sorted(s),
        0 <= i < s.len(),
    ensures
        m_tracked(s, s[i].0),
        m_value(s, s[i].0) == s[i].1,
{
    let t = s[i].0;
    assert(m_tracked(s, t));
    let j = choose|j: int| 0 <= j < s.len() && (#[trigger] s[j]).0 == t;
    if j != i {
        if j < i {
            assert(s[j].0 < s[i].0);
        } else {
            assert(s[i].0 < s[j].0);
        }
    }
}

/// Inserting a fresh key at its sorted position adds exactly that record.
proof fn lemma_m_insert(
    s0: Seq<(u64, ReplicationMetrics)>,
    s1: Seq<(u64, ReplicationMetrics)>,
    idx: int,
    t: u64,
    m: ReplicationMetrics,
)
    requires
        m_sorted(s0),
        0 <= idx <= s0.len(),
        forall|k: int| 0 <= k < idx ==> (#[trigger] s0[k]).0 < t,
        forall|k: int| idx <= k < s0.len() ==> (#[trigger] s0[k]).0 > t,
        s1 == s0.insert(idx, (t, m)),
    ensures
        m_sorted(s1),
        forall|u: u64| m_tracked(s1, u) == (m_tracked(s0, u) || u == t),
        forall|u: u64| m_tracked(s0, u) && u != t ==> m_value(s1, u) == m_value(s0, u),
        m_value(s1, t) == m,
{
    assert(s1.len() == s0.len() + 1);
    assert(forall|k: int| 0 <= k < idx ==> s1[k] == s0[k]);
    assert(s1[idx] == (t, m));
    assert(forall|k: int| idx < k < s1.len() ==> s1[k] == s0[k - 1]);
    assert forall|a: int, b: int| 0 <= a < b < s1.len() implies (#[trigger] s1[a]).0 < (
    #[trigger] s1[b]).0 by {}
    assert forall|u: u64| m_tracked(s1, u) == (m_tracked(s0, u) || u == t) by {
        if m_tracked(s1, u) {
            let k = choose|i: int| 0 <= i < s1.len() && (#[trigger] s1[i]).0 == u;
            if k < idx {
                assert(s0[k].0 == u);
            } else if k > idx {
                assert(s0[k - 1].0 == u);
            }
        }
        if m_tracked(s0, u) {
            let k = choose|i: int| 0 <= i < s0.len() && (#[trigger] s0[i]).0 == u;
            if k < idx {
                assert(s1[k].0 == u);
            } else {
                assert(s1[k + 1].0 == u);
            }
        }
        if u == t {
            assert(s1[idx].0 == u);
        }
    }
    assert forall|u: u64| m_tracked(s0, u) && u != t implies m_value(s1, u) == m_value(s0, u) by {
        let k = choose|i: int| 0 <= i < s0.len() && (#[trigger] s0[i]).0 == u;
        lemma_m_idx(s0, k);
        if k < idx {
            assert(s1[k].0 == u);
            lemma_m_idx(s1, k);
        } else {
            assert(s1[k + 1].0 == u);
            lemma_m_idx(s1, k + 1);
        }
    }
    lemma_m_idx(s1, idx);
}

/// Removing a key's position drops exactly that record.
proof fn lemma_m_remove(
    s0: Seq<(u64, ReplicationMetrics)>,
    s1: Seq<(u64, ReplicationMetrics)>,
    idx: int,
    t: u64,
)
    requires
        m_sorted(s0),
        0 <= idx < s0.len(),
        s0[idx].0 == t,
        s1 == s0.remove(idx),
    ensures
        m_sorted(s1),
        forall|u: u64| m_tracked(s1, u) == (m_tracked(s0, u) && u != t),
        forall|u: u64| m_tracked(s0, u) && u != t ==> m_value(s1, u) == m_value(s0, u),
{
    assert(s1.len() == s0.len() - 1);
    assert(forall|k: int| 0 <= k < idx ==> s1[k] == s0[k]);
    assert(forall|k: int| idx <= k < s1.len() ==> s1[k] == s0[k + 1]);
    assert forall|u: u64| m_tracked(s1, u) == (m_tracked(s0, u) && u != t) by {
        if m_tracked(s1, u) {
            let k = choose|i: int| 0 <= i < s1.len() && (#[trigger] s1[i]).0 == u;
            if k < idx {
                assert(s0[k].0 == u);
                if u == t {
                    assert(s0[k].0 < s0[idx].0);
                }
            } else {
                assert(s0[k + 1].0 == u);
                if u == t {
                    assert(s0[idx].0 < s0[k + 1].0);
                }
            }
        }
        if m_tracked(s0, u) && u != t {
            let k = choose|i: int| 0 <= i < s0.len() && (#[trigger] s0[i]).0 == u;
            if k < idx {
                assert(s1[k].0 == u);
            } else {
                assert(k != idx);
                assert(s1[k - 1].0 == u);
            }
        }
    }
    assert forall|u: u64| m_tracked(s0, u) && u != t implies m_value(s1, u) == m_value(s0, u) by {
        let k = choose|i: int| 0 <= i < s0.len() && (#[trigger] s0[i]).0 == u;
        lemma_m_idx(s0, k);
        if k < idx {
            assert(s1[k].0 == u);
            lemma_m_idx(s1, k);
        } else {
            assert(k != idx);
            assert(s1[k - 1].0 == u);
            lemma_m_idx(s1, k - 1);
        }
    }
}

} // verus!
