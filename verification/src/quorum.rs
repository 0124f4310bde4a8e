//! Voter configurations and the quorum predicate.
//!
//! A `QuorumSet` is either a single voter configuration or, during joint
//! consensus, a pair of overlapping configurations.  A set of granting
//! targets is a quorum when it holds a strict majority of every
//! configuration.

use vstd::prelude::*;

verus! {

/// The voter configuration under which the leader counts acceptance.
///
/// `Joint` holds two configurations; a quorum must be a majority in both.
#[derive(Clone, Debug, PartialEq, Eq)]
#[verifier::ext_equal]
pub enum QuorumSet {
    Uniform(Vec<u64>),
    Joint(Vec<u64>, Vec<u64>),
}

/// Strictly increasing, hence duplicate-free.
pub open spec fn sorted_distinct(s: Seq<u64>) -> bool {
    forall|i: int, j: int| 0 <= i < j < s.len() ==> s[i] < s[j]
}

/// How many members of `cfg` are in the granting set `s`.
pub open spec fn count_in(cfg: Seq<u64>, s: Set<u64>) -> int
    decreases cfg.len(),
{
    if cfg.len() == 0 {
        0
    } else {
        count_in(cfg.drop_last(), s) + if s.contains(cfg.last()) {
            1int
        } else {
            0int
        }
    }
}

/// A strict majority of one configuration.
pub open spec fn cfg_quorum(cfg: Seq<u64>, s: Set<u64>) -> bool {
    2 * count_in(cfg, s) > cfg.len()
}

/// The quorum predicate: a majority of every configuration.
pub open spec fn is_quorum_spec(qs: QuorumSet, s: Set<u64>) -> bool {
    match qs {
        QuorumSet::Uniform(c) => cfg_quorum(c@, s),
        QuorumSet::Joint(a, b) => cfg_quorum(a@, s) && cfg_quorum(b@, s),
    }
}

/// Membership in some configuration of the quorum set.
pub open spec fn is_voter_spec(qs: QuorumSet, t: u64) -> bool {
    match qs {
        QuorumSet::Uniform(c) => c@.contains(t),
        QuorumSet::Joint(a, b) => a@.contains(t) || b@.contains(t),
    }
}

/// Total size of the configurations, an upper bound on the voter count.
pub open spec fn qs_size(qs: QuorumSet) -> int {
    match qs {
        QuorumSet::Uniform(c) => c@.len() as int,
        QuorumSet::Joint(a, b) => a@.len() as int + b@.len() as int,
    }
}

/// Well-formed quorum set: each configuration nonempty and strictly sorted.
pub open spec fn qs_wf(qs: QuorumSet) -> bool {
    match qs {
        QuorumSet::Uniform(c) => c@.len() > 0 && sorted_distinct(c@),
        QuorumSet::Joint(a, b) => a@.len() > 0 && b@.len() > 0 && sorted_distinct(a@)
            && sorted_distinct(b@),
    }
}

impl QuorumSet {
    pub open spec fn wf(self) -> bool {
        qs_wf(self)
    }

    /// Whether `granted` is a quorum under this quorum set.
    pub fn is_quorum(&self, granted: &Vec<u64>) -> (r: bool)
        ensures
            r == is_quorum_spec(*self, granted@.to_set()),
    {
        match self {
            QuorumSet::Uniform(c) => cfg_quorum_exec(c, granted),
            QuorumSet::Joint(a, b) => {
                let qa = cfg_quorum_exec(a, granted);
                let qb = cfg_quorum_exec(b, granted);
                qa && qb
            },
        }
    }

    /// Whether `t` is a voter: a member of some configuration.
    pub fn is_voter(&self, t: u64) -> (r: bool)
        ensures
            r == is_voter_spec(*self, t),
    {
        match self {
            QuorumSet::Uniform(c) => vec_contains_u64(c, t),
            QuorumSet::Joint(a, b) => {
                let ra = vec_contains_u64(a, t);
                let rb = vec_contains_u64(b, t);
                ra || rb
            },
        }
    }

    /// A copy of this quorum set with the same configurations.
    pub fn duplicate(&self) -> (r: QuorumSet)
        ensures
            qs_view_eq(r, *self),
    {
        match self {
            QuorumSet::Uniform(c) => QuorumSet::Uniform(clone_vec_u64(c)),
            QuorumSet::Joint(a, b) => QuorumSet::Joint(clone_vec_u64(a), clone_vec_u64(b)),
        }
    }

    /// All voter ids, each exactly once.
    pub fn voter_ids(&self) -> (r: Vec<u64>)
        ensures
            forall|t: u64| r@.contains(t) <==> is_voter_spec(*self, t),
            forall|i: int, j: int| 0 <= i < j < r@.len() ==> r@[i] != r@[j],
            r@.len() <= qs_size(*self),
    {
        let mut out: Vec<u64> = Vec::new();
        assert(forall|t: u64| !out@.contains(t));
        match self {
            QuorumSet::Uniform(c) => {
                push_absent(&mut out, c);
                assert(forall|t: u64| #[trigger] out@.contains(t) <==> is_voter_spec(*self, t));
            },
            QuorumSet::Joint(a, b) => {
                push_absent(&mut out, a);
                assert(forall|t: u64| #[trigger] out@.contains(t) <==> a@.contains(t));
                push_absent(&mut out, b);
                assert(forall|t: u64| #[trigger] out@.contains(t) <==> (a@.contains(t)
                    || b@.contains(t)));
                assert(forall|t: u64| is_voter_spec(*self, t) <==> (a@.contains(t) || b@.contains(
                    t,
                )));
            },
        }
        out
    }
}

/// Same shape and same configurations, element for element.
///
/// Two quorum sets related this way agree on every voter and every quorum;
/// they may differ as values because the configurations are held in
/// distinct vectors.
pub open spec fn qs_view_eq(a: QuorumSet, b: QuorumSet) -> bool {
    match (a, b) {
        (QuorumSet::Uniform(x), QuorumSet::Uniform(y)) => x@ == y@,
        (QuorumSet::Joint(x1, x2), QuorumSet::Joint(y1, y2)) => x1@ == y1@ && x2@ == y2@,
        _ => false,
    }
}

/// View-equal quorum sets agree on voters, quorums and well-formedness.
pub proof fn lemma_qs_view_eq_props(a: QuorumSet, b: QuorumSet)
    requires
        qs_view_eq(a, b),
    ensures
        forall|t: u64| is_voter_spec(a, t) == is_voter_spec(b, t),
        forall|s: Set<u64>| is_quorum_spec(a, s) == is_quorum_spec(b, s),
        qs_wf(a) == qs_wf(b),
        qs_size(a) == qs_size(b),
{
}

/// An element-for-element copy of `v`.
pub fn clone_vec_u64(v: &Vec<u64>) -> (r: Vec<u64>)
    ensures
        r@ == v@,
{
    let mut r: Vec<u64> = Vec::new();
    let mut i: usize = 0;
    while i < v.len()
        invariant
            i <= v.len(),
            r@ =~= v@.take(i as int),
        decreases v.len() - i,
    {
        r.push(v[i]);
        proof {
            assert(r@ =~= v@.take(i + 1));
        }
        i += 1;
    }
    proof {
        assert(r@ =~= v@);
    }
    r
}

/// Whether `v` holds `x`.
pub fn vec_contains_u64(v: &Vec<u64>, x: u64) -> (r: bool)
    ensures
        r == v@.contains(x),
{
    let mut i: usize = 0;
    while i < v.len()
        invariant
            i <= v.len(),
            forall|k: int| 0 <= k < i ==> v@[k] != x,
        decreases v.len() - i,
    {
        if v[i] == x {
            return true;
        }
        i += 1;
    }
    false
}

/// Append the members of `src` that `out` does not hold yet.
pub(crate) fn push_absent(out: &mut Vec<u64>, src: &Vec<u64>)
    requires
        forall|i: int, j: int| 0 <= i < j < old(out)@.len() ==> old(out)@[i] != old(out)@[j],
    ensures
        forall|t: u64| #[trigger] final(out)@.contains(t) <==> (old(out)@.contains(t)
            || src@.contains(t)),
        forall|i: int, j: int| 0 <= i < j < final(out)@.len() ==> final(out)@[i] != final(out)@[j],
        final(out)@.len() <= old(out)@.len() + src@.len(),
    decreases src@.len(),
{
    let ghost orig = out@;
    let mut i: usize = 0;
    while i < src.len()
        invariant
            i <= src.len(),
            out@.len() <= orig.len() + i,
            forall|t: u64| #[trigger] out@.contains(t) <==> (orig.contains(t) || src@.take(
                i as int,
            ).contains(t)),
            forall|p: int, q: int| 0 <= p < q < out@.len() ==> out@[p] != out@[q],
        decreases src.len() - i,
    {
        let x = src[i];
        let present = vec_contains_u64(out, x);
        let ghost prev = out@;
        if !present {
            out.push(x);
        }
        proof {
            lemma_take_one_more(src@, i as int);
            if !present {
                assert(out@ == prev.push(x));
                assert(out@[prev.len() as int] == x);
                assert(out@.contains(x));
                assert forall|t: u64| #[trigger] out@.contains(t) implies prev.contains(t) || t
                    == x by {
                    let k = choose|k: int| 0 <= k < out@.len() && #[trigger] out@[k] == t;
                    if k < prev.len() {
                        assert(prev[k] == t);
                    }
                }
                assert forall|t: u64| prev.contains(t) implies #[trigger] out@.contains(t) by {
                    let k = choose|k: int| 0 <= k < prev.len() && #[trigger] prev[k] == t;
                    assert(out@[k] == t);
                }
                assert(forall|p: int| 0 <= p < prev.len() ==> #[trigger] prev[p] != x);
            }
        }
        i += 1;
    }
    proof {
        assert(src@.take(src@.len() as int) =~= src@);
    }
}

/// What a one-longer prefix of `s` holds: the shorter prefix plus `s[i]`.
pub proof fn lemma_take_one_more(s: Seq<u64>, i: int)
    requires
        0 <= i < s.len(),
    ensures
        forall|t: u64| s.take(i + 1).contains(t) <==> (s.take(i).contains(t) || t == s[i]),
{
    assert forall|t: u64| s.take(i + 1).contains(t) implies (s.take(i).contains(t) || t
        == s[i]) by {
        let k = choose|k: int| 0 <= k < i + 1 && #[trigger] s.take(i + 1)[k] == t;
        if k < i {
            assert(s.take(i)[k] == t);
        }
    }
    assert forall|t: u64| s.take(i).contains(t) || t == s[i] implies s.take(i + 1).contains(t) by {
        if s.take(i).contains(t) {
            let k = choose|k: int| 0 <= k < i && #[trigger] s.take(i)[k] == t;
            assert(s.take(i + 1)[k] == t);
        } else {
            assert(s.take(i + 1)[i] == t);
        }
    }
}

/// Strict-majority test for one configuration.
fn cfg_quorum_exec(cfg: &Vec<u64>, granted: &Vec<u64>) -> (r: bool)
    ensures
        r == cfg_quorum(cfg@, granted@.to_set()),
{
    let mut count: usize = 0;
    let mut i: usize = 0;
    while i < cfg.len()
        invariant
            i <= cfg.len(),
            count <= i,
            count == count_in(cfg@.take(i as int), granted@.to_set()),
        decreases cfg.len() - i,
    {
        proof {
            assert(cfg@.take(i + 1).drop_last() =~= cfg@.take(i as int));
            assert(cfg@.take(i + 1).last() == cfg@[i as int]);
        }
        if vec_contains_u64(granted, cfg[i]) {
            assert(granted@.to_set().contains(cfg@[i as int]));
            count += 1;
        } else {
            assert(!granted@.to_set().contains(cfg@[i as int]));
        }
        i += 1;
    }
    proof {
        assert(cfg@.take(cfg@.len() as int) =~= cfg@);
        lemma_count_in_bounds(cfg@, granted@.to_set());
    }
    count > cfg.len() / 2
}

/// `count_in` lies between 0 and the configuration's length.
pub proof fn lemma_count_in_bounds(cfg: Seq<u64>, s: Set<u64>)
    ensures
        0 <= count_in(cfg, s) <= cfg.len(),
    decreases cfg.len(),
{
    if cfg.len() > 0 {
        lemma_count_in_bounds(cfg.drop_last(), s);
    }
}

/// Growing the granting set pointwise over `cfg` cannot lower the count.
pub proof fn lemma_count_in_monotone(cfg: Seq<u64>, s1: Set<u64>, s2: Set<u64>)
    requires
        forall|t: u64| cfg.contains(t) && s1.contains(t) ==> s2.contains(t),
    ensures
        count_in(cfg, s1) <= count_in(cfg, s2),
    decreases cfg.len(),
{
    if cfg.len() > 0 {
        assert(forall|t: u64| cfg.drop_last().contains(t) ==> cfg.contains(t)) by {
            assert forall|t: u64| cfg.drop_last().contains(t) implies cfg.contains(t) by {
                let k = choose|k: int| 0 <= k < cfg.drop_last().len() && #[trigger] cfg.drop_last()[k] == t;
                assert(cfg[k] == t);
            }
        }
        lemma_count_in_monotone(cfg.drop_last(), s1, s2);
        assert(cfg.contains(cfg.last()));
    }
}

/// A quorum stays a quorum when the granting set grows (pointwise on voters).
pub proof fn lemma_quorum_monotone(qs: QuorumSet, s1: Set<u64>, s2: Set<u64>)
    requires
        is_quorum_spec(qs, s1),
        forall|t: u64| is_voter_spec(qs, t) && s1.contains(t) ==> s2.contains(t),
    ensures
        is_quorum_spec(qs, s2),
{
    match qs {
        QuorumSet::Uniform(c) => {
            lemma_count_in_monotone(c@, s1, s2);
        },
        QuorumSet::Joint(a, b) => {
            lemma_count_in_monotone(a@, s1, s2);
            lemma_count_in_monotone(b@, s1, s2);
        },
    }
}

/// If every member of `cfg` grants, the count is the whole configuration.
pub proof fn lemma_count_in_full(cfg: Seq<u64>, s: Set<u64>)
    requires
        forall|t: u64| cfg.contains(t) ==> s.contains(t),
    ensures
        count_in(cfg, s) == cfg.len(),
    decreases cfg.len(),
{
    if cfg.len() > 0 {
        assert(forall|t: u64| cfg.drop_last().contains(t) ==> cfg.contains(t)) by {
            assert forall|t: u64| cfg.drop_last().contains(t) implies cfg.contains(t) by {
                let k = choose|k: int| 0 <= k < cfg.drop_last().len() && #[trigger] cfg.drop_last()[k] == t;
                assert(cfg[k] == t);
            }
        }
        lemma_count_in_full(cfg.drop_last(), s);
        assert(cfg.contains(cfg.last()));
    }
}

/// A positive count names a granting member of `cfg`.
pub proof fn lemma_count_in_nonzero_exists(cfg: Seq<u64>, s: Set<u64>)
    requires
        count_in(cfg, s) > 0,
    ensures
        exists|t: u64| cfg.contains(t) && s.contains(t),
    decreases cfg.len(),
{
    if cfg.len() > 0 {
        if s.contains(cfg.last()) {
            assert(cfg.contains(cfg.last()));
        } else {
            lemma_count_in_nonzero_exists(cfg.drop_last(), s);
            let t = choose|t: u64| cfg.drop_last().contains(t) && s.contains(t);
            let k = choose|k: int| 0 <= k < cfg.drop_last().len() && #[trigger] cfg.drop_last()[k] == t;
            assert(cfg[k] == t);
        }
    }
}

/// The full voter set of a well-formed quorum set is a quorum.
pub proof fn lemma_all_voters_quorum(qs: QuorumSet, s: Set<u64>)
    requires
        qs_wf(qs),
        forall|t: u64| is_voter_spec(qs, t) ==> s.contains(t),
    ensures
        is_quorum_spec(qs, s),
{
    match qs {
        QuorumSet::Uniform(c) => {
            lemma_count_in_full(c@, s);
        },
        QuorumSet::Joint(a, b) => {
            lemma_count_in_full(a@, s);
            lemma_count_in_full(b@, s);
        },
    }
}

/// A quorum under a well-formed quorum set names at least one granting voter.
pub proof fn lemma_quorum_has_member(qs: QuorumSet, s: Set<u64>)
    requires
        qs_wf(qs),
        is_quorum_spec(qs, s),
    ensures
        exists|t: u64| is_voter_spec(qs, t) && s.contains(t),
{
    match qs {
        QuorumSet::Uniform(c) => {
            lemma_count_in_nonzero_exists(c@, s);
        },
        QuorumSet::Joint(a, b) => {
            lemma_count_in_nonzero_exists(a@, s);
        },
    }
}

} // verus!
