//! Log identifiers and their ordering.
//!
//! A `LogId` is a pair of the leader that proposed the entry and the
//! entry's index.  Leader ids order lexicographically by `(term, node_id)`
//! and log ids lexicographically by `(leader_id, index)`.  `Option<LogId>`
//! is ordered with `None` below every `Some`.

use vstd::prelude::*;

verus! {

/// Identity of the leader that proposed a log entry.
#[derive(Clone, Copy, Debug, PartialEq, Eq, Hash, Structural)]
pub struct LeaderId {
    pub term: u64,
    pub node_id: u64,
}

/// Identifier of a log entry: the proposing leader plus the entry index.
#[derive(Clone, Copy, Debug, PartialEq, Eq, Hash, Structural)]
pub struct LogId {
    pub leader_id: LeaderId,
    pub index: u64,
}

impl LogId {
    pub fn new(term: u64, node_id: u64, index: u64) -> (r: LogId)
        ensures
            r == (LogId { leader_id: LeaderId { term, node_id }, index }),
    {
        LogId { leader_id: LeaderId { term, node_id }, index }
    }
}

/// Lexicographic order on leader ids: first by term, then by node id.
pub open spec fn leader_id_le(a: LeaderId, b: LeaderId) -> bool {
    a.term < b.term || (a.term == b.term && a.node_id <= b.node_id)
}

/// Lexicographic order on log ids: first by leader id, then by index.
pub open spec fn log_id_le(a: LogId, b: LogId) -> bool {
    (leader_id_le(a.leader_id, b.leader_id) && a.leader_id != b.leader_id)
        || (a.leader_id == b.leader_id && a.index <= b.index)
}

/// Order on optional log ids, with `None` below every `Some`.
pub open spec fn olid_le(a: Option<LogId>, b: Option<LogId>) -> bool {
    match (a, b) {
        (Option::None, _) => true,
        (Option::Some(_), Option::None) => false,
        (Option::Some(x), Option::Some(y)) => log_id_le(x, y),
    }
}

/// Strict order on optional log ids.
pub open spec fn olid_lt(a: Option<LogId>, b: Option<LogId>) -> bool {
    olid_le(a, b) && a != b
}

/// Index of the entry following `l`: 0 when `l` is `None`.
pub open spec fn next_index_spec(l: Option<LogId>) -> int {
    match l {
        Option::None => 0,
        Option::Some(x) => x.index + 1,
    }
}

pub fn leader_id_le_exec(a: &LeaderId, b: &LeaderId) -> (r: bool)
    ensures
        r == leader_id_le(*a, *b),
{
    a.term < b.term || (a.term == b.term && a.node_id <= b.node_id)
}

pub fn log_id_le_exec(a: &LogId, b: &LogId) -> (r: bool)
    ensures
        r == log_id_le(*a, *b),
{
    if a.leader_id == b.leader_id {
        a.index <= b.index
    } else {
        leader_id_le_exec(&a.leader_id, &b.leader_id)
    }
}

pub fn olid_le_exec(a: &Option<LogId>, b: &Option<LogId>) -> (r: bool)
    ensures
        r == olid_le(*a, *b),
{
    match (a, b) {
        (Option::None, _) => true,
        (Option::Some(_), Option::None) => false,
        (Option::Some(x), Option::Some(y)) => log_id_le_exec(x, y),
    }
}

pub fn olid_lt_exec(a: &Option<LogId>, b: &Option<LogId>) -> (r: bool)
    ensures
        r == olid_lt(*a, *b),
{
    match (a, b) {
        (Option::None, Option::None) => false,
        (Option::None, Option::Some(_)) => true,
        (Option::Some(_), Option::None) => false,
        (Option::Some(x), Option::Some(y)) => log_id_le_exec(x, y) && !(x == y),
    }
}

/// The greater of two optional log ids.
pub fn olid_max(a: Option<LogId>, b: Option<LogId>) -> (r: Option<LogId>)
    ensures
        r == (if olid_le(a, b) { b } else { a }),
        olid_le(a, r) && olid_le(b, r),
{
    proof {
        lemma_olid_total(a, b);
    }
    if olid_le_exec(&a, &b) {
        b
    } else {
        a
    }
}

/// Index of the entry following `l`, as an executable value.
pub fn next_index(l: &Option<LogId>) -> (r: u64)
    requires
        next_index_spec(*l) <= u64::MAX,
    ensures
        r == next_index_spec(*l),
{
    match l {
        Option::None => 0,
        Option::Some(x) => x.index + 1,
    }
}

/// Copy an optional borrowed log id out by value.
pub fn to_log_id(r: Option<&LogId>) -> (res: Option<LogId>)
    ensures
        res == (match r {
            Some(l) => Some(*l),
            None => None::<LogId>,
        }),
{
    match r {
        Some(l) => Some(*l),
        None => None,
    }
}

/// The order on optional log ids is total.
pub proof fn lemma_olid_total(a: Option<LogId>, b: Option<LogId>)
    ensures
        olid_le(a, b) || olid_le(b, a),
        olid_le(a, b) && olid_le(b, a) ==> a == b,
{
}

/// The order on optional log ids is transitive.
pub proof fn lemma_olid_trans(a: Option<LogId>, b: Option<LogId>, c: Option<LogId>)
    requires
        olid_le(a, b),
        olid_le(b, c),
    ensures
        olid_le(a, c),
{
}

} // verus!
