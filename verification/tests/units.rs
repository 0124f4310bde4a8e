//! Unit tests for the building blocks: quorum sets, progress entries,
//! state, clock and metrics.

use raft_repl::clock::ClockProgress;
use raft_repl::log_id::{olid_le_exec, to_log_id, LeaderId, LogId};
use raft_repl::progress::Progress;
use raft_repl::metrics::{
    LeaderMetrics, RemoveTarget, ReplicationMetrics, UpdateError, UpdateMatchedLogId,
};
use raft_repl::progress_entry::{Inflight, ProgressEntry, ProgressError};
use raft_repl::quorum::QuorumSet;
use raft_repl::state::{Membership, RaftState, Vote};

fn lid(term: u64, node: u64, index: u64) -> LogId {
    LogId::new(term, node, index)
}

/// The state slice works as a small in-memory log store: appends extend
/// the key log ids, lookups recover each entry's leader, purge and commit
/// move their watermarks.
#[test]
pub fn test_mem_store() {
    let membership = Membership {
        voters: QuorumSet::Uniform(vec![1, 2, 3]),
        learners: Vec::new(),
    };
    let vote = Vote {
        leader_id: LeaderId {
            term: 2,
            node_id: 1,
        },
    };
    let mut state = RaftState::new(vote, membership);
    assert_eq!(*state.last_log_id(), None);

    // Two leader segments: term 1 wrote 0..=2, term 2 wrote 3..=5.
    for i in 0..=2 {
        state.append_log_id(lid(1, 1, i));
    }
    for i in 3..=5 {
        state.append_log_id(lid(2, 1, i));
    }
    assert_eq!(*state.last_log_id(), Some(lid(2, 1, 5)));
    assert_eq!(state.log_id_at(0), lid(1, 1, 0));
    assert_eq!(state.log_id_at(2), lid(1, 1, 2));
    assert_eq!(state.log_id_at(3), lid(2, 1, 3));
    assert_eq!(state.log_id_at(5), lid(2, 1, 5));

    // Commit monotonically, then record a purge intent below it.
    let prev = state.update_committed(&Some(lid(2, 1, 4)));
    assert_eq!(prev, Some(None));
    let none = state.update_committed(&Some(lid(2, 1, 3)));
    assert_eq!(none, None);
    assert_eq!(*state.committed(), Some(lid(2, 1, 4)));
    state.set_purge_upto(lid(1, 1, 2));
    assert_eq!(*state.purge_upto(), Some(lid(1, 1, 2)));
    assert_eq!(*state.last_purged_log_id(), None);
}

#[test]
fn uniform_quorum() {
    let qs = QuorumSet::Uniform(vec![1, 2, 3]);
    assert!(qs.is_quorum(&vec![1, 2]));
    assert!(qs.is_quorum(&vec![1, 2, 3]));
    assert!(!qs.is_quorum(&vec![2]));
    assert!(!qs.is_quorum(&vec![4, 5]));
    assert!(qs.is_voter(2));
    assert!(!qs.is_voter(4));
}

#[test]
fn joint_quorum_needs_both() {
    let qs = QuorumSet::Joint(vec![1, 2, 3], vec![3, 4, 5]);
    assert!(qs.is_quorum(&vec![1, 2, 3, 4]));
    assert!(qs.is_quorum(&vec![2, 3, 4]));
    // A majority of only one configuration is not enough.
    assert!(!qs.is_quorum(&vec![1, 2]));
    assert!(!qs.is_quorum(&vec![4, 5]));
    let mut ids = qs.voter_ids();
    ids.sort();
    assert_eq!(ids, vec![1, 2, 3, 4, 5]);
}

#[test]
fn entry_update_matching_is_exact() {
    let mut e = ProgressEntry::empty(10);
    e.inflight = Inflight::Logs {
        id: 7,
        prev: None,
        last: lid(1, 1, 9),
    };
    // A wrong id changes nothing.
    let r = e.update_matching(6, Some(lid(1, 1, 9)));
    assert_eq!(r, Err(ProgressError::StaleRequestId));
    assert!(matches!(e.inflight, Inflight::Logs { .. }));

    let r = e.update_matching(7, Some(lid(1, 1, 9)));
    assert!(r.is_ok());
    assert_eq!(e.matching, Some(lid(1, 1, 9)));
    assert_eq!(e.end, 10);
    assert_eq!(e.inflight, Inflight::Idle);
}

#[test]
fn entry_conflict_on_snapshot_is_rejected() {
    let mut e = ProgressEntry::empty(10);
    e.inflight = Inflight::Snapshot {
        id: 3,
        last_included: Some(lid(1, 1, 5)),
    };
    let r = e.update_conflicting(3, 4);
    assert_eq!(r, Err(ProgressError::NotLogsInflight));
    assert!(matches!(e.inflight, Inflight::Snapshot { .. }));
}

#[test]
fn olid_order_is_lexicographic() {
    assert!(olid_le_exec(&None, &Some(lid(1, 1, 0))));
    assert!(olid_le_exec(&Some(lid(1, 1, 9)), &Some(lid(2, 1, 0))));
    assert!(!olid_le_exec(&Some(lid(2, 1, 0)), &Some(lid(1, 1, 9))));
    assert!(olid_le_exec(&Some(lid(1, 1, 3)), &Some(lid(1, 1, 3))));
    let l = lid(1, 2, 3);
    assert_eq!(to_log_id(Some(&l)), Some(l));
    assert_eq!(to_log_id(None), None);
}

#[test]
fn metrics_summary_renders_records() {
    let mut m = LeaderMetrics::new();
    UpdateMatchedLogId {
        target: 1,
        matched: lid(1, 1, 3),
    }
    .apply_mut(&mut m);
    UpdateMatchedLogId {
        target: 2,
        matched: lid(1, 1, 5),
    }
    .apply_mut(&mut m);
    assert_eq!(m.summary(), "LeaderMetrics{1:1-1-3, 2:1-1-5}");
    assert_eq!(LeaderMetrics::new().summary(), "LeaderMetrics{}");
}

#[test]
fn metrics_update_in_place() {
    let mut m = LeaderMetrics::new();
    UpdateMatchedLogId {
        target: 2,
        matched: lid(1, 1, 3),
    }
    .apply_mut(&mut m);

    // Same leader id: the index moves in place.
    let r = UpdateMatchedLogId {
        target: 2,
        matched: lid(1, 1, 7),
    }
    .apply_in_place(&mut m);
    assert!(r.is_ok());
    assert_eq!(
        m.replication,
        vec![(
            2,
            ReplicationMetrics {
                matched_leader_id: LeaderId {
                    term: 1,
                    node_id: 1
                },
                matched_index: 7
            }
        )]
    );

    // A different leader id cannot be patched in place.
    let r = UpdateMatchedLogId {
        target: 2,
        matched: lid(2, 1, 8),
    }
    .apply_in_place(&mut m);
    assert_eq!(r, Err(UpdateError::CanNotUpdateInPlace));

    // An unknown target cannot be patched in place.
    let r = UpdateMatchedLogId {
        target: 9,
        matched: lid(1, 1, 1),
    }
    .apply_in_place(&mut m);
    assert_eq!(r, Err(UpdateError::CanNotUpdateInPlace));
}

#[test]
fn metrics_insert_sorted_and_remove() {
    let mut m = LeaderMetrics::new();
    for t in [3u64, 1, 2] {
        UpdateMatchedLogId {
            target: t,
            matched: lid(1, 1, t),
        }
        .apply_mut(&mut m);
    }
    let keys: Vec<u64> = m.replication.iter().map(|p| p.0).collect();
    assert_eq!(keys, vec![1, 2, 3]);

    let r = RemoveTarget { target: 2 }.apply_in_place(&m);
    assert_eq!(r, Err(UpdateError::CanNotUpdateInPlace));
    RemoveTarget { target: 2 }.apply_mut(&mut m);
    let keys: Vec<u64> = m.replication.iter().map(|p| p.0).collect();
    assert_eq!(keys, vec![1, 3]);
    // Removing an absent target is a no-op.
    RemoveTarget { target: 9 }.apply_mut(&mut m);
    let keys: Vec<u64> = m.replication.iter().map(|p| p.0).collect();
    assert_eq!(keys, vec![1, 3]);
}

#[test]
fn upgrade_preserves_surviving_entries() {
    let qs = QuorumSet::Uniform(vec![1, 2, 3]);
    let mut p = Progress::new(qs, Vec::new(), ProgressEntry::empty(4));
    let r = p.update_matching(
        2,
        9,
        Some(lid(1, 1, 3)),
    );
    // No inflight was installed, so the update is stale and ignored.
    assert!(r.is_err());
    p.install_inflight(
        2,
        Inflight::Logs {
            id: 9,
            prev: None,
            last: lid(1, 1, 3),
        },
    );
    let r = p.update_matching(2, 9, Some(lid(1, 1, 3)));
    assert!(r.is_ok());
    let before = p.get(2).unwrap();

    let new_qs = QuorumSet::Joint(vec![1, 2, 3], vec![2, 3, 4]);
    let upgraded = p.upgrade_quorum_set(new_qs, Vec::new(), ProgressEntry::empty(4));
    // A target present in both memberships keeps its exact entry.
    assert_eq!(upgraded.get(2).unwrap(), before);
    // A new target starts from the default entry.
    assert_eq!(upgraded.get(4).unwrap(), ProgressEntry::empty(4));
}

#[test]
fn clock_progress_is_monotone() {
    let qs = QuorumSet::Uniform(vec![1, 2, 3]);
    let inner = Progress::new(qs, Vec::new(), ProgressEntry::empty(0));
    let mut c = ClockProgress { inner };
    let g = c.increase_to(2, 10);
    assert_eq!(g, None);
    let g = c.increase_to(2, 5);
    assert_eq!(g, None);
    assert_eq!(c.inner.get(2).unwrap().matching.map(|l| l.index), Some(10));
    // Two of three have acknowledged: the quorum instant is the smaller.
    let g = c.increase_to(1, 7);
    assert_eq!(g, Some(7));
    let g = c.increase_to(3, 9);
    assert_eq!(g, Some(9));
}
