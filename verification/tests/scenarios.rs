//! End-to-end scenarios driving the replication handler.

use raft_repl::engine::{Command, EngineConfig, SnapshotPolicy};
use raft_repl::handler::{ReplicationHandler, ReplicationResult, SendNone};
use raft_repl::log_id::{LeaderId, LogId};
use raft_repl::progress_entry::{Inflight, RequestId};
use raft_repl::quorum::QuorumSet;
use raft_repl::state::{Membership, RaftState, Vote};

fn lid(term: u64, node: u64, index: u64) -> LogId {
    LogId::new(term, node, index)
}

fn uniform(voters: Vec<u64>) -> Membership {
    Membership {
        voters: QuorumSet::Uniform(voters),
        learners: Vec::new(),
    }
}

fn config(id: u64) -> EngineConfig {
    EngineConfig {
        id,
        max_payload_entries: 100,
        snapshot_policy: SnapshotPolicy::Never,
    }
}

/// A leader-side state with vote `(term, node)` and a log of entries
/// `(term, node, 0..=last)`.
fn leader_state(term: u64, node: u64, membership: Membership, last: Option<u64>) -> RaftState {
    let vote = Vote {
        leader_id: LeaderId {
            term,
            node_id: node,
        },
    };
    let mut state = RaftState::new(vote, membership);
    if let Some(last) = last {
        for i in 0..=last {
            state.append_log_id(lid(term, node, i));
        }
    }
    state
}

fn data_id(h: &ReplicationHandler, target: u64) -> u64 {
    match h.leader.progress.get(target).unwrap().inflight {
        Inflight::Logs { id, .. } => id,
        Inflight::Snapshot { id, .. } => id,
        Inflight::Idle => panic!("no inflight for target {}", target),
    }
}

fn ok_matching(t: u64, l: LogId) -> Result<ReplicationResult, String> {
    let _ = t;
    Ok(ReplicationResult {
        sending_time: 1,
        result: Ok(Some(l)),
    })
}

#[test]
fn basic_commit() {
    // Cluster {1,2,3}, leader 1, vote (1,1), entries (1,0..=3).
    let state = leader_state(1, 1, uniform(vec![1, 2, 3]), Some(3));
    let mut h = ReplicationHandler::new(config(1), state);
    h.initiate_replication(SendNone::False);
    let id2 = data_id(&h, 2);
    let id3 = data_id(&h, 3);

    h.update_matching(2, id2, Some(lid(1, 1, 3)));
    // One acceptance is not a quorum of three: no commit yet.
    assert_eq!(*h.state().committed(), None);

    h.update_matching(3, id3, Some(lid(1, 1, 3)));
    assert_eq!(*h.state().committed(), Some(lid(1, 1, 3)));
    assert!(h.output.commands.contains(&Command::ReplicateCommitted {
        committed: Some(lid(1, 1, 3))
    }));
    assert!(h.output.commands.contains(&Command::Commit {
        already_committed: None,
        upto: lid(1, 1, 3)
    }));
}

#[test]
fn no_commit_for_prior_term() {
    // Leader 1 at term 2 inherits entries of term 1; a quorum on (1,4)
    // must not commit, because that entry is not from the current term.
    let state = leader_state(1, 1, uniform(vec![1, 2, 3]), Some(4));
    let mut state = state;
    state.vote = Vote {
        leader_id: LeaderId {
            term: 2,
            node_id: 1,
        },
    };
    let mut h = ReplicationHandler::new(config(1), state);
    h.initiate_replication(SendNone::False);
    let id2 = data_id(&h, 2);
    let id3 = data_id(&h, 3);
    h.update_matching(2, id2, Some(lid(1, 1, 4)));
    h.update_matching(3, id3, Some(lid(1, 1, 4)));
    assert_eq!(h.leader.progress.granted, Some(lid(1, 1, 4)));
    assert_eq!(*h.state().committed(), None);
    for c in &h.output.commands {
        assert!(!matches!(c, Command::Commit { .. }));
        assert!(!matches!(c, Command::ReplicateCommitted { .. }));
    }
}

#[test]
fn conflict_bisection() {
    // Target 2: matching None, end = 10.  The first send covers the whole
    // log; a conflict at 5 shrinks the window so the next send stops at 4.
    let state = leader_state(1, 1, uniform(vec![1, 2, 3]), Some(9));
    let mut h = ReplicationHandler::new(config(1), state);
    h.initiate_replication(SendNone::False);
    let id2 = data_id(&h, 2);
    assert_eq!(
        h.leader.progress.get(2).unwrap().inflight,
        Inflight::Logs {
            id: id2,
            prev: None,
            last: lid(1, 1, 9)
        }
    );

    let r = h.update_conflicting(2, id2, lid(1, 1, 5));
    assert!(r.is_ok());
    let e = h.leader.progress.get(2).unwrap();
    assert_eq!(e.end, 5);
    assert_eq!(e.inflight, Inflight::Idle);

    h.initiate_replication(SendNone::False);
    let e = h.leader.progress.get(2).unwrap();
    match e.inflight {
        Inflight::Logs { prev, last, .. } => {
            assert_eq!(prev, None);
            assert_eq!(last, lid(1, 1, 4));
        }
        other => panic!("expected a logs inflight, got {:?}", other),
    }
}

#[test]
fn joint_consensus_commit() {
    // Membership {1,2,3} -> joint({1,2,3},{3,4,5}).  Matchings: 1,2 at
    // (1,7); 3,4,5 at (1,6).  Quorum in both sets only holds at (1,6).
    let state = leader_state(1, 1, uniform(vec![1, 2, 3]), Some(7));
    let mut h = ReplicationHandler::new(config(1), state);
    let joint = Membership {
        voters: QuorumSet::Joint(vec![1, 2, 3], vec![3, 4, 5]),
        learners: Vec::new(),
    };
    h.append_membership(&lid(1, 1, 7), &joint);
    h.update_local_progress(Some(lid(1, 1, 7)));
    let id2 = data_id(&h, 2);
    let id3 = data_id(&h, 3);
    let id4 = data_id(&h, 4);
    let id5 = data_id(&h, 5);
    h.update_matching(2, id2, Some(lid(1, 1, 7)));
    h.update_matching(3, id3, Some(lid(1, 1, 6)));
    h.update_matching(4, id4, Some(lid(1, 1, 6)));
    h.update_matching(5, id5, Some(lid(1, 1, 6)));
    assert_eq!(h.leader.progress.granted, Some(lid(1, 1, 6)));
    assert_eq!(*h.state().committed(), Some(lid(1, 1, 6)));
    assert!(h.output.commands.contains(&Command::Commit {
        already_committed: None,
        upto: lid(1, 1, 6)
    }));
}

#[test]
fn purge_blocked_then_released() {
    // purge_upto = (1,10); target 2 has an inflight logs range
    // (1,4)..(1,12).  The purge is withheld until 2's reply arrives.
    let state = leader_state(1, 1, uniform(vec![1, 2, 3]), Some(12));
    let mut h = ReplicationHandler::new(config(1), state);
    h.update_local_progress(Some(lid(1, 1, 12)));
    h.initiate_replication(SendNone::False);
    let id2 = data_id(&h, 2);
    let id3 = data_id(&h, 3);
    h.update_matching(2, id2, Some(lid(1, 1, 4)));
    h.update_matching(3, id3, Some(lid(1, 1, 12)));
    assert_eq!(*h.state().committed(), Some(lid(1, 1, 12)));

    // Target 2 lags: resend from (1,4).
    h.initiate_replication(SendNone::False);
    let id2b = data_id(&h, 2);
    assert_eq!(
        h.leader.progress.get(2).unwrap().inflight,
        Inflight::Logs {
            id: id2b,
            prev: Some(lid(1, 1, 4)),
            last: lid(1, 1, 12)
        }
    );

    h.state.set_purge_upto(lid(1, 1, 10));
    let before = h.output.commands.len();
    h.try_purge_log();
    assert_eq!(h.output.commands.len(), before);
    assert_eq!(*h.state().last_purged_log_id(), None);

    // The reply releases the range; the purge then runs.
    let r = h.update_progress(2, RequestId::Data(id2b), ok_matching(2, lid(1, 1, 12)));
    assert!(r.is_ok());
    assert_eq!(*h.state().last_purged_log_id(), Some(lid(1, 1, 10)));
    assert!(h
        .output
        .commands
        .contains(&Command::PurgeLog { upto: lid(1, 1, 10) }));
}

#[test]
fn membership_shrinks_quorum_accepted() {
    // Voters {1..=5} with matchings 1,1,2,2,2: accepted (1,2).  After the
    // joint membership ({1..=5},{1,2,3}) the accepted value drops to
    // (1,1), and `committed` does not regress.
    let state = leader_state(1, 1, uniform(vec![1, 2, 3, 4, 5]), Some(2));
    let mut h = ReplicationHandler::new(config(1), state);
    h.update_local_progress(Some(lid(1, 1, 1)));
    h.initiate_replication(SendNone::False);
    h.update_matching(2, data_id(&h, 2), Some(lid(1, 1, 1)));
    h.update_matching(3, data_id(&h, 3), Some(lid(1, 1, 2)));
    h.update_matching(4, data_id(&h, 4), Some(lid(1, 1, 2)));
    h.update_matching(5, data_id(&h, 5), Some(lid(1, 1, 2)));
    assert_eq!(h.leader.progress.granted, Some(lid(1, 1, 2)));
    assert_eq!(*h.state().committed(), Some(lid(1, 1, 2)));

    let joint = Membership {
        voters: QuorumSet::Joint(vec![1, 2, 3, 4, 5], vec![1, 2, 3]),
        learners: Vec::new(),
    };
    h.append_membership(&lid(1, 1, 2), &joint);
    assert_eq!(h.leader.progress.granted, Some(lid(1, 1, 1)));
    assert_eq!(*h.state().committed(), Some(lid(1, 1, 2)));
}

#[test]
fn stale_reply_changes_nothing() {
    // A reply whose request id does not answer the current inflight is
    // dropped without touching progress, commit, or commands.
    let state = leader_state(1, 1, uniform(vec![1, 2, 3]), Some(3));
    let mut h = ReplicationHandler::new(config(1), state);
    h.initiate_replication(SendNone::False);
    let id2 = data_id(&h, 2);
    let progress_before = h.leader.progress.clone();
    let state_before = h.state.clone();
    let commands_before = h.output.commands.clone();

    h.update_matching(2, id2 + 100, Some(lid(1, 1, 3)));

    assert_eq!(h.leader.progress, progress_before);
    assert_eq!(h.state, state_before);
    assert_eq!(h.output.commands, commands_before);
}

#[test]
fn request_ids_strictly_increase() {
    // Every data `Replicate` across sends, conflicts and a membership
    // change carries a strictly greater id than the one before it.
    let state = leader_state(1, 1, uniform(vec![1, 2, 3]), Some(5));
    let mut h = ReplicationHandler::new(config(1), state);
    h.initiate_replication(SendNone::False);
    let id2 = data_id(&h, 2);
    h.update_conflicting(2, id2, lid(1, 1, 3)).unwrap();
    h.initiate_replication(SendNone::False);
    let joint = Membership {
        voters: QuorumSet::Joint(vec![1, 2, 3], vec![2, 3, 4]),
        learners: Vec::new(),
    };
    h.append_membership(&lid(1, 1, 5), &joint);

    let mut ids: Vec<u64> = Vec::new();
    for c in &h.output.commands {
        if let Command::Replicate { req, .. } = c {
            match req {
                Inflight::Logs { id, .. } => ids.push(*id),
                Inflight::Snapshot { id, .. } => ids.push(*id),
                Inflight::Idle => {}
            }
        }
    }
    assert!(ids.len() >= 4);
    for w in ids.windows(2) {
        assert!(w[0] < w[1], "ids must strictly increase: {:?}", ids);
    }
}

#[test]
fn heartbeat_error_keeps_inflight() {
    // A transport error on a heartbeat leaves the data inflight alone; on
    // a data request it clears the inflight so the range is resent.
    let state = leader_state(1, 1, uniform(vec![1, 2, 3]), Some(3));
    let mut h = ReplicationHandler::new(config(1), state);
    h.initiate_replication(SendNone::False);
    let id2 = data_id(&h, 2);

    let r = h.update_progress(2, RequestId::HeartBeat, Err("connection reset".to_string()));
    assert!(r.is_ok());
    assert_eq!(data_id(&h, 2), id2);

    let r = h.update_progress(2, RequestId::Data(id2), Err("connection reset".to_string()));
    assert!(r.is_ok());
    assert_eq!(h.leader.progress.get(2).unwrap().inflight, Inflight::Idle);
}

#[test]
fn matching_never_decreases() {
    // An older (smaller) acceptance can arrive late: matching keeps its
    // greatest value.
    let state = leader_state(1, 1, uniform(vec![1, 2, 3]), Some(5));
    let mut h = ReplicationHandler::new(config(1), state);
    h.initiate_replication(SendNone::False);
    h.update_matching(2, data_id(&h, 2), Some(lid(1, 1, 5)));
    assert_eq!(
        h.leader.progress.get(2).unwrap().matching,
        Some(lid(1, 1, 5))
    );
    // The leader's own fast path is monotone too: an older completion is
    // ignored.
    h.update_local_progress(Some(lid(1, 1, 5)));
    assert_eq!(
        h.leader.progress.get(1).unwrap().matching,
        Some(lid(1, 1, 5))
    );
    h.update_local_progress(Some(lid(1, 1, 2)));
    assert_eq!(
        h.leader.progress.get(1).unwrap().matching,
        Some(lid(1, 1, 5))
    );
}

#[test]
fn snapshot_for_lagging_target() {
    // The entries a fresh target needs were purged: the leader sends a
    // snapshot instead of logs.
    let joint = uniform(vec![1, 2, 3]);
    let mut state = leader_state(1, 1, joint, Some(9));
    // Commit everything, then purge up to 5.
    let prev = state.update_committed(&Some(lid(1, 1, 9)));
    assert_eq!(prev, Some(None));
    state.set_purge_upto(lid(1, 1, 5));
    state.snapshot_last_log_id = Some(lid(1, 1, 5));
    let mut h = ReplicationHandler::new(config(1), state);
    h.try_purge_log();
    assert_eq!(*h.state().last_purged_log_id(), Some(lid(1, 1, 5)));

    h.initiate_replication(SendNone::False);
    match h.leader.progress.get(2).unwrap().inflight {
        Inflight::Snapshot { last_included, .. } => {
            assert_eq!(last_included, Some(lid(1, 1, 5)));
        }
        other => panic!("expected a snapshot inflight, got {:?}", other),
    }
}

#[test]
fn heartbeat_updates_only_clock() {
    let state = leader_state(1, 1, uniform(vec![1, 2, 3]), Some(3));
    let mut h = ReplicationHandler::new(config(1), state);
    let progress_before = h.leader.progress.clone();
    let r = h.update_progress(
        2,
        RequestId::HeartBeat,
        Ok(ReplicationResult {
            sending_time: 42,
            result: Ok(None),
        }),
    );
    assert!(r.is_ok());
    assert_eq!(h.leader.progress, progress_before);
    let e = h.leader.clock_progress.inner.get(2).unwrap();
    assert_eq!(e.matching.map(|l| l.index), Some(42));
}

#[test]
fn payload_cap_limits_the_range() {
    // max_payload_entries = 3 over a log 0..=9: the first range stops at
    // index 2.
    let state = leader_state(1, 1, uniform(vec![1, 2, 3]), Some(9));
    let cfg = EngineConfig {
        id: 1,
        max_payload_entries: 3,
        snapshot_policy: SnapshotPolicy::Never,
    };
    let mut h = ReplicationHandler::new(cfg, state);
    h.initiate_replication(SendNone::False);
    match h.leader.progress.get(2).unwrap().inflight {
        Inflight::Logs { prev, last, .. } => {
            assert_eq!(prev, None);
            assert_eq!(last, lid(1, 1, 2));
        }
        other => panic!("expected a logs inflight, got {:?}", other),
    }
}

#[test]
fn send_none_emits_heartbeat() {
    // A target that holds the whole log gets an idle `Replicate` (a
    // heartbeat) only when asked to.
    let state = leader_state(1, 1, uniform(vec![1, 2, 3]), Some(2));
    let mut h = ReplicationHandler::new(config(1), state);
    h.initiate_replication(SendNone::False);
    h.update_matching(2, data_id(&h, 2), Some(lid(1, 1, 2)));
    let before = h.output.commands.len();
    h.initiate_replication(SendNone::False);
    assert_eq!(h.output.commands.len(), before);
    h.initiate_replication(SendNone::True);
    assert!(h.output.commands.contains(&Command::Replicate {
        target: 2,
        req: Inflight::Idle
    }));
}

#[test]
fn commit_commands_in_order() {
    // After the quorum acceptance, the two commit commands follow the two
    // replicate commands, in order.
    let state = leader_state(1, 1, uniform(vec![1, 2, 3]), Some(3));
    let mut h = ReplicationHandler::new(config(1), state);
    h.initiate_replication(SendNone::False);
    h.update_matching(2, data_id(&h, 2), Some(lid(1, 1, 3)));
    h.update_matching(3, data_id(&h, 3), Some(lid(1, 1, 3)));
    assert_eq!(h.output.commands.len(), 4);
    assert!(matches!(h.output.commands[0], Command::Replicate { target: 2, .. }));
    assert!(matches!(h.output.commands[1], Command::Replicate { target: 3, .. }));
    assert_eq!(
        h.output.commands[2],
        Command::ReplicateCommitted {
            committed: Some(lid(1, 1, 3))
        }
    );
    assert_eq!(
        h.output.commands[3],
        Command::Commit {
            already_committed: None,
            upto: lid(1, 1, 3)
        }
    );
}

#[test]
fn snapshot_triggered_on_commit() {
    // With a snapshot policy of two entries since the last snapshot, the
    // commit that crosses the threshold also triggers a snapshot.
    let state = leader_state(1, 1, uniform(vec![1, 2, 3]), Some(4));
    let cfg = EngineConfig {
        id: 1,
        max_payload_entries: 100,
        snapshot_policy: SnapshotPolicy::LogsSinceLast(2),
    };
    let mut h = ReplicationHandler::new(cfg, state);
    h.initiate_replication(SendNone::False);
    h.update_matching(2, data_id(&h, 2), Some(lid(1, 1, 4)));
    h.update_matching(3, data_id(&h, 3), Some(lid(1, 1, 4)));
    let n = h.output.commands.len();
    assert_eq!(h.output.commands[n - 1], Command::TriggerSnapshot);
    assert_eq!(
        h.output.commands[n - 2],
        Command::Commit {
            already_committed: None,
            upto: lid(1, 1, 4)
        }
    );
    assert_eq!(
        h.output.commands[n - 3],
        Command::ReplicateCommitted {
            committed: Some(lid(1, 1, 4))
        }
    );
}
