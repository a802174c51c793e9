use xtable::cahill::{detect_dangerous_structure, edge_set};
use xtable::error::TxnError;
use xtable::locks::{PeerAction, SIEdge, SiTxnPhase};
use xtable::si_lock_manager::SiLockManager;
use xtable::types::{TxnStatus, XtableError};

fn edge(peer: &str, action: PeerAction, key: &str, v: u64) -> SIEdge {
    SIEdge {
        peer: peer.to_string(),
        key: key.to_string(),
        peer_action: action,
        version: v,
    }
}

#[test]
fn no_in_edges_no_cycle() {
    let in_edges = edge_set(vec![]);
    let out_edges = edge_set(vec![edge("T2", PeerAction::Read, "k", 5)]);
    assert_eq!(
        detect_dangerous_structure("T1", &in_edges, &out_edges),
        None
    );
}

#[test]
fn no_out_edges_no_cycle() {
    let in_edges = edge_set(vec![edge("T2", PeerAction::Wrote, "k", 5)]);
    let out_edges = edge_set(vec![]);
    assert_eq!(
        detect_dangerous_structure("T1", &in_edges, &out_edges),
        None
    );
}

#[test]
fn cycle_detected_returns_colliding_peer() {
    let in_edges = edge_set(vec![edge("T2", PeerAction::Wrote, "k", 5)]);
    let out_edges = edge_set(vec![edge("T2", PeerAction::Read, "k", 5)]);
    assert_eq!(
        detect_dangerous_structure("T1", &in_edges, &out_edges),
        Some("T2".to_string())
    );
}

#[test]
fn cycle_detected_returns_colliding_peer_when_inverted() {
    let in_edges = edge_set(vec![edge("T1", PeerAction::Wrote, "k", 5)]);
    let out_edges = edge_set(vec![edge("T1", PeerAction::Read, "k", 5)]);
    assert_eq!(
        detect_dangerous_structure("T2", &in_edges, &out_edges),
        Some("T1".to_string())
    );
}

#[test]
fn multiple_peers_returns_first_colliding_peer() {
    let in_edges = edge_set(vec![
        edge("TA", PeerAction::Wrote, "k1", 5),
        edge("TC", PeerAction::Wrote, "k2", 5),
    ]);
    let out_edges = edge_set(vec![
        edge("TB", PeerAction::Read, "k3", 5),
        edge("TC", PeerAction::Read, "k2", 5),
    ]);
    assert_eq!(
        detect_dangerous_structure("T1", &in_edges, &out_edges),
        Some("TC".to_string())
    );
    assert_eq!(
        detect_dangerous_structure("TZ", &in_edges, &out_edges),
        Some("TC".to_string())
    );
}

#[test]
fn all_transaction_errors_map_to_public_errors() {
    let cases = [
        (TxnError::Conflict("k".into()), 409),
        (TxnError::Aborted("cancelled".into()), 409),
        (TxnError::Expired, 410),
        (TxnError::UnknownTxn("t".into()), 404),
        (TxnError::Backend("s3".into()), 502),
        (TxnError::Storage("disk".into()), 500),
        (TxnError::InvalidState("state".into()), 500),
    ];
    for (error, status) in cases {
        assert_eq!(XtableError::from(error).http_status(), status);
    }
}

#[test]
fn begin_and_register_read() {
    let mut mgr = SiLockManager::new();
    mgr.begin_txn("T1", 10).unwrap();
    mgr.register_read("T1", "k1", 7, "etag-7".to_string());
    let entry = mgr.inspect("T1").unwrap();
    assert_eq!(entry.reads.len(), 1);
    assert_eq!(entry.reads[0].key, "k1");
    assert_eq!(entry.reads[0].version_observed, 7);
}

#[test]
fn register_write_creates_out_edge_to_active_reader() {
    let mut mgr = SiLockManager::new();
    mgr.begin_txn("T1", 10).unwrap();
    mgr.begin_txn("T2", 10).unwrap();
    mgr.register_read("T1", "k1", 7, "etag-7".to_string());
    mgr.register_write("T2", "k1", 11);

    // T2 has out-edge to T1 (read).
    let t2 = mgr.inspect("T2").unwrap();
    assert_eq!(t2.out_edges.len(), 1);
    assert_eq!(t2.out_edges.edges[0].peer, "T1");
    assert!(matches!(
        t2.out_edges.edges[0].peer_action,
        PeerAction::Read
    ));

    // T1 has in-edge from T2 (write).
    let t1 = mgr.inspect("T1").unwrap();
    assert_eq!(t1.in_edges.len(), 1);
    assert_eq!(t1.in_edges.edges[0].peer, "T2");
    assert!(matches!(
        t1.in_edges.edges[0].peer_action,
        PeerAction::Wrote
    ));
}

#[test]
fn find_dangerous_structure_with_two_txns() {
    let mut mgr = SiLockManager::new();
    mgr.begin_txn("T1", 10).unwrap();
    mgr.begin_txn("T2", 10).unwrap();
    // T1 reads X, writes Y. T2 reads Y, writes X.
    mgr.register_read("T1", "X", 5, "e".into());
    mgr.register_read("T2", "Y", 5, "e".into());
    mgr.register_write("T1", "Y", 11);
    mgr.register_write("T2", "X", 11);

    // At least one of T1 or T2 should detect a cycle.
    let t1_danger = mgr.find_dangerous_structure("T1");
    let t2_danger = mgr.find_dangerous_structure("T2");
    // The cycle is: T1 has in-edge from T2 (T2 wrote X, T1 read X at 5 < 11).
    // T1 has out-edge to T2 (T2 read Y, T1 wrote Y).
    // So both detect each other. Tie-breaker: larger txn_id loses.
    assert_eq!(t1_danger.as_deref(), Some("T2"));
    assert_eq!(t2_danger.as_deref(), Some("T1"));
}

#[test]
fn mark_aborted_releases_locks() {
    let mut mgr = SiLockManager::new();
    mgr.begin_txn("T1", 10).unwrap();
    mgr.register_read("T1", "k1", 5, "e".into());
    mgr.mark_aborted("T1");
    assert!(mgr.inspect("T1").is_none());
}

#[test]
fn mark_committed_promotes_to_recently_committed() {
    let mut mgr = SiLockManager::new();
    mgr.begin_txn("T1", 10).unwrap();
    mgr.register_write("T1", "k1", 11);
    mgr.mark_committed("T1", 11);
    let entry = mgr.inspect("T1").unwrap();
    assert_eq!(entry.status, SiTxnPhase::Committed);
}

#[test]
fn a_transaction_is_no_peer_of_itself() {
    let own = edge_set(vec![edge("T1", PeerAction::Wrote, "k", 5)]);
    let own_out = edge_set(vec![edge("T1", PeerAction::Read, "k", 5)]);
    assert_eq!(detect_dangerous_structure("T1", &own, &own_out), None);
}

#[test]
fn public_errors_become_storage_errors() {
    let storage = TxnError::Storage("xerror".into());
    assert_eq!(TxnError::from(XtableError::conflict("k".into())), storage);
    assert_eq!(TxnError::from(XtableError::backend("b".into())), storage);
}

#[test]
fn transaction_errors_keep_their_texts() {
    let text = |e: TxnError| e.into_public().message().to_string();
    assert_eq!(text(TxnError::Conflict("k".into())), "conflict on keys: k");
    assert_eq!(text(TxnError::Aborted("r".into())), "aborted: r");
    assert_eq!(text(TxnError::Expired), "txn expired");
    assert_eq!(text(TxnError::UnknownTxn("T".into())), "T");
    assert_eq!(text(TxnError::Backend("b".into())), "b");
    assert_eq!(text(TxnError::Storage("s".into())), "s");
    assert_eq!(text(TxnError::InvalidState("x".into())), "invalid state: x");
}

#[test]
fn a_second_begin_is_refused_while_the_first_is_active() {
    let mut mgr = SiLockManager::new();
    mgr.begin_txn("T1", 10).unwrap();
    assert!(mgr.begin_txn("T1", 10).is_err());
    assert_eq!(mgr.active_txn_ids(), vec!["T1".to_string()]);
    mgr.mark_committed("T1", 11);
    assert!(mgr.active_txn_ids().is_empty());
    assert_eq!(mgr.snapshot_for_persist().len(), 1);
}

#[test]
fn a_reader_of_an_old_version_conflicts_with_the_committed_writer() {
    let mut mgr = SiLockManager::new();
    mgr.begin_txn("W", 10).unwrap();
    mgr.begin_txn("R", 10).unwrap();
    mgr.register_write("W", "k", 11);
    mgr.mark_committed("W", 11);
    mgr.register_read("R", "k", 5, "e".into());
    let r = mgr.inspect("R").unwrap();
    assert!(r.in_edges.contains_in_edge_from("W"));
    // A read of the written version misses nothing.
    mgr.begin_txn("S", 11).unwrap();
    mgr.register_read("S", "k", 11, "e".into());
    assert!(mgr.inspect("S").unwrap().in_edges.is_empty());
}

#[test]
fn status_names() {
    assert_eq!(TxnStatus::Active.name(), "Active");
    assert_eq!(TxnStatus::Committing.name(), "Committing");
    assert_eq!(TxnStatus::Committed.name(), "Committed");
    assert_eq!(TxnStatus::Aborted.name(), "Aborted");
}
