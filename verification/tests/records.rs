use xtable::locks::{PeerAction, SIEdge, SIEdgeSet};
use xtable::txn_state::TxnStateRecord;
use xtable::types::{TxnStatus, Version};
use xtable::version_index::VersionRecord;
use xtable::wal::{encode_seq, WalRecord};

#[test]
fn edge_in_vs_out_directions() {
    let e1 = SIEdge {
        peer: "T2".into(),
        key: "k1".into(),
        peer_action: PeerAction::Read,
        version: 10,
    };
    assert!(!e1.contains_in_edge_from("T2"));
    let e2 = SIEdge {
        peer: "T1".into(),
        key: "k1".into(),
        peer_action: PeerAction::Wrote,
        version: 10,
    };
    assert!(e2.contains_in_edge_from("T1"));
}

#[test]
fn edge_set_contains() {
    let mut s = SIEdgeSet::default();
    assert!(!s.contains_in_edge_from("T1"));
    s.add(SIEdge {
        peer: "T1".into(),
        key: "k".into(),
        peer_action: PeerAction::Wrote,
        version: 5,
    });
    assert!(s.contains_in_edge_from("T1"));
    assert!(!s.contains_in_edge_from("T2"));
}


#[test]
fn txn_state_record_default() {
    let r = TxnStateRecord::new_active(5, None, 0);
    assert_eq!(r.snapshot_version, 5);
    assert_eq!(r.status, TxnStatus::Active);
    assert!(r.write_keys.is_empty());
}


#[test]
fn default_record_is_an_empty_non_tombstone() {
    let record = VersionRecord::default();
    assert_eq!(record.latest_version, Version::zero());
    assert!(record.latest_etag.is_empty());
    assert!(record.latest_backend_key.is_empty());
    assert!(record.last_writer_txn_id.is_empty());
    assert!(!record.tombstone);
    assert_eq!(record.size, 0);
    assert_eq!(record.last_modified_unix_ms, 0);
}

#[test]
fn txn_id_extraction_works_for_all_variants() {
    let records = vec![
        WalRecord::Begin {
            txn_id: "T1".into(),
            snapshot_version: 0,
            idempotency_key: None,
        },
        WalRecord::Stage {
            txn_id: "T1".into(),
            key: "k".into(),
            body_handle: None,
        },
        WalRecord::Committing {
            txn_id: "T1".into(),
            upload_keys: vec![],
        },
        WalRecord::Committed {
            txn_id: "T1".into(),
            commit_version: 5,
        },
        WalRecord::CommitResult {
            txn_id: "T1".into(),
            commit_version: 5,
            success: true,
        },
        WalRecord::Aborted {
            txn_id: "T1".into(),
            reason: "x".into(),
        },
        WalRecord::CahillEdge {
            txn_id: "T1".into(),
            key: "k".into(),
            edges: vec![],
        },
        WalRecord::Commit {
            txn_id: "T1".into(),
            commit_version: 5,
            write_keys: vec![],
        },
        WalRecord::MemtableFlushed {
            chunk_id: "C1".into(),
            up_to_seq: 10,
            up_to_commit_version: 5,
        },
    ];
    for (_i, r) in records[..8].iter().enumerate() {
        assert_eq!(r.txn_id(), Some("T1"));
    }
    assert_eq!(records[8].txn_id(), None);
    assert_eq!(records[8].chunk_id(), Some("C1"));
}

#[test]
fn is_terminal_correct() {
    assert!(WalRecord::CommitResult {
        txn_id: "t".into(),
        commit_version: 1,
        success: true
    }
    .is_terminal());
    assert!(WalRecord::Aborted {
        txn_id: "t".into(),
        reason: "r".into()
    }
    .is_terminal());
    assert!(WalRecord::Commit {
        txn_id: "t".into(),
        commit_version: 1,
        write_keys: vec![],
    }
    .is_terminal());
    assert!(!WalRecord::Begin {
        txn_id: "t".into(),
        snapshot_version: 0,
        idempotency_key: None
    }
    .is_terminal());
    assert!(!WalRecord::CahillEdge {
        txn_id: "t".into(),
        key: "k".into(),
        edges: vec![],
    }
    .is_terminal());
    assert!(!WalRecord::MemtableFlushed {
        chunk_id: "c".into(),
        up_to_seq: 1,
        up_to_commit_version: 1,
    }
    .is_terminal());
}



#[test]
fn sequence_keys_keep_the_order() {
    assert_eq!(encode_seq(0x0102_0304_0506_0708), [1, 2, 3, 4, 5, 6, 7, 8]);
    assert_eq!(encode_seq(u64::MAX), [255; 8]);
    for (a, b) in [(0u64, 1u64), (255, 256), (65_535, 65_536), (1 << 40, (1 << 40) + 1)] {
        assert!(encode_seq(a) < encode_seq(b));
    }
}
