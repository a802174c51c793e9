use xtable::gc::{gc_version_chains, sweep_stale_txns};
use xtable::store::LocalStore;
use xtable::txn_state::{RecordIndexEntry, TxnStateRecord, WriteSetEntry};
use xtable::types::{ObjectKey, TxnStatus, Version};
use xtable::version_chain::VersionEntry;
use xtable::version_index::VersionRecord;
use xtable::wal::WalRecord;

#[test]
fn open_and_increment_global_version() {
    let mut store = LocalStore::new();
    assert_eq!(store.current_global_version(), 0);
    let v1 = store.next_global_version();
    let v2 = store.next_global_version();
    assert_eq!(v1, 1);
    assert_eq!(v2, 2);
}


#[test]
fn put_and_get_version() {
    let mut store = LocalStore::new();
    let key = ObjectKey::new("foo/bar");
    let rec = VersionRecord {
        latest_version: Version(7),
        latest_etag: "etag-7".into(),
        latest_backend_key: "foo/bar".into(),
        last_writer_txn_id: String::new(),
        tombstone: false,
        size: 42,
        last_modified_unix_ms: 0,
    };
    store.put_version(&key, &rec);
    let got = store.get_version(&key).unwrap();
    assert_eq!(got.latest_version.as_u64(), 7);
    assert_eq!(got.latest_etag, "etag-7");
    assert_eq!(got.size, 42);
}

#[test]
fn get_version_missing_returns_none() {
    let mut store = LocalStore::new();
    let key = ObjectKey::new("missing");
    assert!(store.get_version(&key).is_none());
}

#[test]
fn wal_append_and_iter() {
    let mut store = LocalStore::new();
    let r1 = WalRecord::Begin {
        txn_id: "T1".into(),
        snapshot_version: 0,
        idempotency_key: None,
    };
    let r2 = WalRecord::Committing {
        txn_id: "T1".into(),
        upload_keys: vec![],
    };
    let r3 = WalRecord::Committed {
        txn_id: "T1".into(),
        commit_version: 1,
    };
    store.append_wal(&r1);
    store.append_wal(&r2);
    store.append_wal(&r3);
    let log = store.iter_wal();
    assert_eq!(log.len(), 3);
    assert_eq!(log[0].1, r1);
    assert_eq!(log[1].1, r2);
    assert_eq!(log[2].1, r3);
    assert_eq!(store.last_wal_seq(), 3);
}

#[test]
fn txn_state_roundtrip() {
    let mut store = LocalStore::new();
    let r = TxnStateRecord::new_active(7, Some("idem".into()), 100);
    store.put_txn_state("T", &r);
    let got = store.get_txn_state("T").unwrap();
    assert_eq!(got.snapshot_version, 7);
    assert_eq!(got.idempotency_key.as_deref(), Some("idem"));
}

#[test]
fn put_versions_bulk_works() {
    let mut store = LocalStore::new();
    let rec = VersionRecord {
        latest_version: Version(1),
        latest_etag: "e".into(),
        latest_backend_key: "k".into(),
        last_writer_txn_id: String::new(),
        tombstone: false,
        size: 10,
        last_modified_unix_ms: 0,
    };
    let updates = vec![
        (ObjectKey::new("a"), rec.clone()),
        (ObjectKey::new("b"), rec.clone()),
    ];
    store.put_versions_bulk(&updates);
    assert_eq!(
        store
            .get_version(&ObjectKey::new("a"))
            .unwrap()
            .latest_version,
        Version(1)
    );
    assert_eq!(
        store
            .get_version(&ObjectKey::new("b"))
            .unwrap()
            .latest_version,
        Version(1)
    );
}

#[test]
fn write_set_isolation_between_txns() {
    let mut store = LocalStore::new();
    let e1 = WriteSetEntry {
        backend_key: "k1".into(),
        body_handle: None,
        inline_body: None,
        size: 1,
        content_type: None,
        user_meta: vec![],
        version_at_read: 0,
        deleted: false,
    };
    let e2 = WriteSetEntry {
        backend_key: "k2".into(),
        body_handle: None,
        inline_body: None,
        size: 2,
        content_type: None,
        user_meta: vec![],
        version_at_read: 0,
        deleted: false,
    };
    store.put_write_entry("T1", "k1", &e1);
    store.put_write_entry("T2", "k2", &e2);
    let only_t1 = store.iter_write_set("T1");
    assert_eq!(only_t1.len(), 1);
    assert_eq!(only_t1[0].0, "k1");
}

#[test]
fn record_index_with_body_roundtrip() {
    let mut store = LocalStore::new();
    let entry = RecordIndexEntry {
        commit_version: 42,
        deleted: false,
        chunk_id: "k".into(),
        schema_version: 3,
        txn_id: "TX".into(),
        updated_ms: 1_700_000_000_000,
    };
    let body: serde_json::Value =
        serde_json::from_str(r#"{"a": 1, "b": "hi", "c": [true, false]}"#).unwrap();
    let text = serde_json::to_string(&body).unwrap();
    store
        .put_record_index_with_body("s", "t", "r", &entry, &text)
        .unwrap();
    let (got_entry, got_body) = store
        .get_record_index_with_body("s", "t", "r")
        .unwrap()
        .unwrap();
    assert_eq!(got_entry, entry);
    let got_body: serde_json::Value = serde_json::from_str(&got_body).unwrap();
    assert_eq!(got_body, body);
    let iter = store.iter_record_index("s", "t");
    assert_eq!(iter.len(), 1);
    assert_eq!(iter[0].0, "r");
    assert_eq!(iter[0].1.commit_version, 42);
}

#[test]
fn historical_record_versions_select_snapshot() {
    let mut store = LocalStore::new();
    let mut v1 = RecordIndexEntry {
        commit_version: 1,
        deleted: false,
        chunk_id: "c1".into(),
        schema_version: 1,
        txn_id: "T1".into(),
        updated_ms: 1,
    };
    store
        .put_record_index_with_body("s", "t", "r", &v1, "{\"v\":1}")
        .unwrap();
    v1.commit_version = 2;
    v1.chunk_id = "c2".into();
    v1.txn_id = "T2".into();
    store
        .put_record_index_with_body("s", "t", "r", &v1, "{\"v\":2}")
        .unwrap();

    let (entry, body) = store
        .get_record_version_at_snapshot("s", "t", "r", 1)
        .unwrap();
    assert_eq!(entry.commit_version, 1);
    assert_eq!(body, br#"{"v":1}"#);
    let (entry, body) = store
        .get_record_version_at_snapshot("s", "t", "r", 2)
        .unwrap();
    assert_eq!(entry.commit_version, 2);
    assert_eq!(body, br#"{"v":2}"#);
}

#[test]
fn exact_chunk_update_does_not_regress_latest_pointer() {
    let mut store = LocalStore::new();
    let mut entry = RecordIndexEntry {
        commit_version: 1,
        deleted: false,
        chunk_id: "placeholder-1".into(),
        schema_version: 0,
        txn_id: "T1".into(),
        updated_ms: 1,
    };
    store
        .put_record_index_with_body("s", "t", "r", &entry, "1")
        .unwrap();
    entry.commit_version = 2;
    entry.chunk_id = "placeholder-2".into();
    entry.txn_id = "T2".into();
    store
        .put_record_index_with_body("s", "t", "r", &entry, "2")
        .unwrap();

    assert!(store
        .update_record_index_chunk_id_for_version("s", "t", "r", 1, "chunk-old"));
    assert_eq!(
        store
            .get_record_index("s", "t", "r")
            .unwrap()
            .chunk_id,
        "placeholder-2"
    );
    assert_eq!(
        store
            .get_record_version_at_snapshot("s", "t", "r", 1)
            .unwrap()
            .0
            .chunk_id,
        "chunk-old"
    );

    assert!(store
        .update_record_index_chunk_id_for_version("s", "t", "r", 2, "chunk-new"));
    assert_eq!(
        store
            .get_record_index("s", "t", "r")
            .unwrap()
            .chunk_id,
        "chunk-new"
    );
}

#[test]
fn capture_snapshot_is_current_and_pinned_atomically() {
    let mut store = LocalStore::new();
    assert_eq!(store.next_global_version(), 1);
    assert_eq!(store.capture_and_register_snapshot(), 1);
    assert_eq!(store.min_active_snapshot(), 1);
    assert_eq!(store.count_active_snapshots(), 1);
}

#[test]
fn gc_keeps_history_anchor_and_reclaims_it_after_unpin() {
    let mut store = LocalStore::new();
    for version in [1, 5, 10] {
        let entry = RecordIndexEntry {
            commit_version: version,
            deleted: false,
            chunk_id: format!("c{version}"),
            schema_version: 0,
            txn_id: format!("T{version}"),
            updated_ms: version as i64,
        };
        store
            .put_record_index_with_body("s", "t", "r", &entry, &version.to_string())
            .unwrap();
    }
    store.register_snapshot(7);
    store.gc_chains_at_active_snapshot();
    assert_eq!(
        store
            .get_record_version_at_snapshot("s", "t", "r", 7)
            .unwrap()
            .0
            .commit_version,
        5
    );
    store.unregister_snapshot(7);
    store.gc_chains_at_active_snapshot();
    assert!(store
        .get_record_version_at_snapshot("s", "t", "r", 5)
        .is_none());
    assert_eq!(
        store
            .get_record_version_at_snapshot("s", "t", "r", u64::MAX)
            .unwrap()
            .0
            .commit_version,
        10
    );
}

#[test]
fn sweep_aborts_stale_active_txn() {
    let mut store = LocalStore::new();
    let mut r = TxnStateRecord::new_active(0, None, 0);
    r.last_heartbeat_ms = 0;
    store.put_txn_state("T1", &r);
    let n = sweep_stale_txns(&mut store, &mut Vec::new(), 60);
    assert_eq!(n, 1);
    let post = store.get_txn_state("T1").unwrap();
    assert_eq!(post.status, TxnStatus::Aborted);
}

#[test]
fn sweep_skips_recent_active_txn() {
    let mut store = LocalStore::new();
    let r = TxnStateRecord::new_active(0, None, chrono::Utc::now().timestamp_millis());
    store.put_txn_state("T1", &r);
    let n = sweep_stale_txns(&mut store, &mut Vec::new(), 60);
    assert_eq!(n, 0);
}

#[test]
fn gc_version_chains_no_active_snapshots_keeps_newest() {
    let mut store = LocalStore::new();
    store
        .append_chain_entry(
            "k",
            &VersionEntry::new(1, "e1".into(), "k".into(), "T1".into(), 10),
        )
        .unwrap();
    store
        .append_chain_entry(
            "k",
            &VersionEntry::new(2, "e2".into(), "k".into(), "T2".into(), 20),
        )
        .unwrap();
    store
        .append_chain_entry(
            "k",
            &VersionEntry::new(3, "e3".into(), "k".into(), "T3".into(), 30),
        )
        .unwrap();
    let (visited, removed) = gc_version_chains(&mut store);
    assert_eq!(visited, 1);
    assert_eq!(removed, 2);
    let chain = store.read_chain("k");
    assert_eq!(chain.entries.len(), 1);
    assert_eq!(chain.entries[0].commit_version, 3);
}

#[test]
fn gc_version_chains_with_active_snapshot_pins_old() {
    let mut store = LocalStore::new();
    store
        .append_chain_entry(
            "k",
            &VersionEntry::new(1, "e1".into(), "k".into(), "T1".into(), 10),
        )
        .unwrap();
    store
        .append_chain_entry(
            "k",
            &VersionEntry::new(2, "e2".into(), "k".into(), "T2".into(), 20),
        )
        .unwrap();
    store
        .append_chain_entry(
            "k",
            &VersionEntry::new(3, "e3".into(), "k".into(), "T3".into(), 30),
        )
        .unwrap();
    store.register_snapshot(2);
    let (_, removed) = gc_version_chains(&mut store);
    assert_eq!(removed, 1);
    let chain = store.read_chain("k");
    assert_eq!(chain.entries.len(), 2);
    assert_eq!(chain.entries[0].commit_version, 2);
    assert_eq!(chain.entries[1].commit_version, 3);
}

#[test]
fn staged_entries_keep_their_fields() {
    let mut entry = WriteSetEntry {
        backend_key: "k".into(),
        body_handle: None,
        inline_body: None,
        size: 0,
        content_type: None,
        user_meta: vec![],
        version_at_read: 1,
        deleted: false,
    };
    entry.deleted = true;
    let mut store = LocalStore::new();
    store.put_write_entry("T", "k", &entry);
    let back = store.iter_write_set("T").remove(0).1;
    assert!(back.deleted, "deleted flag must roundtrip through the store");
    assert_eq!(back, entry);
}
