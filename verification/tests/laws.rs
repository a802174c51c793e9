use xtable::gc::gc_version_chains;
use xtable::store::LocalStore;
use xtable::txn_state::RecordIndexEntry;
use xtable::version_chain::VersionEntry;
use xtable::wal::WalRecord;

fn entry(v: u64, key: &str, size: u64) -> VersionEntry {
    let mut e = VersionEntry::new(v, format!("e{}", v), key.to_string(), format!("T{}", v), size);
    e.created_ms = 0;
    e
}

fn versions(store: &LocalStore, key: &str) -> Vec<u64> {
    store.read_chain(key).entries.iter().map(|e| e.commit_version).collect()
}

#[test]
fn chains_are_strictly_monotonic() {
    for n in 1..30u64 {
        let mut store = LocalStore::new();
        for i in 1..=n {
            store.append_chain_entry("k", &entry(i, "k", 10)).unwrap();
        }
        let vs = versions(&store, "k");
        for w in vs.windows(2) {
            assert!(w[0] < w[1], "chain not strictly monotonic: {:?}", vs);
        }
    }
}

#[test]
fn snapshots_are_isolated() {
    let unique = [2u64, 3, 11, 12, 40, 41, 97];
    let mut store = LocalStore::new();
    for v in unique {
        store.append_chain_entry("k", &entry(v, "k", 10)).unwrap();
    }
    for snap in 0u64..100 {
        let got = store.read_at_snapshot("k", snap).map(|e| e.commit_version);
        let expected = unique.iter().copied().filter(|v| *v <= snap).last();
        assert_eq!(got, expected);
    }
    assert_eq!(store.read_latest("k").unwrap().commit_version, 97);
}

#[test]
fn multi_object_commits_are_atomic() {
    let keys = ["a", "bc", "def", "z"];
    for commit_v in [1u64, 2, 50, 99] {
        let mut store = LocalStore::new();
        let entries: Vec<(String, VersionEntry, u64)> =
            keys.iter().map(|k| (k.to_string(), entry(commit_v, k, 10), u64::MAX)).collect();
        store.append_chain_entries_bulk(&entries).unwrap();
        for k in keys {
            let got = store.read_at_snapshot(k, commit_v);
            assert!(got.is_some(), "key {} not visible at commit_v", k);
            assert_eq!(got.unwrap().commit_version, commit_v);
            if commit_v > 1 {
                assert!(store.read_at_snapshot(k, commit_v - 1).is_none());
            }
        }
    }
}

#[test]
fn a_stale_bulk_append_changes_nothing() {
    let mut store = LocalStore::new();
    store.append_chain_entry("b", &entry(7, "b", 1)).unwrap();
    let updates = vec![
        ("a".to_string(), entry(8, "a", 1), 5),
        ("b".to_string(), entry(8, "b", 1), 5),
    ];
    let e = store.append_chain_entries_bulk(&updates).unwrap_err();
    assert_eq!(e.http_status(), 409);
    assert!(versions(&store, "a").is_empty());
    assert_eq!(versions(&store, "b"), vec![7]);
}

#[test]
fn duplicate_versions_are_rejected() {
    let mut store = LocalStore::new();
    let v = 5u64;
    store.append_chain_entry("k", &entry(v, "k", 10)).unwrap();
    let res = store.append_chain_entry("k", &entry(v, "k", 10));
    assert!(res.is_err(), "duplicate commit_version should be rejected");
    assert_eq!(versions(&store, "k"), vec![5]);
}

#[test]
fn gc_keeps_the_newest() {
    for n in 2..30u64 {
        let mut store = LocalStore::new();
        for i in 1..=n {
            store.append_chain_entry("k", &entry(i, "k", 10)).unwrap();
        }
        let before_latest = store.read_chain("k").latest_commit_version();
        let (_, removed) = store.gc_chains(u64::MAX);
        assert!(removed > 0);
        assert_eq!(versions(&store, "k"), vec![before_latest]);
    }
}

#[test]
fn gc_preserves_pinned_snapshots() {
    let unique = [1u64, 4, 9, 17, 28];
    for pin in 0u64..30 {
        let mut store = LocalStore::new();
        for v in unique {
            store.append_chain_entry("k", &entry(v, "k", 10)).unwrap();
        }
        store.register_snapshot(pin);
        let (visited, _removed) = store.gc_chains(pin);
        assert_eq!(visited, 1);
        let anchor = unique.iter().copied().filter(|v| *v <= pin).max();
        for v in versions(&store, "k") {
            assert!(v > pin || Some(v) == anchor, "version {} is not the anchor of {}", v, pin);
        }
        assert_eq!(store.read_at_snapshot("k", pin).map(|e| e.commit_version), anchor);
    }
}

#[test]
fn writes_become_visible_with_the_commit() {
    for body_size in [1u64, 17, 999] {
        let mut store = LocalStore::new();
        assert!(store.read_at_snapshot("k", u64::MAX).is_none(), "no version committed yet");
        store.append_chain_entry("k", &entry(1, "k", body_size)).unwrap();
        let got = store.read_at_snapshot("k", 1);
        assert!(got.is_some());
        assert_eq!(got.unwrap().size, body_size);
    }
}

#[test]
fn counters_are_monotonic() {
    let mut store = LocalStore::new();
    let mut last_version = 0u64;
    let mut last_seq = 0u64;
    for i in 0..30 {
        let v = store.next_global_version();
        assert!(v > last_version);
        last_version = v;
        let seq = store.append_wal(&WalRecord::Begin {
            txn_id: format!("T{}", i),
            snapshot_version: 0,
            idempotency_key: None,
        });
        assert!(seq > last_seq);
        last_seq = seq;
    }
    assert_eq!(store.next_wal_seq(), last_seq + 1);
}

#[test]
fn truncation_bounds_the_log() {
    let mut store = LocalStore::new();
    for i in 0..6 {
        store.append_wal(&WalRecord::Aborted { txn_id: format!("T{i}"), reason: "r".into() });
    }
    assert_eq!(store.truncate_wal(4), 4);
    let seqs: Vec<u64> = store.iter_wal().iter().map(|(s, _)| *s).collect();
    assert_eq!(seqs, vec![5, 6]);
    assert_eq!(store.last_wal_seq(), 6);
    store.set_flushed_seq(4);
    assert_eq!(store.last_flushed_seq(), 4);
}

#[test]
fn unpinning_undoes_pinning() {
    let mut store = LocalStore::new();
    store.register_snapshot(3);
    store.register_snapshot(9);
    store.unregister_snapshot(9);
    assert_eq!(store.min_active_snapshot(), 3);
    assert_eq!(store.count_active_snapshots(), 1);
    store.unregister_snapshot(3);
    assert_eq!(store.min_active_snapshot(), u64::MAX);
    assert_eq!(gc_version_chains(&mut store), (0, 0));
}

fn index(cv: u64, chunk: &str) -> RecordIndexEntry {
    RecordIndexEntry {
        commit_version: cv,
        deleted: false,
        chunk_id: chunk.into(),
        schema_version: 0,
        txn_id: format!("T{cv}"),
        updated_ms: 0,
    }
}

#[test]
fn the_record_index_never_goes_back() {
    let mut store = LocalStore::new();
    store.put_record_index_with_body("s", "t", "r", &index(5, "c5"), "\"five\"").unwrap();
    store.put_record_index_with_body("s", "t", "r", &index(3, "c3"), "\"three\"").unwrap();
    store.put_record_version("s", "t", "r", &index(4, "c4"), b"four");
    assert_eq!(store.get_record_index("s", "t", "r").unwrap().commit_version, 5);
    let (e, body) = store.get_record_version_at_snapshot("s", "t", "r", 3).unwrap();
    assert_eq!(e.commit_version, 3);
    assert_eq!(body, b"\"three\"");
    let (e, body) = store.get_record_version_at_snapshot("s", "t", "r", 9).unwrap();
    assert_eq!(e.commit_version, 5);
    assert_eq!(body, b"\"five\"");
    assert_eq!(store.get_record_version_at_snapshot("s", "t", "r", 4).unwrap().1, b"four");
    assert!(store.get_record_version_at_snapshot("s", "t", "r", 2).is_none());
    assert!(!store.update_record_index_chunk_id_for_version("s", "t", "nope", 1, "x"));
}

#[test]
fn gc_drops_what_no_pin_needs() {
    let mut store = LocalStore::new();
    store.append_chain_entry("k", &entry(1, "k", 10)).unwrap();
    store.append_chain_entry("k", &entry(5, "k", 10)).unwrap();
    assert_eq!(store.gc_chains(3), (1, 1));
    assert_eq!(versions(&store, "k"), vec![5]);

    let mut pinned = LocalStore::new();
    pinned.append_chain_entry("k", &entry(1, "k", 10)).unwrap();
    pinned.append_chain_entry("k", &entry(5, "k", 10)).unwrap();
    pinned.register_snapshot(3);
    assert_eq!(pinned.pin_count(3), 1);
    assert_eq!(pinned.pin_count(4), 0);
    assert_eq!(pinned.gc_chains(3), (1, 0));
    assert_eq!(versions(&pinned, "k"), vec![1, 5]);
    assert_eq!(pinned.read_at_snapshot("k", 3).unwrap().commit_version, 1);
}

#[test]
fn record_bodies_read_back() {
    let mut store = LocalStore::new();
    store.put_record_index_with_body("s", "t", "o", &index(1, "c0"), "7").unwrap();
    store.put_record_index_with_body("s", "t", "r", &index(5, "c5"), "{\"v\":5}").unwrap();
    let (e, body) = store.get_record_index_with_body("s", "t", "r").unwrap().unwrap();
    assert_eq!((e.commit_version, body.as_str()), (5, "{\"v\":5}"));
    // An older version only enters the history.
    store.put_record_index_with_body("s", "t", "r", &index(3, "c3"), "[3]").unwrap();
    let (e, body) = store.get_record_index_with_body("s", "t", "r").unwrap().unwrap();
    assert_eq!((e.commit_version, body.as_str()), (5, "{\"v\":5}"));
    assert_eq!(store.get_record_version_at_snapshot("s", "t", "r", 3).unwrap().1, b"[3]");
    assert_eq!(store.get_record_index_with_body("s", "t", "o").unwrap().unwrap().1, "7");
    // No JSON value is refused, the empty text too.
    for bad in ["", " ", "{\"a\":"] {
        let e = store.put_record_index_with_body("s", "t", "r", &index(9, "c9"), bad).unwrap_err();
        assert!(e.message().starts_with("json: "), "{:?}", e.message());
    }
    assert_eq!(store.get_record_index("s", "t", "r").unwrap().commit_version, 5);
    store.put_record_index("s", "t", "n", &index(1, "c1"));
    assert_eq!(store.get_record_index_with_body("s", "t", "n").unwrap().unwrap().1, "null");
    assert!(store.get_record_index_with_body("s", "t", "none").unwrap().is_none());
}
