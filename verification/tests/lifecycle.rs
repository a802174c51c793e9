use xtable::chunk::{ChunkEntry, ChunkWriter};
use xtable::coordinator::TxnCoordinator;
use xtable::flush::{header_bytes_len, plan_flush};
use xtable::gc::sweep_all;
use xtable::read::{look_up, read_from_chunk, Lookup, ReadSource};
use xtable::rebuild::{rebuild, ListedObject};
use xtable::si_lock_manager::SiLockManager;
use xtable::store::LocalStore;
use xtable::telemetry::{holds_something, set_request_id, set_space};
use xtable::txn_state::{RecordIndexEntry, TxnStateRecord};
use xtable::types::{ObjectKey, TxnStatus, Version, XtableError};
use xtable::version_chain::VersionEntry;
use xtable::wal::WalRecord;

fn coordinator() -> TxnCoordinator {
    TxnCoordinator::new(LocalStore::new(), "staged".into())
}

fn stage(coord: &mut TxnCoordinator, txn: &str, key: &str, body: &[u8]) {
    coord.stage(txn, &ObjectKey::new(key), body.to_vec(), None, vec![], false).unwrap();
}

fn write(coord: &mut TxnCoordinator, key: &str, body: &[u8]) -> u64 {
    let t = coord.begin(None).unwrap();
    stage(coord, &t, key, body);
    coord.commit(&t, &Vec::new(), 0).unwrap().commit_version
}

fn version_at(coord: &TxnCoordinator, key: &str, snapshot: u64) -> Option<u64> {
    coord.store().read_at_snapshot(key, snapshot).map(|e| e.commit_version)
}

#[test]
fn a_snapshot_reads_the_same_after_later_commits() {
    let mut coord = coordinator();
    let v1 = write(&mut coord, "_xtable/s/t/a", b"1");
    let reader = coord.begin(None).unwrap();
    let snapshot = coord.transaction_snapshot(&reader).unwrap();
    assert_eq!(snapshot, v1);
    let before = version_at(&coord, "_xtable/s/t/a", snapshot);
    let v2 = write(&mut coord, "_xtable/s/t/a", b"2");
    let v3 = write(&mut coord, "_xtable/s/t/b", b"3");
    assert_eq!((v2, v3), (v1 + 1, v1 + 2));
    assert_eq!(coord.transaction_snapshot(&reader).unwrap(), v1);
    assert_eq!(version_at(&coord, "_xtable/s/t/a", snapshot), before);
    assert_eq!(version_at(&coord, "_xtable/s/t/b", snapshot), None);
    // The pin of the reader keeps its version from being collected.
    coord.store.gc_chains(u64::MAX);
    assert_eq!(version_at(&coord, "_xtable/s/t/a", snapshot), Some(v1));
    // A transaction that only read commits, and at its snapshot.
    assert_eq!(coord.commit(&reader, &Vec::new(), 0).unwrap().commit_version, v1);
    coord.store.gc_chains(u64::MAX);
    assert_eq!(version_at(&coord, "_xtable/s/t/a", snapshot), None);
    assert_eq!(version_at(&coord, "_xtable/s/t/a", v3), Some(v2));
}

#[test]
fn a_commit_is_read_back_and_ends_the_transaction() {
    let mut coord = coordinator();
    let t = coord.begin(None).unwrap();
    stage(&mut coord, &t, "_xtable/s/t/r", b"{\"n\":7}");
    match look_up(&coord.memtable_set, &coord.store, "s", "t", "r", u64::MAX - 1) {
        Lookup::Answer(None) => {},
        _ => panic!("a staged write is visible"),
    }
    let cv = coord.commit(&t, &Vec::new(), 0).unwrap().commit_version;
    match look_up(&coord.memtable_set, &coord.store, "s", "t", "r", cv) {
        Lookup::Answer(Some(r)) => {
            assert_eq!(&r.body[..], b"{\"n\":7}");
            assert_eq!(r.commit_version, cv);
            assert_eq!(r.txn_id, t);
            assert_eq!(r.source, ReadSource::Active);
        },
        _ => panic!("the committed write is not visible"),
    }
    assert_eq!(coord.status(&t).unwrap(), TxnStatus::Committed);
    assert_eq!(coord.store().count_active_snapshots(), 0);
    assert!(!coord.lock_manager().active_txn_ids().contains(&t));
    assert!(coord.abort(&t).is_err());
    assert!(coord.stage(&t, &ObjectKey::new("k"), vec![], None, vec![], false).is_err());
    let events = coord.take_events();
    assert_eq!(events.len(), 1);
    assert_eq!(events[0].commit_version, cv);
    assert_eq!(events[0].writes[0].key, "_xtable/s/t/r");
    assert_eq!(events[0].writes[0].size, 7);
}

#[test]
fn a_flushed_record_survives_the_loss_of_the_store() {
    let mut coord = coordinator();
    write(&mut coord, "_xtable/s/t/other", b"x");
    let cv = write(&mut coord, "_xtable/s/t/r", b"{\"v\":1}");
    coord.memtable_set.rotate();
    let mts = coord.memtable_set.take_immutables();
    let plan = plan_flush(&mts[0]).unwrap().unwrap();
    let object = ListedObject {
        key: plan.s3_key.clone(),
        size: plan.file.len() as u64,
        etag: "etag".into(),
        bytes: Some(plan.file.clone()),
    };

    let mut fresh = TxnCoordinator::new(LocalStore::new(), "staged".into());
    let report = rebuild(&mut fresh.store, &vec![object]).unwrap();
    assert_eq!(report.versions_rebuilt, 2);
    assert_eq!(fresh.store.current_global_version(), cv);
    assert_eq!(fresh.store.read_latest("_xtable/s/t/r").unwrap().commit_version, cv);
    let chunk = match look_up(&fresh.memtable_set, &fresh.store, "s", "t", "r", cv) {
        Lookup::Fetch(c) => c,
        Lookup::Answer(_) => panic!("the record is in a chunk"),
    };
    assert_eq!(chunk.s3_key, plan.s3_key);
    assert_eq!(chunk.bloom.as_ref(), Some(&plan.footer.bloom));
    let got = read_from_chunk(&plan.file, &chunk, "s", "t", "r", cv).unwrap().unwrap();
    assert_eq!(&got.body[..], b"{\"v\":1}");
    assert_eq!(got.commit_version, cv);
    // The next commit is above everything that was rebuilt.
    assert_eq!(write(&mut fresh, "_xtable/s/t/r", b"{\"v\":2}"), cv + 1);
}

#[test]
fn one_version_in_two_chunks_stops_a_rebuild() {
    let chunk = |id: &str| {
        let mut w = ChunkWriter::new(id.into(), "s".into(), "t".into());
        w.append(ChunkEntry {
            space: "s".into(),
            table: "t".into(),
            record_id: "r".into(),
            value: b"1".to_vec(),
            commit_version: 4,
            txn_id: "T".into(),
            deleted: false,
            content_type: None,
            user_meta: vec![],
            schema_version: 0,
            wal_seq: 4,
        })
        .unwrap();
        ListedObject {
            key: format!("{id}.xtc"),
            size: 1,
            etag: String::new(),
            bytes: Some(w.finalize().unwrap().0),
        }
    };
    let mut store = LocalStore::new();
    let e = rebuild(&mut store, &vec![chunk("A"), chunk("B")]).unwrap_err();
    assert_eq!(e.http_status(), 500);
    assert!(store.iter_all_chains().is_empty());
    // The same object listed twice brings nothing new.
    let mut store = LocalStore::new();
    rebuild(&mut store, &vec![chunk("A"), chunk("A")]).unwrap();
    assert_eq!(store.read_chain("_xtable/s/t/r").entries.len(), 1);
}

#[test]
fn a_failed_commit_is_settled_by_the_chains() {
    let mut coord = coordinator();
    let lost = coord.begin(None).unwrap();
    let won = coord.begin(None).unwrap();
    for (t, v) in [(&lost, 8), (&won, 9)] {
        let mut rec = coord.store().get_txn_state(t).unwrap();
        rec.status = TxnStatus::Committing;
        rec.alloc_versions.push(("k".into(), v));
        coord.store.put_txn_state(t, &rec);
    }
    let own = VersionEntry::new(9, "e".into(), "k".into(), won.clone(), 1);
    coord.store.append_chain_entry("k", &own).unwrap();

    let cause = XtableError::Storage("disk full".into());
    coord.reconcile_failed_commit(&lost, &cause);
    coord.reconcile_failed_commit(&won, &cause);
    assert_eq!(coord.status(&lost).unwrap(), TxnStatus::Aborted);
    assert_eq!(coord.status(&won).unwrap(), TxnStatus::Committed);
    assert_eq!(coord.store().count_active_snapshots(), 0);
    assert_eq!(coord.commit(&won, &Vec::new(), 0).unwrap().commit_version, 9);
    let reasons: Vec<String> = coord
        .store()
        .iter_wal()
        .into_iter()
        .filter_map(|(_, r)| match r {
            WalRecord::Aborted { txn_id, reason } if txn_id == lost => Some(reason),
            _ => None,
        })
        .collect();
    assert_eq!(reasons.len(), 1);
    assert!(reasons[0].starts_with("commit failed before publish: "));
    assert!(reasons[0].contains("disk full"));
    // A transaction that is not committing is left alone.
    let other = coord.begin(None).unwrap();
    coord.reconcile_failed_commit(&other, &cause);
    coord.reconcile_failed_commit("nobody", &cause);
    assert_eq!(coord.status(&other).unwrap(), TxnStatus::Active);
}

#[test]
fn eviction_keeps_active_and_committed_transactions() {
    let mut locks = SiLockManager::new();
    for (t, v) in [("T1", 5), ("T2", 9)] {
        locks.begin_txn(t, 0).unwrap();
        locks.register_write(t, "k", v);
        locks.mark_committed(t, v);
    }
    locks.begin_txn("R1", 0).unwrap();
    locks.evict_recent_older_than(9);
    assert!(locks.inspect("T1").is_some());
    assert!(locks.inspect("nobody").is_none());
    assert_eq!(locks.active_txn_ids(), vec!["R1".to_string()]);
    // A read below both versions misses both writers.
    locks.register_read("R1", "k", 4, String::new());
    let edges = locks.inspect("R1").unwrap().in_edges.edges;
    let seen: Vec<(String, u64)> = edges.into_iter().map(|e| (e.peer, e.version)).collect();
    assert_eq!(seen, vec![("T1".to_string(), 5), ("T2".to_string(), 9)]);
    // One at the newest version misses none.
    locks.begin_txn("R2", 0).unwrap();
    locks.register_read("R2", "k", 9, String::new());
    assert!(locks.inspect("R2").unwrap().in_edges.edges.is_empty());
}

#[test]
fn a_combined_sweep_aborts_and_prunes() {
    let mut store = LocalStore::new();
    for v in [1u64, 2, 3] {
        let e = VersionEntry::new(v, "e".into(), "k".into(), format!("T{v}"), 1);
        store.append_chain_entry("k", &e).unwrap();
    }
    store.register_snapshot(1);
    store.put_txn_state("OLD", &TxnStateRecord::new_active(1, None, 0));
    let mut garbage: Vec<String> = Vec::new();
    let r = sweep_all(&mut store, &mut garbage, 60);
    assert_eq!((r.aborted_txns, r.chains_pruned, r.entries_removed), (1, 1, 2));
    assert_eq!(store.get_txn_state("OLD").unwrap().status, TxnStatus::Aborted);
    let chains = store.iter_all_chains();
    assert_eq!(chains.len(), 1);
    assert_eq!(chains[0].0, "k");
    assert_eq!(chains[0].1.latest_commit_version(), 3);
    assert_eq!(chains[0].1.entries.len(), 1);
}

#[test]
fn all_write_sets_are_listed_in_order() {
    let mut coord = coordinator();
    let t1 = coord.begin(None).unwrap();
    let t2 = coord.begin(None).unwrap();
    stage(&mut coord, &t2, "b", b"2");
    stage(&mut coord, &t1, "c", b"3");
    stage(&mut coord, &t1, "a", b"1");
    let mut expected =
        vec![(t1.clone(), "a".to_string()), (t1, "c".to_string()), (t2, "b".to_string())];
    expected.sort();
    let got: Vec<(String, String)> =
        coord.store().iter_all_write_sets().into_iter().map(|(k, _)| k).collect();
    assert_eq!(got, expected);
}

#[test]
fn a_deleted_index_row_leaves_the_history() {
    let mut store = LocalStore::new();
    let idx = RecordIndexEntry {
        commit_version: 2,
        deleted: false,
        chunk_id: "c".into(),
        schema_version: 0,
        txn_id: "T".into(),
        updated_ms: 0,
    };
    store.put_record_index_with_body("s", "t", "r", &idx, "1").unwrap();
    store.delete_record_index("s", "t", "r");
    assert!(store.get_record_index("s", "t", "r").is_none());
    assert_eq!(store.get_record_version_at_snapshot("s", "t", "r", 2).unwrap().1, b"1");
    assert!(store.put_record_index_with_body("s", "t", "r", &idx, "{not json").is_err());
}

#[test]
fn header_length_is_that_of_its_bytes() {
    let w = ChunkWriter::new("C".into(), "space".into(), "t".into());
    let (file, header, _) = w.finalize().unwrap();
    let n = header_bytes_len(&header).unwrap();
    assert_eq!(n, header.encode().unwrap().len());
    assert_eq!(&file[..n], &header.encode().unwrap()[..]);
    assert_eq!(&file[..4], b"XTC1");
}

#[test]
fn blank_text_is_recognised() {
    assert!(!holds_something(""));
    assert!(!holds_something(" \t\r\n"));
    assert!(!holds_something("\u{a0}\u{2003}\u{3000}\u{85}"));
    assert!(holds_something(" x "));
    // A zero-width space is no white space.
    assert!(holds_something("\u{200b}"));
    assert_eq!(set_space("acme".into()), ("space".to_string(), "acme".to_string()));
    assert_eq!(set_request_id("9".into()), ("request.id".to_string(), "9".to_string()));
}

#[test]
fn a_lone_reader_and_writer_of_one_key_commits() {
    let mut coord = coordinator();
    let cv = write(&mut coord, "s/t/k", b"1");
    let t = coord.begin(None).unwrap();
    coord.read(&t, &ObjectKey::new("s/t/k"), Version(cv), String::new()).unwrap();
    stage(&mut coord, &t, "s/t/k", b"2");
    assert_eq!(coord.commit(&t, &Vec::new(), 0).unwrap().commit_version, cv + 1);
}
