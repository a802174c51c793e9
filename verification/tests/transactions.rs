use xtable::coordinator::{
    chain_holds_own, sha256_hex, uuid_like, version_to_report, SpillRead, TxnCoordinator,
};
use xtable::flush::{complete_flush, plan_flush};
use xtable::memtable::{FlushPolicy, MemTable, MemTableSet};
use xtable::recording::{RecordingBackend, RequestMethod};
use xtable::record_key::{parse_record_key, record_key};
use xtable::si_lock_manager::SiLockManager;
use xtable::store::LocalStore;
use xtable::txn_state::TxnStateRecord;
use xtable::types::{ObjectKey, TxnStatus, Version, XtableError};
use xtable::version_chain::VersionEntry;
use xtable::wal::WalRecord;

fn build_for_test() -> TxnCoordinator {
    TxnCoordinator::new(LocalStore::new(), "staged".into())
}

fn stage(coord: &mut TxnCoordinator, txn: &str, key: &str, body: &[u8]) {
    coord
        .stage(txn, &ObjectKey::new(key), body.to_vec(), None, vec![], false)
        .unwrap();
}

fn commit(coord: &mut TxnCoordinator, txn: &str) -> Result<u64, XtableError> {
    coord.commit(txn, &Vec::new(), 0).map(|o| o.commit_version)
}

#[test]
fn begin_assigns_unique_txn_id_and_snapshot() {
    let mut coord = build_for_test();
    let t1 = coord.begin(None).unwrap();
    let t2 = coord.begin(None).unwrap();
    assert_ne!(t1, t2);
    let status1 = coord.status(&t1).unwrap();
    assert_eq!(status1, TxnStatus::Active);
}

#[test]
fn abort_marks_terminal() {
    let mut coord = build_for_test();
    let t = coord.begin(None).unwrap();
    coord.abort(&t).unwrap();
    let status = coord.status(&t).unwrap();
    assert_eq!(status, TxnStatus::Aborted);
}

#[test]
fn unknown_txn_returns_unknown_error() {
    let coord = build_for_test();
    let err = coord.status("does-not-exist").unwrap_err();
    assert_eq!(err.http_status(), 404);
}

#[test]
fn commit_with_no_writes_succeeds_idempotent() {
    let mut coord = build_for_test();
    let t = coord.begin(None).unwrap();
    assert_eq!(commit(&mut coord, &t).unwrap(), 0);
    assert_eq!(commit(&mut coord, &t).unwrap(), 0);
}

#[test]
fn concurrent_commit_calls_are_idempotent() {
    let mut coord = build_for_test();
    let t = coord.begin(None).unwrap();
    stage(&mut coord, &t, "k", b"value");
    let first = commit(&mut coord, &t).unwrap();
    let second = commit(&mut coord, &t).unwrap();
    assert_eq!(first, second);
    assert_eq!(coord.store().read_chain("k").entries.len(), 1);
}

#[test]
fn heartbeat_refreshes_state() {
    let mut coord = build_for_test();
    let t = coord.begin(None).unwrap();
    coord.heartbeat(&t).unwrap();
    let status = coord.status(&t).unwrap();
    assert_eq!(status, TxnStatus::Active);
    coord.heartbeat_at(&t, 77).unwrap();
    assert_eq!(coord.store().get_txn_state(&t).unwrap().last_heartbeat_ms, 77);
}

#[test]
fn inv_aborted_txn_leaves_no_state() {
    let mut coord = build_for_test();
    let txn = coord.begin(None).unwrap();
    for i in 0..3 {
        stage(&mut coord, &txn, &format!("k{}", i), b"x");
    }
    coord.abort(&txn).unwrap();
    let status = coord.status(&txn).unwrap();
    assert_eq!(format!("{:?}", status), "Aborted");
    let ws = coord.store().iter_write_set(&txn);
    assert!(ws.is_empty(), "aborted txn should have no staged writes");
    assert_eq!(coord.store().count_active_snapshots(), 0);
}

#[test]
fn inv_commit_no_writes_is_idempotent() {
    let mut coord = build_for_test();
    let txn = coord.begin(None).unwrap();
    let r1 = commit(&mut coord, &txn).unwrap();
    let r2 = commit(&mut coord, &txn).unwrap();
    assert_eq!(r1, r2);
}

#[test]
fn inv_occ_records_correct_version_at_read() {
    let mut store = LocalStore::new();
    store
        .append_chain_entry(
            "shared",
            &VersionEntry::new(5, "e5".into(), "shared".into(), "T_seed".into(), 0),
        )
        .unwrap();
    for _ in 0..5 {
        let _ = store.next_global_version();
    }
    let mut coord = TxnCoordinator::new(store, "staged".into());
    let t1 = coord.begin(None).unwrap();
    let t2 = coord.begin(None).unwrap();
    stage(&mut coord, &t1, "shared", b"a");
    stage(&mut coord, &t2, "shared", b"b");
    // Both wrote against the version at which they began.
    let ws1 = coord.store().iter_write_set(&t1);
    let ws2 = coord.store().iter_write_set(&t2);
    assert_eq!(ws1[0].1.version_at_read, 5);
    assert_eq!(ws2[0].1.version_at_read, 5);
    assert_eq!(coord.transaction_snapshot(&t1).unwrap(), 5);
    assert_eq!(coord.transaction_snapshot(&t2).unwrap(), 5);
    assert_eq!(commit(&mut coord, &t1).unwrap(), 6);
    assert_eq!(commit(&mut coord, &t2).unwrap_err().http_status(), 409);
}

#[test]
fn unit_v16_version_at_read_is_snapshot() {
    let mut store = LocalStore::new();
    for _ in 0..5 {
        let _ = store.next_global_version();
    }
    let mut coord = TxnCoordinator::new(store, "staged".into());
    let txn = coord.begin(None).unwrap();
    for _ in 0..3 {
        let _ = coord.store.next_global_version();
    }
    stage(&mut coord, &txn, "k", b"v");
    let ws = coord.store().iter_write_set(&txn);
    assert_eq!(ws.len(), 1);
    assert_eq!(ws[0].1.version_at_read, 5, "must use snapshot_version, not chain latest (8)");
    assert_eq!(coord.transaction_snapshot(&txn).unwrap(), 5);
}

#[test]
fn inv_read_your_own_writes_within_txn() {
    let mut coord = build_for_test();
    let txn = coord.begin(None).unwrap();
    let staged = coord.stage_body(&txn, "k", &Vec::new()).expect("stage_body lookup ok");
    assert!(staged.is_none(), "nothing staged yet");
    stage(&mut coord, &txn, "k", b"hello");
    let staged = coord.stage_body(&txn, "k", &Vec::new()).unwrap();
    assert!(staged.is_some());
    assert_eq!(staged.unwrap(), b"hello");
}

#[test]
fn inv_commit_replay_returns_same_outcome() {
    let mut coord = build_for_test();
    let txn = coord.begin(Some("idem-key-1".into())).unwrap();
    let r1 = commit(&mut coord, &txn).unwrap();
    let r2 = commit(&mut coord, &txn).unwrap();
    assert_eq!(r1, r2);
    let s = coord.store().get_txn_state(&txn).unwrap();
    let status_str = format!("{:?}", s.status);
    assert_eq!(status_str, "Committed");
}

#[test]
fn inv_unknown_txn_returns_not_found() {
    let coord = build_for_test();
    let err = coord.status("DOES-NOT-EXIST").unwrap_err();
    assert_eq!(err.http_status(), 404);
}

#[test]
fn unit_v18_stage_signature_no_threshold_param() {
    let mut coord = build_for_test();
    for i in 1..=3u64 {
        let txn = coord.begin(None).unwrap();
        let key = ObjectKey::new(&format!("k{}", i));
        let res = coord.stage(&txn, &key, vec![0u8; 4], None, vec![], false);
        assert!(res.is_ok(), "txn {} stage must succeed (no threshold gate): {:?}", i, res);
    }
}

#[test]
fn unit_v5_commit_serializes() {
    let mut coord = build_for_test();
    let t1 = coord.begin(None).unwrap();
    let t2 = coord.begin(None).unwrap();
    stage(&mut coord, &t1, "a", b"x");
    stage(&mut coord, &t2, "b", b"x");
    assert_eq!(commit(&mut coord, &t1).unwrap(), 1);
    assert_eq!(commit(&mut coord, &t2).unwrap(), 2);
}

#[test]
fn ssi_write_write_one_winner() {
    let mut coord = TxnCoordinator::new(LocalStore::new(), "spill".into());
    let t1 = coord.begin(None).unwrap();
    let t2 = coord.begin(None).unwrap();
    stage(&mut coord, &t1, "s/t/k", b"v1");
    stage(&mut coord, &t2, "s/t/k", b"v2");
    let r1 = commit(&mut coord, &t1);
    let r2 = commit(&mut coord, &t2);
    assert!(
        !(r1.is_ok() && r2.is_ok()),
        "two concurrent writers on same key must not both commit (got r1={:?} r2={:?})",
        r1.is_ok(),
        r2.is_ok(),
    );
    assert!(
        r1.is_ok() || r2.is_ok(),
        "at least one write-write must succeed"
    );
}

#[test]
fn ssi_write_skew_aborts_one() {
    let mut coord = TxnCoordinator::new(LocalStore::new(), "spill".into());
    let t1 = coord.begin(None).unwrap();
    let t2 = coord.begin(None).unwrap();
    let x = ObjectKey::new("s/t/x");
    let y = ObjectKey::new("s/t/y");
    coord.read(&t1, &x, Version(0), String::new()).unwrap();
    coord.read(&t1, &y, Version(0), String::new()).unwrap();
    coord.read(&t2, &x, Version(0), String::new()).unwrap();
    coord.read(&t2, &y, Version(0), String::new()).unwrap();
    coord.stage(&t1, &x, b"new".to_vec(), None, vec![], false).unwrap();
    coord.stage(&t2, &y, b"new".to_vec(), None, vec![], false).unwrap();
    let r1 = commit(&mut coord, &t1);
    let r2 = commit(&mut coord, &t2);
    assert!(
        r1.is_ok() != r2.is_ok(),
        "write skew: exactly one of (T1, T2) must abort (r1={:?} r2={:?})",
        r1.is_ok(),
        r2.is_ok(),
    );
}

#[test]
fn ssi_own_read_write_ok() {
    let mut coord = TxnCoordinator::new(LocalStore::new(), "spill".into());
    let t = coord.begin(None).unwrap();
    let k = ObjectKey::new("s/t/k");
    coord.read(&t, &k, Version(0), String::new()).unwrap();
    coord.stage(&t, &k, b"v".to_vec(), None, vec![], false).unwrap();
    let r = commit(&mut coord, &t);
    assert!(r.is_ok(), "own-read-write must succeed: {:?}", r.err());
}

#[test]
fn ssi_disjoint_read_write_ok() {
    let mut coord = TxnCoordinator::new(LocalStore::new(), "spill".into());
    let t1 = coord.begin(None).unwrap();
    let t2 = coord.begin(None).unwrap();
    let a = ObjectKey::new("s/t/a");
    let b = ObjectKey::new("s/t/b");
    coord.read(&t1, &a, Version(0), String::new()).unwrap();
    coord.read(&t2, &b, Version(0), String::new()).unwrap();
    coord.stage(&t1, &a, b"x".to_vec(), None, vec![], false).unwrap();
    coord.stage(&t2, &b, b"x".to_vec(), None, vec![], false).unwrap();
    let r1 = commit(&mut coord, &t1);
    let r2 = commit(&mut coord, &t2);
    assert!(r1.is_ok(), "disjoint T1 commit failed: {:?}", r1.err());
    assert!(r2.is_ok(), "disjoint T2 commit failed: {:?}", r2.err());
}

#[test]
fn ssi_read_only_txn_never_aborts() {
    let mut coord = TxnCoordinator::new(LocalStore::new(), "spill".into());
    let t = coord.begin(None).unwrap();
    let k = ObjectKey::new("s/t/k");
    coord.read(&t, &k, Version(0), String::new()).unwrap();
    let r = commit(&mut coord, &t);
    assert!(r.is_ok(), "read-only txn must commit: {:?}", r.err());
}

/// Uploads the chunks of the immutable memtables.
fn upload_chunks(coord: &mut TxnCoordinator, backend: &mut RecordingBackend) {
    for mt in coord.memtable_set.take_immutables() {
        let plan = plan_flush(&mt).unwrap().expect("an immutable memtable holds entries");
        let path = format!("/xtable-test/{}", plan.s3_key);
        let put = backend.handle(RequestMethod::Put, &path, &vec![], plan.file.clone());
        assert_eq!(put.status, 200);
        complete_flush(&mut coord.store, &plan, "");
    }
}

#[test]
fn commit_does_not_put_object_per_record() {
    let mut recording = RecordingBackend::new();
    let memtable_set = MemTableSet::new(MemTable::new(0), FlushPolicy::default());
    let mut coord = TxnCoordinator::with_lock_and_memtable(
        LocalStore::new(),
        "staged".into(),
        SiLockManager::new(),
        memtable_set,
    );
    let txn = coord.begin(None).unwrap();
    let key = ObjectKey::new("_xtable/acme/users/u1.json");
    coord
        .stage(
            &txn,
            &key,
            b"{\"id\":\"u1\"}".to_vec(),
            Some("application/json".to_string()),
            Default::default(),
            false,
        )
        .unwrap();
    let outcome = coord.commit(&txn, &Vec::new(), 0).expect("commit should succeed");
    assert!(outcome.commit_version > 0);
    upload_chunks(&mut coord, &mut recording);

    let puts = recording.counters.put_object_calls();
    assert_eq!(
        puts, 0,
        "commit must not issue any per-record put_object; saw {} puts",
        puts
    );
    assert_eq!(recording.counters.get_object_calls(), 0, "commit must not issue any get_object");
    assert_eq!(
        recording.counters.delete_object_calls(),
        0,
        "commit must not issue any delete_object"
    );

    let entry = coord
        .memtable_set()
        .active
        .get_visible(&("acme".into(), "users".into(), "u1".into()), u64::MAX)
        .expect("entry should be in active MemTable");
    assert!(entry.value.bytes.starts_with(b"{\"id\":\"u1\"}"));

    // What a rotation hands out reaches the object store as one chunk.
    coord.memtable_set.rotate();
    upload_chunks(&mut coord, &mut recording);
    assert_eq!(recording.counters.put_object_calls(), 1);
    assert_eq!(coord.store().iter_all_chunk_index().len(), 1);
}

#[test]
fn unit_v17_dummy_backend_actually_works() {
    let mut backend = RecordingBackend::new();
    let put = backend.handle(
        RequestMethod::Put,
        "/xtable-test/v17key",
        &vec![],
        b"hello-v17".to_vec(),
    );
    assert_eq!(put.status, 200);
    let r = backend.handle(RequestMethod::Get, "/xtable-test/v17key", &vec![], vec![]);
    assert_eq!(r.status, 200);
    assert_eq!(r.body, b"hello-v17");
}

#[test]
fn a_commit_writes_one_version_for_all_its_keys() {
    let mut coord = build_for_test();
    let t = coord.begin(None).unwrap();
    stage(&mut coord, &t, "_xtable/s/t/a", b"1");
    stage(&mut coord, &t, "_xtable/s/t/b", b"22");
    // Nothing is visible before the commit.
    assert!(coord.store().read_latest("_xtable/s/t/a").is_none());
    let cv = commit(&mut coord, &t).unwrap();
    for k in ["_xtable/s/t/a", "_xtable/s/t/b"] {
        assert_eq!(coord.store().read_at_snapshot(k, cv).unwrap().commit_version, cv);
        assert!(coord.store().read_at_snapshot(k, cv - 1).is_none());
    }
    let events = coord.take_events();
    assert_eq!(events.len(), 1);
    assert_eq!(events[0].txn_id, t);
    assert_eq!(events[0].commit_version, cv);
    assert_eq!(events[0].writes.len(), 2);
    assert_eq!(events[0].writes[1].size, 2);
    assert!(coord.take_events().is_empty());
    assert_eq!(coord.store().count_active_snapshots(), 0);
}

#[test]
fn a_lost_write_aborts_the_transaction() {
    let mut coord = build_for_test();
    let t1 = coord.begin(None).unwrap();
    let t2 = coord.begin(None).unwrap();
    stage(&mut coord, &t1, "k", b"1");
    stage(&mut coord, &t2, "k", b"2");
    commit(&mut coord, &t1).unwrap();
    let e = commit(&mut coord, &t2).unwrap_err();
    assert!(matches!(e, XtableError::Conflict(_)));
    assert_eq!(coord.status(&t2).unwrap(), TxnStatus::Aborted);
    assert_eq!(coord.store().read_chain("k").entries.len(), 1);
    // It stays aborted, and aborting again is fine.
    assert!(commit(&mut coord, &t2).is_err());
    coord.abort(&t2).unwrap();
    // The winner cannot be aborted any more.
    assert!(coord.abort(&t1).is_err());
    assert_eq!(coord.status(&t1).unwrap(), TxnStatus::Committed);
}

#[test]
fn finished_transactions_take_no_more_writes() {
    let mut coord = build_for_test();
    let t = coord.begin(None).unwrap();
    coord.abort(&t).unwrap();
    let key = ObjectKey::new("k");
    assert!(coord.stage(&t, &key, b"x".to_vec(), None, vec![], false).is_err());
    assert!(coord.read(&t, &key, Version(0), String::new()).is_err());
    assert!(coord.heartbeat(&t).is_err());
    assert_eq!(
        coord.stage("nope", &key, vec![], None, vec![], false).unwrap_err().http_status(),
        404
    );
}

#[test]
fn a_deleting_write_becomes_a_tombstone() {
    let mut coord = build_for_test();
    let t = coord.begin(None).unwrap();
    coord.stage(&t, &ObjectKey::new("k"), vec![], None, vec![], true).unwrap();
    let cv = commit(&mut coord, &t).unwrap();
    let e = coord.store().read_latest("k").unwrap();
    assert!(e.deleted);
    assert_eq!(e.commit_version, cv);
    assert!(coord.store().get_version(&ObjectKey::new("k")).unwrap().tombstone);
}

#[test]
fn large_bodies_are_spilled() {
    let mut coord = build_for_test();
    let t = coord.begin(None).unwrap();
    let key = ObjectKey::new("big");
    let body = vec![7u8; 300 * 1024];
    let path = coord.spill_target(&t, &key, body.len()).unwrap().expect("a spill file");
    assert!(path.starts_with("staged"));
    assert!(coord.spill_target(&t, &key, 10).unwrap().is_none());
    coord.stage(&t, &key, body.clone(), None, vec![], false).unwrap();
    let files = coord.spill_files(&t);
    assert_eq!(files.len(), 1);
    assert_eq!(files[0].1, path);
    let ws = coord.store().iter_write_set(&t);
    assert!(ws[0].1.inline_body.is_none());
    assert_eq!(coord.store().get_blob(&files[0].0).unwrap().sha256, sha256_hex(&body));
    // Without the file's content neither read nor commit can answer.
    assert!(coord.stage_body(&t, "big", &Vec::new()).is_err());
    let reads = vec![SpillRead { handle: files[0].0.clone(), content: Ok(body.clone()) }];
    assert_eq!(coord.stage_body(&t, "big", &reads).unwrap().unwrap(), body);
    coord.commit(&t, &reads, 0).unwrap();
    assert_eq!(coord.take_garbage(), vec![path]);
    assert!(coord.store().get_blob(&files[0].0).is_none());
}

#[test]
fn a_lost_spill_file_aborts_the_commit() {
    let mut coord = build_for_test();
    let t = coord.begin(None).unwrap();
    coord
        .stage(&t, &ObjectKey::new("big"), vec![7u8; 300 * 1024], None, vec![], false)
        .unwrap();
    let files = coord.spill_files(&t);
    let reads = vec![SpillRead { handle: files[0].0.clone(), content: Err("gone".into()) }];
    assert!(coord.commit(&t, &reads, 0).is_err());
    assert_ne!(coord.status(&t).unwrap(), TxnStatus::Committed);
    assert!(coord.store().read_latest("big").is_none());
}

#[test]
fn the_log_of_a_commit_is_ordered() {
    let mut coord = build_for_test();
    let t = coord.begin(None).unwrap();
    stage(&mut coord, &t, "k", b"1");
    let cv = commit(&mut coord, &t).unwrap();
    let log: Vec<WalRecord> = coord.store().iter_wal().into_iter().map(|(_, r)| r).collect();
    let committing = log.iter().position(|r| matches!(r, WalRecord::Committing { .. })).unwrap();
    let committed = log
        .iter()
        .position(|r| *r == WalRecord::Committed { txn_id: t.clone(), commit_version: cv })
        .unwrap();
    assert!(matches!(log[0], WalRecord::Begin { .. }));
    assert!(committing < committed);
}

#[test]
fn digests_and_names() {
    assert_eq!(
        sha256_hex(b"abc"),
        "ba7816bf8f01cfea414140de5dae2223b00361a396177a9cb410ff61f20015ad"
    );
    assert_eq!(uuid_like("abc"), "ba7816bf8f01cfea414140de");
    assert_eq!(
        parse_record_key("_xtable/acme/users/u1.json"),
        Some(("acme".into(), "users".into(), "u1".into()))
    );
    assert_eq!(record_key("acme", "users", "u1"), "_xtable/acme/users/u1");
    assert_eq!(parse_record_key("plain"), None);
    let mut rec = TxnStateRecord::new_active(3, None, 0);
    assert_eq!(version_to_report(&rec), 3);
    rec.alloc_versions = vec![("a".into(), 4), ("b".into(), 9)];
    assert_eq!(version_to_report(&rec), 9);
}

#[test]
fn a_chain_holds_an_entry_of_its_own_writer_only() {
    let mut store = LocalStore::new();
    store
        .append_chain_entry("k", &VersionEntry::new(4, "e".into(), "k".into(), "T1".into(), 1))
        .unwrap();
    assert!(chain_holds_own(&store, "k", "T1", 4));
    assert!(!chain_holds_own(&store, "k", "T2", 4));
    assert!(!chain_holds_own(&store, "k", "T1", 5));
}

#[test]
fn write_skew_leaves_one_side_committed() {
    for first_commits_first in [true, false] {
        let mut coord = build_for_test();
        let t1 = coord.begin(None).unwrap();
        let t2 = coord.begin(None).unwrap();
        let x = ObjectKey::new("s/t/x");
        let y = ObjectKey::new("s/t/y");
        coord.read(&t1, &y, Version(0), String::new()).unwrap();
        coord.read(&t2, &x, Version(0), String::new()).unwrap();
        coord.stage(&t1, &x, b"1".to_vec(), None, vec![], false).unwrap();
        coord.stage(&t2, &y, b"2".to_vec(), None, vec![], false).unwrap();
        let (refused, lost, peer, won) = if first_commits_first {
            (&t1, "s/t/x", &t2, "s/t/y")
        } else {
            (&t2, "s/t/y", &t1, "s/t/x")
        };
        let e = commit(&mut coord, refused).unwrap_err();
        assert!(matches!(e, XtableError::Conflict(_)));
        assert_eq!(coord.status(refused).unwrap(), TxnStatus::Aborted);
        let cv = commit(&mut coord, peer).unwrap();
        assert_eq!(coord.status(peer).unwrap(), TxnStatus::Committed);
        assert!(coord.store().read_latest(lost).is_none());
        assert_eq!(coord.store().read_latest(won).unwrap().commit_version, cv);
        assert!(commit(&mut coord, refused).is_err());
    }
}

#[test]
fn write_skew_commits_on_one_side_whoever_else_reads() {
    let mut coord = build_for_test();
    let x = ObjectKey::new("s/t/x");
    let y = ObjectKey::new("s/t/y");
    // An earlier writer of both keys, and a third transaction that reads them.
    let t0 = coord.begin(None).unwrap();
    coord.read(&t0, &x, Version(0), String::new()).unwrap();
    stage(&mut coord, &t0, "s/t/x", b"0");
    stage(&mut coord, &t0, "s/t/y", b"0");
    let v0 = commit(&mut coord, &t0).unwrap();
    let t3 = coord.begin(None).unwrap();
    let t1 = coord.begin(None).unwrap();
    let t2 = coord.begin(None).unwrap();
    for t in [&t3, &t1, &t2] {
        coord.read(t, &x, Version(v0), String::new()).unwrap();
        coord.read(t, &y, Version(v0), String::new()).unwrap();
    }
    stage(&mut coord, &t1, "s/t/x", b"1");
    stage(&mut coord, &t2, "s/t/y", b"2");
    let e = commit(&mut coord, &t2).unwrap_err();
    assert!(matches!(e, XtableError::Conflict(_)));
    assert_eq!(coord.status(&t2).unwrap(), TxnStatus::Aborted);
    let v1 = commit(&mut coord, &t1).unwrap();
    assert_eq!(coord.store().read_latest("s/t/x").unwrap().commit_version, v1);
    assert_eq!(coord.store().read_latest("s/t/y").unwrap().commit_version, v0);
    assert!(commit(&mut coord, &t3).is_ok());
}

#[test]
fn a_reader_that_misses_a_commit_is_refused() {
    let mut coord = build_for_test();
    let t1 = coord.begin(None).unwrap();
    let t2 = coord.begin(None).unwrap();
    coord.read(&t1, &ObjectKey::new("s/t/y"), Version(0), String::new()).unwrap();
    stage(&mut coord, &t1, "s/t/x", b"1");
    stage(&mut coord, &t2, "s/t/y", b"2");
    commit(&mut coord, &t1).unwrap();
    coord.read(&t2, &ObjectKey::new("s/t/x"), Version(0), String::new()).unwrap();
    let e = commit(&mut coord, &t2).unwrap_err();
    assert!(matches!(e, XtableError::Conflict(_)));
    assert_eq!(coord.status(&t2).unwrap(), TxnStatus::Aborted);
    assert!(coord.store().read_latest("s/t/y").is_none());
}

#[test]
fn reads_between_stage_and_commit_do_not_count() {
    let mut coord = build_for_test();
    let t1 = coord.begin(None).unwrap();
    let t2 = coord.begin(None).unwrap();
    stage(&mut coord, &t1, "s/t/x", b"1");
    stage(&mut coord, &t2, "s/t/y", b"2");
    coord.read(&t1, &ObjectKey::new("s/t/y"), Version(0), String::new()).unwrap();
    coord.read(&t2, &ObjectKey::new("s/t/x"), Version(0), String::new()).unwrap();
    assert!(coord.lock_manager().find_dangerous_structure(&t1).is_none());
    assert!(coord.lock_manager().find_dangerous_structure(&t2).is_none());
}
