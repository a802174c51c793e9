use bytes::Bytes;
use xtable::cf::ChunkStatus;
use xtable::chunk::{ChunkEntry, ChunkWriter};
use xtable::coordinator::TxnCoordinator;
use xtable::flush::{complete_flush, compute_shard, object_key_of, plan_flush, plan_flush_as};
use xtable::gc::{is_stale, sweep_all_at, sweep_stale_txns};
use xtable::memtable::{FlushPolicy, MemEntry, MemTable, MemTableSet, RecordValue, INVISIBLE};
use xtable::read::{look_up, read_at_snapshot, Lookup, ReadSource};
use xtable::rebuild::{is_chunk_key, rebuild, rebuild_from_listing, ListedObject};
use xtable::recording::{RecordingBackend, RequestMethod};
use xtable::recovery::recover;
use xtable::store::LocalStore;
use xtable::txn_state::{
    BlobRecord, MultipartState, RecordIndexEntry, SchemaIndexEntry, TxnStateRecord, WriteSetEntry,
};
use xtable::types::{ObjectKey, TxnStatus};
use xtable::version_chain::VersionEntry;
use xtable::wal::WalRecord;

fn entry(v: u64, txn: &str) -> VersionEntry {
    VersionEntry::new(v, "e".into(), "k".into(), txn.into(), 10)
}

#[test]
fn recover_no_wal_is_noop() {
    let mut store = LocalStore::new();
    let r = recover(&mut store, &mut Vec::new());
    assert_eq!(r.already_committed, 0);
    assert_eq!(r.chain_won_wal_race, 0);
    assert_eq!(r.partial_uploads_aborted, 0);
}

#[test]
fn recover_marks_in_progress_txn_as_aborted() {
    let mut store = LocalStore::new();
    let txn_id = "T1";
    store.append_wal(&WalRecord::Begin {
        txn_id: txn_id.into(),
        snapshot_version: 0,
        idempotency_key: None,
    });
    let mut r = TxnStateRecord::new_active(0, None, 0);
    r.status = TxnStatus::Active;
    store.put_txn_state(txn_id, &r);
    let rep = recover(&mut store, &mut Vec::new());
    assert_eq!(rep.already_committed, 0);
    let post = store.get_txn_state(txn_id).unwrap();
    assert_eq!(post.status, TxnStatus::Aborted);
}

#[test]
fn unit_v4_stage_records_chain_version_as_version_at_read() {
    let mut store = LocalStore::new();
    store
        .append_chain_entry("k", &VersionEntry::new(5, "e5".into(), "k".into(), "T0".into(), 10))
        .unwrap();
    let txn_id = "T1";
    let mut state = TxnStateRecord::new_active(5, None, 0);
    state.write_keys.push("k".into());
    store.put_txn_state(txn_id, &state);
    let chain = store.read_chain("k");
    assert_eq!(chain.latest_commit_version(), 5);
}

#[test]
fn unit_v4_chain_append_advances_version() {
    let mut store = LocalStore::new();
    store.append_chain_entry("k", &entry(1, "T1")).unwrap();
    store.append_chain_entry("k", &entry(2, "T2")).unwrap();
    let chain = store.read_chain("k");
    let vs: Vec<u64> = chain.entries.iter().map(|e| e.commit_version).collect();
    assert_eq!(vs, vec![1, 2], "chain must be strictly monotonic");
}

#[test]
fn unit_v2_recovery_preserves_published_chain() {
    let mut store = LocalStore::new();
    let txn_id = "T_phantom";
    store.append_wal(&WalRecord::Begin {
        txn_id: txn_id.into(),
        snapshot_version: 0,
        idempotency_key: None,
    });
    store.append_wal(&WalRecord::Committing {
        txn_id: txn_id.into(),
        upload_keys: vec!["k".into()],
    });
    store
        .append_chain_entry("k", &VersionEntry::new(1, "e1".into(), "k".into(), txn_id.into(), 7))
        .unwrap();
    let mut state = TxnStateRecord::new_active(0, None, 0);
    state.status = TxnStatus::Committing;
    state.alloc_versions = vec![("k".into(), 1)];
    store.put_txn_state(txn_id, &state);

    let report = recover(&mut store, &mut Vec::new());
    assert!(
        report.chain_won_wal_race >= 1,
        "recovery should recognize chain-won-wal-race, got {:?}",
        report
    );
    assert_eq!(
        report.partial_uploads_aborted, 0,
        "recovery must not abort a txn whose chain is published"
    );
    let chain = store.read_chain("k");
    assert_eq!(chain.entries.len(), 1);
    assert_eq!(chain.entries[0].commit_version, 1);
    let st = store.get_txn_state(txn_id).unwrap();
    assert_eq!(st.status, TxnStatus::Committed);
}

#[test]
fn recovery_aborts_a_commit_that_never_reached_its_chain() {
    let mut store = LocalStore::new();
    store.append_wal(&WalRecord::Committing {
        txn_id: "T".into(),
        upload_keys: vec!["k".into()],
    });
    // Another transaction wrote the key.
    store.append_chain_entry("k", &entry(1, "OTHER")).unwrap();
    let mut state = TxnStateRecord::new_active(0, None, 0);
    state.status = TxnStatus::Committing;
    state.alloc_versions = vec![("k".into(), 1)];
    store.put_txn_state("T", &state);
    store.put_write_entry(
        "T",
        "k",
        &WriteSetEntry {
            backend_key: "k".into(),
            body_handle: Some("h".into()),
            inline_body: None,
            size: 1,
            content_type: None,
            user_meta: vec![],
            version_at_read: 0,
            deleted: false,
        },
    );
    store.put_blob(
        "h",
        &BlobRecord { path: "/tmp/h".into(), size: 1, sha256: "x".into(), created_at_ms: 0 },
    );
    let mut garbage = Vec::new();
    let report = recover(&mut store, &mut garbage);
    assert_eq!(report.partial_uploads_aborted, 1);
    assert_eq!(store.get_txn_state("T").unwrap().status, TxnStatus::Aborted);
    assert_eq!(garbage, vec!["/tmp/h".to_string()]);
    assert!(store.get_blob("h").is_none());
    assert!(store.iter_write_set("T").is_empty());
    // A second run finds nothing to do.
    let again = recover(&mut store, &mut garbage);
    assert_eq!(again.partial_uploads_aborted, 0);
}

#[test]
fn recovery_counts_what_was_committed() {
    let mut coord = TxnCoordinator::new(LocalStore::new(), "staged".into());
    let t = coord.begin(None).unwrap();
    coord.stage(&t, &ObjectKey::new("k"), b"x".to_vec(), None, vec![], false).unwrap();
    coord.commit(&t, &Vec::new(), 0).unwrap();
    let mut store = coord.store.clone();
    let report = recover(&mut store, &mut Vec::new());
    assert_eq!(report.already_committed, 1);
    assert_eq!(report.chain_won_wal_race, 0);
    assert_eq!(store.read_chain("k").entries.len(), 1);
}

#[test]
fn unit_v1_chain_rebuild_preserves_version_only_metadata() {
    let mut store = LocalStore::new();
    store.append_chain_entry("k", &entry(1, "fake-txn")).unwrap();
    store.append_chain_entry("k", &entry(2, "fake-txn")).unwrap();
    store.append_chain_entry("k", &entry(3, "fake-txn")).unwrap();
    let st = store.get_txn_state("fake-txn");
    assert!(st.is_none(), "fake-txn has no TxnState");
    let chain = store.read_chain("k");
    assert_eq!(chain.entries.len(), 3);
    assert_eq!(chain.latest_commit_version(), 3);
}

#[test]
fn unit_v3_compensation_check_is_version_aware() {
    let mut store = LocalStore::new();
    store.append_chain_entry("k", &entry(1, "T0")).unwrap();
    store.append_chain_entry("k", &entry(2, "T1")).unwrap();
    let chain_latest = store.read_chain("k").latest_commit_version();
    let t1_alloc = 2u64;
    assert_ne!(chain_latest, 1, "chain moved past T0's v=1");
    store.append_chain_entry("k", &entry(3, "T2")).unwrap();
    let chain_latest = store.read_chain("k").latest_commit_version();
    assert_eq!(chain_latest, 3);
    assert_ne!(chain_latest, t1_alloc, "V3: skip compensation when chain moved past");
}

#[test]
fn unit_v9_snapshot_ref_count() {
    let mut store = LocalStore::new();
    store.register_snapshot(1);
    store.register_snapshot(1);
    assert_eq!(store.count_active_snapshots(), 2);

    store.unregister_snapshot(1);
    assert_eq!(
        store.count_active_snapshots(),
        1,
        "first unregister decrements but doesn't remove"
    );
    store.append_chain_entry("k", &entry(1, "T1")).unwrap();
    store.append_chain_entry("k", &entry(2, "T2")).unwrap();
    let (_, removed) = store.gc_chains(1);
    assert_eq!(removed, 0, "V9: v=1 must not be GC'd while snapshot=1 active");
    let chain = store.read_chain("k");
    assert_eq!(chain.entries.len(), 2);

    store.unregister_snapshot(1);
    assert_eq!(store.count_active_snapshots(), 0);
    let min_active = store.min_active_snapshot();
    let (_, removed) = store.gc_chains(min_active);
    assert_eq!(removed, 1, "after release, GC can prune v=1");
}

#[test]
fn unit_v9_two_distinct_snapshots_both_pinned() {
    let mut store = LocalStore::new();
    store.register_snapshot(3);
    store.register_snapshot(7);
    assert_eq!(store.min_active_snapshot(), 3);
    store.unregister_snapshot(3);
    assert_eq!(store.min_active_snapshot(), 7, "after releasing 3, min is 7");
}

#[test]
fn unit_v10_delete_flag_creates_tombstone() {
    let mut store = LocalStore::new();
    let entry = VersionEntry::tombstone(5, "k".into(), "T_del".into());
    assert!(entry.deleted, "VersionEntry::tombstone must have deleted=true");
    assert_eq!(entry.size, 0);
    store.append_chain_entry("k", &entry).unwrap();
    let chain = store.read_chain("k");
    let last = chain.entries.last().unwrap();
    assert!(last.deleted);
    assert_eq!(last.size, 0);
}

#[test]
fn unit_v6_chain_gates_visibility() {
    let mut store = LocalStore::new();
    let r = store.read_at_snapshot("nonexistent", u64::MAX);
    assert!(r.is_none(), "absent chain entry = no visibility");
    store.append_chain_entry("k", &entry(1, "T")).unwrap();
    let r = store.read_at_snapshot("k", u64::MAX);
    assert!(r.is_some());
}

#[test]
fn unit_v7_committing_wal_before_uploads() {
    let mut store = LocalStore::new();
    store.append_wal(&WalRecord::Begin {
        txn_id: "T_order".into(),
        snapshot_version: 0,
        idempotency_key: None,
    });
    store.append_wal(&WalRecord::Committing {
        txn_id: "T_order".into(),
        upload_keys: vec!["k".into()],
    });
    store.append_wal(&WalRecord::Committed { txn_id: "T_order".into(), commit_version: 1 });
    let log = store.iter_wal();
    let mut seen_committing = false;
    for (_seq, rec) in &log {
        match rec {
            WalRecord::Committing { txn_id, .. } if txn_id == "T_order" => seen_committing = true,
            WalRecord::Committed { txn_id, .. } if txn_id == "T_order" => {
                assert!(seen_committing, "Committed before Committing!");
            }
            _ => {}
        }
    }
}

#[test]
fn unit_v8_read_at_snapshot_not_dead_code() {
    let mut store = LocalStore::new();
    store
        .append_chain_entry("k", &VersionEntry::new(1, "e".into(), "k".into(), "T1".into(), 1))
        .unwrap();
    store
        .append_chain_entry("k", &VersionEntry::new(5, "e".into(), "k".into(), "T5".into(), 5))
        .unwrap();
    assert_eq!(store.read_at_snapshot("k", 1).unwrap().commit_version, 1);
    assert_eq!(store.read_at_snapshot("k", 3).unwrap().commit_version, 1);
    assert_eq!(store.read_at_snapshot("k", 5).unwrap().commit_version, 5);
    assert_eq!(store.read_at_snapshot("k", 100).unwrap().commit_version, 5);
}

#[test]
fn unit_v11_multipart_respects_txn() {
    let mut store = LocalStore::new();
    store.put_multipart(
        "u1",
        &MultipartState {
            upload_id: "u1".into(),
            key: "k".into(),
            backend_upload_id: "u1".into(),
            parts: vec![(1, "etag".into(), 10)],
            txn_id: Some("T1".into()),
        },
    );
    let m = store.get_multipart("u1").unwrap();
    assert_eq!(m.txn_id.as_deref(), Some("T1"));
    assert_eq!(store.iter_all_multipart().len(), 1);
    store.delete_multipart("u1");
    assert!(store.get_multipart("u1").is_none());
}

#[test]
fn unit_v12_spill_file_removed_on_commit() {
    let mut store = LocalStore::new();
    let rec = BlobRecord {
        path: "spill.bin".into(),
        size: 5,
        sha256: "h".into(),
        created_at_ms: 0,
    };
    store.put_blob("h1", &rec);
    let rec_path = store.get_blob("h1").map(|r| r.path);
    assert!(rec_path.is_some());
    assert_eq!(rec_path.unwrap(), "spill.bin");
    store.delete_blob("h1");
    assert!(store.get_blob("h1").is_none());
}

#[test]
fn unit_v13_recovery_abort_releases_pin() {
    let mut store = LocalStore::new();
    store.register_snapshot(42);
    assert_eq!(store.count_active_snapshots(), 1);
    store.unregister_snapshot(42);
    assert_eq!(store.count_active_snapshots(), 0);
    store.unregister_snapshot(42);
    assert_eq!(store.count_active_snapshots(), 0);
}

#[test]
fn unit_v14_rebuild_fails_on_backend_error() {
    let mut store = LocalStore::new();
    store.put_blob(
        "h1",
        &BlobRecord { path: "/tmp/h".into(), size: 1, sha256: "x".into(), created_at_ms: 0 },
    );
    let res = rebuild_from_listing(&mut store, &Err("connection refused".into()));
    assert!(res.is_err(), "rebuild on unreachable backend must return Err");
    let e = res.unwrap_err();
    assert!(store.get_blob("h1").is_some());
    assert_eq!(e.http_status(), 502);
    assert!(e.message().contains("backend unreachable"));
    assert!(e.message().contains("connection refused"));
}

#[test]
fn inv_gc_sweeps_stale_txn_but_keeps_recent() {
    let mut store = LocalStore::new();
    let mut stale = TxnStateRecord::new_active(0, None, 0);
    stale.last_heartbeat_ms = 0;
    store.put_txn_state("STALE", &stale);
    let fresh = TxnStateRecord::new_active(0, None, chrono::Utc::now().timestamp_millis());
    store.put_txn_state("FRESH", &fresh);

    let n = sweep_stale_txns(&mut store, &mut Vec::new(), 60);
    assert_eq!(n, 1, "only STALE should be swept");
    let stale_after = store.get_txn_state("STALE").unwrap();
    let fresh_after = store.get_txn_state("FRESH").unwrap();
    assert_eq!(format!("{:?}", stale_after.status), "Aborted");
    assert_eq!(format!("{:?}", fresh_after.status), "Active");
}

#[test]
fn a_sweep_does_both() {
    let mut store = LocalStore::new();
    let t = TxnStateRecord::new_active(1, None, 1_000);
    assert!(is_stale(&t, 62_000, 60));
    assert!(!is_stale(&t, 61_000, 60));
    store.put_txn_state("T", &t);
    store.register_snapshot(1);
    store.append_chain_entry("k", &entry(1, "A")).unwrap();
    store.append_chain_entry("k", &entry(2, "B")).unwrap();
    let s = sweep_all_at(&mut store, &mut Vec::new(), 60, 62_000);
    assert_eq!(s.aborted_txns, 1);
    // The stale transaction's pin is gone, so its version is too.
    assert_eq!(s.chains_pruned, 1);
    assert_eq!(s.entries_removed, 1);
    assert_eq!(store.count_active_snapshots(), 0);
}

fn make_entry(space: &str, table: &str, rid: &str, wal_seq: u64, cv: u64) -> MemEntry {
    MemEntry {
        key: (space.into(), table.into(), rid.into()),
        value: RecordValue { bytes: Bytes::from_static(br#"{"id":"x"}"#) },
        commit_version: cv,
        txn_id: format!("txn-{wal_seq}"),
        deleted: false,
        content_type: Some("application/json".into()),
        user_meta: vec![],
        schema_version: 1,
        wal_seq,
        size_bytes: 11,
    }
}

#[test]
fn flush_chunk_s3_key_uses_real_space_and_table() {
    let mut store = LocalStore::new();
    let mut recording = RecordingBackend::new();
    let mut mems = MemTableSet::new(MemTable::new(0), FlushPolicy::default());
    mems.active.put_invisible(make_entry("acme", "users", "u1", 1, 1)).expect("put A");
    mems.rotate();
    mems.active.put_invisible(make_entry("demo", "tasks", "t1", 2, 2)).expect("put B");
    mems.rotate();

    let mut flushed = 0;
    for mt in mems.take_immutables() {
        let plan = plan_flush(&mt).expect("flush succeeds").expect("something to flush");
        let path = format!("/xtable-test/{}", plan.s3_key);
        recording.handle(RequestMethod::Put, &path, &vec![], plan.file.clone());
        complete_flush(&mut store, &plan, "etag");
        flushed += 1;
    }
    assert_eq!(flushed, 2, "two memtables flushed, so two chunk PUTs");
    let puts_after_flush = recording.counters.put_object_calls();
    assert_eq!(
        puts_after_flush, 2,
        "flush must upload exactly two chunks (got {puts_after_flush})"
    );

    let chunk_keys: Vec<String> = store
        .iter_all_chunk_index()
        .into_iter()
        .map(|(_, c)| c.s3_key)
        .filter(|k| k.ends_with(".xtc"))
        .collect();
    let has_acme = chunk_keys.iter().any(|k| k.starts_with("_xtable/acme/users/"));
    let has_demo = chunk_keys.iter().any(|k| k.starts_with("_xtable/demo/tasks/"));
    assert!(
        has_acme,
        "expected a chunk key under `_xtable/acme/users/`; got {:?}",
        chunk_keys
    );
    assert!(
        has_demo,
        "expected a chunk key under `_xtable/demo/tasks/`; got {:?}",
        chunk_keys
    );
    let double_slash: Vec<&String> = chunk_keys.iter().filter(|k| k.contains("//")).collect();
    assert!(
        double_slash.is_empty(),
        "no chunk key may contain `//`; got {:?}",
        double_slash
    );
    let legacy = chunk_keys.iter().any(|k| {
        k.starts_with("_xtable//") || k.starts_with("_xtable///") || k.contains("/__xtable/")
    });
    assert!(!legacy, "found legacy-shape chunk key; got {:?}", chunk_keys);
    // What was uploaded is there under the same names.
    for k in &chunk_keys {
        let got =
            recording.handle(RequestMethod::Get, &format!("/xtable-test/{k}"), &vec![], vec![]);
        assert_eq!(got.status, 200);
    }
}

#[test]
fn flush_leaves_staged_entries_alone() {
    let mut mt = MemTable::new(0);
    assert!(plan_flush(&mt).unwrap().is_none());
    mt.put_invisible(make_entry("s", "t", "a", 1, INVISIBLE)).unwrap();
    assert!(plan_flush(&mt).unwrap().is_none());
    mt.put_invisible(make_entry("s", "t", "b", 2, 4)).unwrap();
    let plan = plan_flush_as(&mt, "C1".into()).unwrap().unwrap();
    assert_eq!(plan.entries.len(), 1);
    assert_eq!(plan.entries[0].record_id, "b");
    assert_eq!(plan.shard, compute_shard(&plan.header.key_min));
    assert_eq!(plan.s3_key, object_key_of("s", "t", plan.shard, "C1"));
    assert_eq!(plan.shard, xxhash_rust::xxh3::xxh3_64(&plan.header.key_min) as u8);
}

#[test]
fn a_flushed_record_reads_back_from_its_chunk() {
    let mut coord = TxnCoordinator::new(LocalStore::new(), "staged".into());
    let t = coord.begin(None).unwrap();
    let key = ObjectKey::new("_xtable/s/t/r");
    coord.stage(&t, &key, b"{\"v\":1}".to_vec(), None, vec![], false).unwrap();
    let cv = coord.commit(&t, &Vec::new(), 0).unwrap().commit_version;
    let idx = RecordIndexEntry {
        commit_version: cv,
        deleted: false,
        chunk_id: String::new(),
        schema_version: 0,
        txn_id: t.clone(),
        updated_ms: 0,
    };
    coord.store.put_record_index_with_body("s", "t", "r", &idx, "{\"v\":1}").unwrap();

    // While it is in memory, the active memtable answers.
    let none: Result<Vec<u8>, String> = Err("not fetched".into());
    let mem =
        read_at_snapshot(&coord.memtable_set, &coord.store, "s", "t", "r", cv, &none).unwrap();
    assert_eq!(mem.unwrap().source, ReadSource::Active);

    coord.memtable_set.rotate();
    let imm =
        read_at_snapshot(&coord.memtable_set, &coord.store, "s", "t", "r", cv, &none).unwrap();
    assert_eq!(imm.unwrap().source, ReadSource::Immutable);

    let mts = coord.memtable_set.take_immutables();
    let plan = plan_flush(&mts[0]).unwrap().unwrap();
    complete_flush(&mut coord.store, &plan, "etag");
    let chunk = coord.store.get_chunk_index(&plan.chunk_id).unwrap();
    assert_eq!(chunk.commit_version_min, cv);
    assert_eq!(chunk.commit_version_max, cv);
    assert_eq!(chunk.status, ChunkStatus::Live);
    assert_eq!(chunk.etag, "etag");

    match look_up(&coord.memtable_set, &coord.store, "s", "t", "r", cv) {
        Lookup::Fetch(c) => assert_eq!(c.s3_key, plan.s3_key),
        Lookup::Answer(_) => panic!("the record is in a chunk"),
    }
    let fetched: Result<Vec<u8>, String> = Ok(plan.file.clone());
    let got = read_at_snapshot(&coord.memtable_set, &coord.store, "s", "t", "r", cv, &fetched)
        .unwrap()
        .unwrap();
    assert_eq!(got.source, ReadSource::Chunk);
    assert_eq!(&got.body[..], b"{\"v\":1}");
    assert_eq!(got.commit_version, cv);
    // A snapshot before the commit sees nothing.
    let early =
        read_at_snapshot(&coord.memtable_set, &coord.store, "s", "t", "r", cv - 1, &fetched)
            .unwrap();
    assert!(early.is_none());
    // A failed fetch is an error of the backend.
    let failed = read_at_snapshot(&coord.memtable_set, &coord.store, "s", "t", "r", cv, &none);
    assert!(failed.is_err());
    // Marking the chunk as deleted leaves it in place for readers.
    coord.store.mark_chunks_deleted(&vec![plan.chunk_id.clone()]);
    assert_eq!(
        coord.store.get_chunk_index(&plan.chunk_id).unwrap().status,
        ChunkStatus::Deleted
    );
    coord.store.delete_chunk_index(&plan.chunk_id);
    let gone = read_at_snapshot(&coord.memtable_set, &coord.store, "s", "t", "r", cv, &fetched);
    assert!(matches!(gone, Ok(None)));
}

#[test]
fn read_source_variants() {
    let _ = ReadSource::Active;
    let _ = ReadSource::Immutable;
    let _ = ReadSource::Chunk;
    let _ = ReadSource::NotFound;
}

#[test]
fn flush_truncates_the_log_it_covers() {
    let mut store = LocalStore::new();
    for i in 0..4 {
        store.append_wal(&WalRecord::Aborted { txn_id: format!("T{i}"), reason: "x".into() });
    }
    let mut mt = MemTable::new(0);
    mt.put_invisible(make_entry("s", "t", "a", 2, 7)).unwrap();
    let plan = plan_flush(&mt).unwrap().unwrap();
    assert_eq!((plan.first_seq, plan.last_seq), (2, 2));
    complete_flush(&mut store, &plan, "e");
    let seqs: Vec<u64> = store.iter_wal().iter().map(|(s, _)| *s).collect();
    assert!(seqs.iter().all(|s| *s > 2));
    assert!(seqs.contains(&3) && seqs.contains(&4));
    assert_eq!(store.last_flushed_seq(), 2);
}

fn chunk_s3_key(space: &str, table: &str, shard: u8, chunk_id: &str) -> String {
    format!("_xtable/{}/{}/{}/{}.xtc", space, table, shard, chunk_id)
}

fn make_chunk(
    chunk_id: &str,
    space: &str,
    table: &str,
    record_id: &str,
    value: &[u8],
    commit_version: u64,
) -> Vec<u8> {
    let mut w = ChunkWriter::new(chunk_id.into(), space.into(), table.into());
    w.append(ChunkEntry {
        space: space.into(),
        table: table.into(),
        record_id: record_id.into(),
        value: value.to_vec(),
        commit_version,
        txn_id: format!("txn-{commit_version}"),
        deleted: false,
        content_type: Some("application/json".into()),
        user_meta: vec![],
        schema_version: 1,
        wal_seq: commit_version,
    })
    .expect("append");
    let (file, _header, _footer) = w.finalize().expect("finalize");
    file
}

fn listed(key: &str, bytes: Option<Vec<u8>>) -> ListedObject {
    ListedObject {
        key: key.into(),
        size: bytes.as_ref().map(|b| b.len() as u64).unwrap_or(0),
        etag: "etag".into(),
        bytes,
    }
}

#[test]
fn rebuild_no_objects_is_noop() {
    let mut store = LocalStore::new();
    let r = rebuild(&mut store, &vec![]).unwrap();
    assert_eq!(r.objects_scanned, 0);
    assert_eq!(r.versions_rebuilt, 0);
    assert_eq!(r.orphans_deleted, 0);
}

#[test]
fn rebuild_reads_records_from_chunks() {
    let mut store = LocalStore::new();
    let chunk_a = make_chunk("01HCKZ8X0A", "acme", "users", "u1", br#"{"id":"u1"}"#, 1);
    let s3_key_a = chunk_s3_key("acme", "users", 0, "01HCKZ8X0A");
    let chunk_b = make_chunk("01HCKZ8X0B", "demo", "tasks", "t1", br#"{"id":"t1"}"#, 2);
    let s3_key_b = chunk_s3_key("demo", "tasks", 0, "01HCKZ8X0B");
    assert!(s3_key_a.ends_with(".xtc"));
    assert!(s3_key_b.ends_with(".xtc"));

    let report = rebuild(
        &mut store,
        &vec![listed(&s3_key_a, Some(chunk_a)), listed(&s3_key_b, Some(chunk_b))],
    )
    .expect("rebuild");
    assert_eq!(
        report.versions_rebuilt, 2,
        "expected 2 records rebuilt from 2 chunks; report={:?}",
        report
    );
    let rec_a = store.get_record_index("acme", "users", "u1");
    let rec_b = store.get_record_index("demo", "tasks", "t1");
    assert!(rec_a.is_some(), "record_index for (acme, users, u1) must be populated");
    assert!(rec_b.is_some(), "record_index for (demo, tasks, t1) must be populated");
    let rec_a = rec_a.unwrap();
    assert_eq!(rec_a.commit_version, 1);
    assert!(!rec_a.deleted);
    assert_eq!(rec_a.chunk_id, "01HCKZ8X0A");
    let rec_b = rec_b.unwrap();
    assert_eq!(rec_b.commit_version, 2);
    assert_eq!(rec_b.chunk_id, "01HCKZ8X0B");
    let chunk_a_idx = store.get_chunk_index("01HCKZ8X0A");
    let chunk_b_idx = store.get_chunk_index("01HCKZ8X0B");
    assert!(chunk_a_idx.is_some(), "the chunk index must contain chunk A");
    assert!(chunk_b_idx.is_some(), "the chunk index must contain chunk B");
    assert!(chunk_a_idx.unwrap().bloom.is_some());
    assert_eq!(store.current_global_version(), 2);
}

#[test]
fn rebuild_preserves_historical_versions_for_snapshot_reads() {
    let mut store = LocalStore::new();
    let old_chunk = make_chunk("01HCKZ8X10", "acme", "users", "u1", br#"{"name":"old"}"#, 1);
    let new_chunk = make_chunk("01HCKZ8X11", "acme", "users", "u1", br#"{"name":"new"}"#, 2);
    let old_key = chunk_s3_key("acme", "users", 0, "01HCKZ8X10");
    let new_key = chunk_s3_key("acme", "users", 0, "01HCKZ8X11");
    // The order of the listing does not matter.
    let report = rebuild(
        &mut store,
        &vec![listed(&new_key, Some(new_chunk)), listed(&old_key, Some(old_chunk))],
    )
    .unwrap();
    assert_eq!(report.versions_rebuilt, 2);
    let chain = store.read_chain("_xtable/acme/users/u1");
    assert_eq!(
        chain.entries.iter().map(|entry| entry.commit_version).collect::<Vec<_>>(),
        vec![1, 2]
    );
    let (entry, body) = store.get_record_version_at_snapshot("acme", "users", "u1", 1).unwrap();
    assert_eq!(entry.commit_version, 1);
    assert_eq!(body, br#"{"name":"old"}"#);
    assert_eq!(store.get_record_index("acme", "users", "u1").unwrap().commit_version, 2);
}

#[test]
fn rebuild_skips_what_is_no_chunk() {
    let mut store = LocalStore::new();
    assert!(is_chunk_key("_xtable/s/t/0/C.xtc"));
    assert!(!is_chunk_key("_xtable/s/t/r.json"));
    let r = rebuild(
        &mut store,
        &vec![
            listed("_xtable/s/t/r.json", Some(b"{}".to_vec())),
            listed("_xtable/s/t/0/broken.xtc", Some(b"XTC1".to_vec())),
            listed("_xtable/s/t/0/unread.xtc", None),
        ],
    )
    .unwrap();
    assert_eq!(r.objects_scanned, 3);
    assert_eq!(r.versions_rebuilt, 0);
    assert!(store.iter_all_chunk_index().is_empty());
}

#[test]
fn record_index_entry_carries_chunk_id() {
    let entry = RecordIndexEntry {
        commit_version: 5,
        deleted: false,
        chunk_id: "01HCKZ8X0CHUNKID".to_string(),
        schema_version: 1,
        txn_id: "01HCKZ8X0TXN".to_string(),
        updated_ms: 0,
    };
    assert_eq!(entry.chunk_id, "01HCKZ8X0CHUNKID");
    assert!(!entry.deleted);
}

#[test]
fn a_body_that_is_no_json_is_refused() {
    let mut store = LocalStore::new();
    let entry = RecordIndexEntry {
        commit_version: 1,
        deleted: false,
        chunk_id: "c".into(),
        schema_version: 1,
        txn_id: "T".into(),
        updated_ms: 0,
    };
    assert!(store.put_record_index_with_body("s", "t", "r", &entry, "{\"a\":").is_err());
    assert!(store.get_record_index("s", "t", "r").is_none());
}

#[test]
fn schemas_are_listed_by_space() {
    let mut store = LocalStore::new();
    let e = SchemaIndexEntry {
        latest_version: 2,
        latest_backend_key: "_xtable_schema/s/b".into(),
        registered_ms: 1,
    };
    store.put_schema_index("s", "b", &e);
    store.put_schema_index("s", "a", &e);
    store.put_schema_index("other", "c", &e);
    let names: Vec<String> = store.iter_schema_index("s").into_iter().map(|(n, _)| n).collect();
    assert_eq!(names, vec!["a".to_string(), "b".to_string()]);
    assert_eq!(store.get_schema_index("s", "b").unwrap(), e);
}

#[test]
fn status_changes_only_from_the_expected_one() {
    let mut store = LocalStore::new();
    assert!(!store.compare_and_set_txn_status("T", TxnStatus::Active, TxnStatus::Committing));
    store.put_txn_state("T", &TxnStateRecord::new_active(0, None, 0));
    assert!(store.compare_and_set_txn_status("T", TxnStatus::Active, TxnStatus::Committing));
    assert!(!store.compare_and_set_txn_status("T", TxnStatus::Active, TxnStatus::Aborted));
    assert_eq!(store.get_txn_state("T").unwrap().status, TxnStatus::Committing);
}
