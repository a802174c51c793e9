use bytes::Bytes;
use xtable::flush::plan_flush;
use xtable::memtable::{
    FlushPolicy, MemEntry, MemTable, MemTableSet, RecordValue, SerializedEntry, INVISIBLE,
};
use xtable::read::{look_in_memtables, ReadSource};

fn make_entry(rid: &str, wal_seq: u64, body_size: usize) -> MemEntry {
    MemEntry {
        key: ("space".into(), "table".into(), rid.into()),
        value: RecordValue { bytes: Bytes::from(vec![0u8; body_size]) },
        commit_version: INVISIBLE,
        txn_id: "T1".into(),
        deleted: false,
        content_type: None,
        user_meta: vec![],
        schema_version: 1,
        wal_seq,
        size_bytes: body_size as u64,
    }
}

fn committed(rid: &str, cv: u64, body: &[u8]) -> MemEntry {
    MemEntry {
        value: RecordValue::new(body.to_vec()),
        commit_version: cv,
        ..make_entry(rid, cv, body.len())
    }
}

#[test]
fn put_invisible_and_publish() {
    let mut mt = MemTable::new(0);
    let e = make_entry("r1", 1, 100);
    mt.put_invisible(e.clone()).unwrap();
    assert!(
        mt.get_visible(&e.key, u64::MAX).is_none(),
        "invisible entry should not be visible at any snapshot"
    );
    mt.publish(&e.key, 1, 5);
    let got = mt.get_visible(&e.key, 5).expect("visible after publish");
    assert_eq!(got.txn_id, "T1");
    assert!(mt.get_visible(&e.key, 4).is_none());
}

#[test]
fn should_flush_on_size() {
    let policy = FlushPolicy {
        memtable_size_bytes: 200,
        memtable_age_ms: 3600 * 1000,
        soft_limit_bytes: 100,
    };
    let mut mt = MemTable::new(0);
    for i in 0..4 {
        let e = make_entry(&format!("r{i}"), i, 100);
        mt.put_invisible(e).unwrap();
    }
    assert!(mt.should_flush(&policy, 0));
}

#[test]
fn should_flush_on_age() {
    let policy = FlushPolicy::default();
    assert_eq!(policy.memtable_size_bytes, 64 * 1024 * 1024);
    assert_eq!(policy.memtable_age_ms, 60_000);
    assert_eq!(policy.soft_limit_bytes, 51 * 1024 * 1024);
    let mt = MemTable::new(0);
    assert!(!mt.should_flush(&policy, 59_999));
    assert!(mt.should_flush(&policy, 60_000));
}

#[test]
fn memtable_set_rotation() {
    let policy = FlushPolicy {
        memtable_size_bytes: 200,
        memtable_age_ms: 3600 * 1000,
        soft_limit_bytes: 100,
    };
    let initial = MemTable::new(0);
    let mut set = MemTableSet::new(initial, policy);

    for i in 0..5 {
        let e = make_entry(&format!("r{i}"), i as u64, 100);
        set.put_invisible(e, 0).unwrap();
    }

    assert!(
        set.active.id() > 0,
        "expected rotation to bump id; got {}",
        set.active.id()
    );
    // Two entries of one hundred bytes fill a memtable.
    assert_eq!(set.active.id(), 2);
    assert_eq!(set.active_bytes(), 100);
    assert_eq!(set.total_bytes(), 500);
    let taken = set.take_immutables();
    assert_eq!(taken.len(), 2);
    assert_eq!(set.total_bytes(), 100);
    for mt in taken {
        set.requeue(mt);
    }
    assert_eq!(set.flushing.len(), 2);
}

#[test]
fn small_entries_count_for_the_least_size() {
    let mut mt = MemTable::new(3);
    assert_eq!(mt.put_invisible(make_entry("a", 1, 1)).unwrap(), 64);
    assert_eq!(mt.put_invisible(make_entry("b", 2, 65)).unwrap(), 65);
    assert_eq!(mt.total_bytes(), 129);
    assert_eq!(mt.id(), 3);
}

#[test]
fn sequences_and_versions_of_a_memtable() {
    let mut mt = MemTable::new(0);
    assert_eq!(mt.first_wal_seq(), u64::MAX);
    assert_eq!(mt.last_wal_seq(), 0);
    assert_eq!(mt.commit_version_min(), INVISIBLE);
    assert_eq!(mt.commit_version_max(), 0);
    mt.put_invisible(committed("a", 4, b"x")).unwrap();
    mt.put_invisible(committed("b", 7, b"x")).unwrap();
    assert_eq!(mt.commit_version_min(), 4);
    assert_eq!(mt.commit_version_max(), 7);
    assert_eq!((mt.first_wal_seq(), mt.last_wal_seq()), (4, 7));
    // A staged entry hides the least version.
    mt.put_invisible(make_entry("c", 9, 1)).unwrap();
    assert_eq!(mt.commit_version_min(), INVISIBLE);
    assert_eq!(mt.commit_version_max(), 7);
    assert_eq!(mt.len(), 3);
}

#[test]
fn publishing_leaves_visible_entries_alone() {
    let mut set = MemTableSet::new(MemTable::new(0), FlushPolicy::default());
    let old = committed("r", 5, b"old");
    let key = old.key.clone();
    set.put_invisible(old, 0).unwrap();
    set.rotate();
    set.put_invisible(committed("r", 9, b"new"), 0).unwrap();
    set.publish(&key, 9, 9);
    let at5 = look_in_memtables(&set, &key, 5).unwrap();
    assert_eq!(&at5.body[..], b"old");
    assert_eq!(at5.source, ReadSource::Immutable);
    let at9 = look_in_memtables(&set, &key, 9).unwrap();
    assert_eq!(&at9.body[..], b"new");
    assert_eq!(at9.source, ReadSource::Active);
    assert!(look_in_memtables(&set, &key, 4).is_none());
}

#[test]
fn a_staged_entry_is_published_after_rotation() {
    let mut set = MemTableSet::new(MemTable::new(0), FlushPolicy::default());
    let e = make_entry("r", 1, 3);
    let key = e.key.clone();
    set.put_invisible(e, 0).unwrap();
    assert!(!set.try_rotate_active(0));
    assert!(!set.should_rotate_active(59_999));
    assert!(set.try_rotate_active(60_000));
    set.publish(&key, 1, 8);
    assert!(look_in_memtables(&set, &key, 7).is_none());
    assert_eq!(look_in_memtables(&set, &key, 8).unwrap().commit_version, 8);
}

#[test]
fn a_put_replaces_the_entry_of_its_key() {
    let mut mt = MemTable::new(0);
    mt.put_invisible(committed("r", 1, b"one")).unwrap();
    mt.put_invisible(committed("s", 2, b"two")).unwrap();
    mt.put_invisible(committed("r", 3, b"three")).unwrap();
    assert_eq!(mt.len(), 2);
    let key = ("space".to_string(), "table".to_string(), "r".to_string());
    assert_eq!(&mt.get_visible(&key, 3).unwrap().value.bytes[..], b"three");
    assert!(mt.get_visible(&key, 2).is_none());
    assert!(mt.entry_at(1).visible_at(2));
    assert!(!mt.entry_at(1).is_invisible());
}

#[test]
fn serialized_entry_is_flat() {
    let e = committed("r", 6, b"body");
    let s = SerializedEntry::from(&e);
    assert_eq!((s.space.as_str(), s.table.as_str(), s.record_id.as_str()), ("space", "table", "r"));
    assert_eq!(s.body, b"body");
    assert_eq!(s.commit_version, 6);
    assert_eq!(s.wal_seq, 6);
}

#[test]
fn the_log_range_covers_every_entry() {
    let mut mt = MemTable::new(0);
    for (rid, cv) in [("a", 7), ("b", 3), ("a", 9)] {
        mt.put_invisible(committed(rid, cv, b"x")).unwrap();
        for i in 0..mt.len() {
            let seq = mt.entry_at(i).wal_seq;
            assert!(mt.first_wal_seq() <= seq && seq <= mt.last_wal_seq());
        }
    }
    assert_eq!((mt.first_wal_seq(), mt.last_wal_seq()), (3, 9));
    let plan = plan_flush(&mt).unwrap().expect("committed entries are flushed");
    assert_eq!(plan.entries.len(), 2);
    // Without a log sequence in range there is nothing to flush.
    for seq in [0, u64::MAX] {
        let mut mt = MemTable::new(0);
        mt.put_invisible(MemEntry { wal_seq: seq, ..committed("a", 1, b"x") }).unwrap();
        assert!(plan_flush(&mt).unwrap().is_none());
    }
}
