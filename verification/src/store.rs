//! The local store.
//!
//! [`LocalStore`] holds the rows of all local tables: version index, version
//! chains, active snapshots, log, transaction states, write sets, staged
//! blobs, multipart uploads, record index and history, schema index and chunk
//! index, together with the counters of the store. Every operation is one
//! atomic step on these tables.

use crate::chunk::{ChunkIndexEntry, ChunkIndexEntryView};
use crate::table::{key_set, listing, lists, pair_views, under, Table};
use crate::txn_state::{
    BlobRecord, BlobRecordView, MultipartState, MultipartStateView, SchemaIndexEntry,
    SchemaIndexEntryView, StoredRecord, StoredRecordVersion, StoredRecordVersionView,
    StoredRecordView, TxnStateRecord, TxnStateRecordView, WriteSetEntry, WriteSetEntryView,
};
use crate::types::{ObjectKey, TxnStatus};
use crate::version_chain::{VersionChain, VersionChainView};
use crate::version_index::{VersionRecord, VersionRecordView};
use crate::wal::{WalRecord, WalRecordView};
use vstd::prelude::*;

verus! {

/// Key of a structured record: space, table, record id.
pub type RecordId = (Seq<char>, Seq<char>, Seq<char>);

/// Key of one version of a structured record.
pub type RecordVersionId = (Seq<char>, Seq<char>, Seq<char>, u64);

/// Mathematical view of the local store: one map per table, and the counters.
#[verifier::ext_equal]
pub ghost struct StoreView {
    pub global_version: u64,
    pub last_wal_seq: u64,
    pub last_flushed_seq: u64,
    pub versions: Map<Seq<char>, VersionRecordView>,
    pub chains: Map<Seq<char>, VersionChainView>,
    pub snapshots: Map<u64, u64>,
    pub wal: Map<u64, WalRecordView>,
    pub txns: Map<Seq<char>, TxnStateRecordView>,
    pub writes: Map<(Seq<char>, Seq<char>), WriteSetEntryView>,
    pub blobs: Map<Seq<char>, BlobRecordView>,
    pub multipart: Map<Seq<char>, MultipartStateView>,
    pub records: Map<RecordId, StoredRecordView>,
    pub record_versions: Map<RecordVersionId, StoredRecordVersionView>,
    pub schemas: Map<(Seq<char>, Seq<char>), SchemaIndexEntryView>,
    pub chunks: Map<Seq<char>, ChunkIndexEntryView>,
}

impl StoreView {
    /// A store without rows.
    pub open spec fn empty() -> StoreView {
        StoreView {
            global_version: 0,
            last_wal_seq: 0,
            last_flushed_seq: 0,
            versions: Map::empty(),
            chains: Map::empty(),
            snapshots: Map::empty(),
            wal: Map::empty(),
            txns: Map::empty(),
            writes: Map::empty(),
            blobs: Map::empty(),
            multipart: Map::empty(),
            records: Map::empty(),
            record_versions: Map::empty(),
            schemas: Map::empty(),
            chunks: Map::empty(),
        }
    }

    /// The log record `rec` is appended under the next sequence number.
    pub open spec fn log(self, rec: WalRecordView) -> StoreView {
        let seq = (self.last_wal_seq + 1) as u64;
        StoreView { last_wal_seq: seq, wal: self.wal.insert(seq, rec), ..self }
    }

    /// The state of a transaction is stored.
    pub open spec fn with_txn(self, txn_id: Seq<char>, rec: TxnStateRecordView) -> StoreView {
        StoreView { txns: self.txns.insert(txn_id, rec), ..self }
    }

    /// The status of a known transaction is changed.
    pub open spec fn with_status(self, txn_id: Seq<char>, status: TxnStatus) -> StoreView {
        self.with_txn(txn_id, TxnStateRecordView { status, ..self.txns[txn_id] })
    }

    /// Number of transactions that pin `snapshot`.
    pub open spec fn pins(self, snapshot: u64) -> u64 {
        if self.snapshots.contains_key(snapshot) {
            self.snapshots[snapshot]
        } else {
            0
        }
    }

    /// One more transaction pins `snapshot`.
    pub open spec fn pin(self, snapshot: u64) -> StoreView {
        StoreView {
            snapshots: self.snapshots.insert(snapshot, (self.pins(snapshot) + 1) as u64),
            ..self
        }
    }

    /// One transaction less pins `snapshot`; the last one removes the pin.
    pub open spec fn unpin(self, snapshot: u64) -> StoreView {
        if self.pins(snapshot) <= 1 {
            StoreView { snapshots: self.snapshots.remove(snapshot), ..self }
        } else {
            StoreView {
                snapshots: self.snapshots.insert(snapshot, (self.pins(snapshot) - 1) as u64),
                ..self
            }
        }
    }

    /// The staged writes of one transaction, by key.
    pub open spec fn write_set(self, txn_id: Seq<char>) -> Map<Seq<char>, WriteSetEntryView> {
        under(self.writes, txn_id)
    }
}

/// The local store. Its tables are open to readers that persist it.
pub struct LocalStore {
    pub global_version: u64,
    pub last_wal_seq: u64,
    pub last_flushed_seq: u64,
    pub versions: Table<String, VersionRecord>,
    pub chains: Table<String, VersionChain>,
    pub snapshots: Table<u64, u64>,
    pub wal: Table<u64, WalRecord>,
    pub txns: Table<String, TxnStateRecord>,
    pub writes: Table<(String, String), WriteSetEntry>,
    pub blobs: Table<String, BlobRecord>,
    pub multipart: Table<String, MultipartState>,
    pub records: Table<(String, String, String), StoredRecord>,
    pub record_versions: Table<(String, String, String, u64), StoredRecordVersion>,
    pub schemas: Table<(String, String), SchemaIndexEntry>,
    pub chunks: Table<String, ChunkIndexEntry>,
}

impl View for LocalStore {
    type V = StoreView;

    open spec fn view(&self) -> StoreView {
        StoreView {
            global_version: self.global_version,
            last_wal_seq: self.last_wal_seq,
            last_flushed_seq: self.last_flushed_seq,
            versions: self.versions@,
            chains: self.chains@,
            snapshots: self.snapshots@,
            wal: self.wal@,
            txns: self.txns@,
            writes: self.writes@,
            blobs: self.blobs@,
            multipart: self.multipart@,
            records: self.records@,
            record_versions: self.record_versions@,
            schemas: self.schemas@,
            chunks: self.chunks@,
        }
    }
}

impl Clone for LocalStore {
    fn clone(&self) -> (r: Self)
        ensures
            r@ == self@,
    {
        LocalStore {
            global_version: self.global_version,
            last_wal_seq: self.last_wal_seq,
            last_flushed_seq: self.last_flushed_seq,
            versions: self.versions.copy_table(),
            chains: self.chains.copy_table(),
            snapshots: self.snapshots.copy_table(),
            wal: self.wal.copy_table(),
            txns: self.txns.copy_table(),
            writes: self.writes.copy_table(),
            blobs: self.blobs.copy_table(),
            multipart: self.multipart.copy_table(),
            records: self.records.copy_table(),
            record_versions: self.record_versions.copy_table(),
            schemas: self.schemas.copy_table(),
            chunks: self.chunks.copy_table(),
        }
    }
}

/// The log records in sequence order.
pub open spec fn log_rows(s: StoreView) -> Seq<(u64, WalRecordView)> {
    listing::<u64, WalRecordView>(s.wal)
}

/// The pinned snapshots in ascending order, each with its number of pins.
pub open spec fn pin_rows(s: StoreView) -> Seq<(u64, u64)> {
    listing::<u64, u64>(s.snapshots)
}

/// `total`, or the largest machine number where it does not fit.
pub open spec fn clamped(total: nat) -> usize {
    if total <= usize::MAX {
        total as usize
    } else {
        usize::MAX
    }
}

/// Sum of the values of the first `n` rows.
pub open spec fn row_sum(rows: Seq<(u64, u64)>, n: nat) -> nat
    decreases n,
{
    if n == 0 {
        0
    } else {
        row_sum(rows, (n - 1) as nat) + rows[n - 1].1 as nat
    }
}

impl LocalStore {
    /// A store without rows.
    pub fn new() -> (r: Self)
        ensures
            r@ == StoreView::empty(),
    {
        LocalStore {
            global_version: 0,
            last_wal_seq: 0,
            last_flushed_seq: 0,
            versions: Table::new(),
            chains: Table::new(),
            snapshots: Table::new(),
            wal: Table::new(),
            txns: Table::new(),
            writes: Table::new(),
            blobs: Table::new(),
            multipart: Table::new(),
            records: Table::new(),
            record_versions: Table::new(),
            schemas: Table::new(),
            chunks: Table::new(),
        }
    }

    // ----- versions -----

    /// Allocates the next global version.
    pub fn next_global_version(&mut self) -> (r: u64)
        requires
            old(self)@.global_version < u64::MAX,
        ensures
            r == old(self)@.global_version + 1,
            final(self)@ == (StoreView { global_version: r, ..old(self)@ }),
    {
        self.global_version = self.global_version + 1;
        self.global_version
    }

    /// The current global version.
    pub fn current_global_version(&self) -> (r: u64)
        ensures
            r == self@.global_version,
    {
        self.global_version
    }

    /// The version record of an object.
    pub fn get_version(&self, key: &ObjectKey) -> (r: Option<VersionRecord>)
        ensures
            match r {
                Some(v) => self@.versions.contains_key(key@) && self@.versions[key@] == v@,
                None => !self@.versions.contains_key(key@),
            },
    {
        self.versions.fetch(&key.0)
    }

    /// Inserts or updates the version record of an object.
    pub fn put_version(&mut self, key: &ObjectKey, record: &VersionRecord)
        ensures
            final(self)@ == (StoreView {
                versions: old(self)@.versions.insert(key@, record@),
                ..old(self)@
            }),
    {
        self.versions.insert(key.0.clone(), record.clone());
    }

    /// Inserts or updates several version records.
    pub fn put_versions_bulk(&mut self, updates: &Vec<(ObjectKey, VersionRecord)>)
        ensures
            final(self)@ == (StoreView {
                versions: insert_all(
                    old(self)@.versions,
                    pair_views(updates@),
                    updates@.len(),
                ),
                ..old(self)@
            }),
    {
        let mut i: usize = 0;
        while i < updates.len()
            invariant
                i <= updates.len(),
                self@ == (StoreView {
                    versions: insert_all(old(self)@.versions, pair_views(updates@), i as nat),
                    ..old(self)@
                }),
            decreases updates.len() - i,
        {
            assert(pair_views(updates@)[i as int] == (updates@[i as int].0@, updates@[i as int].1@));
            self.put_version(&updates[i].0, &updates[i].1);
            i += 1;
        }
    }

    // ----- log -----

    /// Allocates the next log sequence number.
    pub fn next_wal_seq(&mut self) -> (r: u64)
        requires
            old(self)@.last_wal_seq < u64::MAX,
        ensures
            r == old(self)@.last_wal_seq + 1,
            final(self)@ == (StoreView { last_wal_seq: r, ..old(self)@ }),
    {
        self.last_wal_seq = self.last_wal_seq + 1;
        self.last_wal_seq
    }

    /// Appends a log record. Returns its sequence number.
    pub fn append_wal(&mut self, record: &WalRecord) -> (r: u64)
        requires
            old(self)@.last_wal_seq < u64::MAX,
        ensures
            r == old(self)@.last_wal_seq + 1,
            final(self)@ == old(self)@.log(record@),
    {
        let seq = self.next_wal_seq();
        self.wal.insert(seq, record.clone());
        seq
    }

    /// All log records, in sequence order.
    pub fn iter_wal(&self) -> (r: Vec<(u64, WalRecord)>)
        ensures
            lists::<u64, WalRecordView>(pair_views(r@), self@.wal),
    {
        self.wal.list()
    }

    /// Last log sequence number, 0 if there is none.
    pub fn last_wal_seq(&self) -> (r: u64)
        ensures
            r == self@.last_wal_seq,
    {
        self.last_wal_seq
    }

    /// Records that everything up to `seq` is in a chunk.
    pub fn set_flushed_seq(&mut self, seq: u64)
        ensures
            final(self)@ == (StoreView { last_flushed_seq: seq, ..old(self)@ }),
    {
        self.last_flushed_seq = seq;
    }

    /// Highest log sequence number known to be in a chunk.
    pub fn last_flushed_seq(&self) -> (r: u64)
        ensures
            r == self@.last_flushed_seq,
    {
        self.last_flushed_seq
    }

    /// Removes the log records with `seq <= up_to_seq`. Returns how many those
    /// were: the first `removed` ones in sequence order.
    pub fn truncate_wal(&mut self, up_to_seq: u64) -> (removed: usize)
        ensures
            final(self)@ == (StoreView {
                wal: old(self)@.wal.remove_keys(Set::new(|s: u64| s <= up_to_seq)),
                ..old(self)@
            }),
            removed <= log_rows(old(self)@).len(),
            forall|i: int|
                0 <= i < log_rows(old(self)@).len() ==> ((#[trigger] log_rows(old(self)@)[i]).0
                    <= up_to_seq <==> i < removed),
    {
        let ghost rows = self.wal.rows();
        let ghost m = self.wal@;
        let mut seqs: Vec<u64> = Vec::new();
        let n = self.wal.len();
        let mut i: usize = 0;
        while i < n && *self.wal.key_at(i) <= up_to_seq
            invariant
                i <= n,
                n == rows.len(),
                rows == self.wal.rows(),
                *self == *old(self),
                seqs@.len() == i,
                forall|j: int|
                    0 <= j < i ==> #[trigger] seqs@[j] == rows[j].0 && rows[j].0 <= up_to_seq,
            decreases n - i,
        {
            let seq: u64 = *self.wal.key_at(i);
            let ghost before = seqs@;
            seqs.push(seq);
            proof {
                assert(seq == rows[i as int].0);
                assert forall|j: int| 0 <= j < i + 1 implies #[trigger] seqs@[j] == rows[j].0
                    && rows[j].0 <= up_to_seq by {
                    if j < i {
                        assert(seqs@[j] == before[j]);
                    }
                }
            }
            i += 1;
        }
        let removed: usize = i;
        proof {
            assert forall|j: int| 0 <= j < rows.len() implies ((#[trigger] rows[j]).0 <= up_to_seq
                <==> j < removed) by {
                if j < removed {
                    assert(seqs@[j] == rows[j].0);
                } else if j > removed {
                    assert(rows[removed as int].0 < rows[j].0);
                }
            }
        }
        self.wal.remove_all(&seqs);
        proof {
            assert forall|x: u64| m.contains_key(x) implies (#[trigger] key_set(seqs@).contains(x)
                <==> x <= up_to_seq) by {
                let w = choose|w: int| 0 <= w < rows.len() && (#[trigger] rows[w]).0 == x;
                if x <= up_to_seq {
                    assert(seqs@[w] == x);
                }
                if key_set(seqs@).contains(x) {
                    let v = choose|v: int| 0 <= v < seqs@.len() && (#[trigger] seqs@[v])@ == x;
                    assert(seqs@[v] == rows[v].0);
                }
            }
            assert(self.wal@ =~= m.remove_keys(Set::new(|s: u64| s <= up_to_seq)));
        }
        removed
    }

    // ----- transaction states -----

    /// Stores the state of a transaction.
    pub fn put_txn_state(&mut self, txn_id: &str, rec: &TxnStateRecord)
        ensures
            final(self)@ == old(self)@.with_txn(txn_id@, rec@),
    {
        self.txns.insert(txn_id.to_owned(), rec.clone());
    }

    /// The state of a transaction.
    pub fn get_txn_state(&self, txn_id: &str) -> (r: Option<TxnStateRecord>)
        ensures
            match r {
                Some(t) => self@.txns.contains_key(txn_id@) && self@.txns[txn_id@] == t@,
                None => !self@.txns.contains_key(txn_id@),
            },
    {
        self.txns.fetch(&txn_id.to_owned())
    }

    /// Forgets a transaction.
    pub fn delete_txn_state(&mut self, txn_id: &str)
        ensures
            final(self)@ == (StoreView { txns: old(self)@.txns.remove(txn_id@), ..old(self)@ }),
    {
        self.txns.remove(&txn_id.to_owned());
    }

    /// Moves a transaction to `next_status` if it still has `expected_status`.
    /// Returns whether it did.
    pub fn compare_and_set_txn_status(
        &mut self,
        txn_id: &str,
        expected_status: TxnStatus,
        next_status: TxnStatus,
    ) -> (r: bool)
        ensures
            r == (old(self)@.txns.contains_key(txn_id@) && old(self)@.txns[txn_id@].status
                == expected_status),
            r ==> final(self)@ == old(self)@.with_status(txn_id@, next_status),
            !r ==> final(self)@ == old(self)@,
    {
        match self.get_txn_state(txn_id) {
            None => false,
            Some(rec) => {
                if rec.status != expected_status {
                    false
                } else {
                    let mut next = rec;
                    next.status = next_status;
                    self.put_txn_state(txn_id, &next);
                    true
                }
            },
        }
    }

    /// Forces a known transaction to `Committed`. The versions it published
    /// stay as they are.
    pub fn mark_committed(&mut self, txn_id: &str, commit_version: u64)
        ensures
            final(self)@ == if old(self)@.txns.contains_key(txn_id@) {
                old(self)@.with_status(txn_id@, TxnStatus::Committed)
            } else {
                old(self)@
            },
    {
        match self.get_txn_state(txn_id) {
            None => {},
            Some(rec) => {
                let mut next = rec;
                next.status = TxnStatus::Committed;
                self.put_txn_state(txn_id, &next);
            },
        }
    }

    // ----- write sets -----

    /// Stores a staged write.
    pub fn put_write_entry(&mut self, txn_id: &str, key: &str, entry: &WriteSetEntry)
        ensures
            final(self)@ == (StoreView {
                writes: old(self)@.writes.insert((txn_id@, key@), entry@),
                ..old(self)@
            }),
    {
        self.writes.insert((txn_id.to_owned(), key.to_owned()), entry.clone());
    }

    /// Drops a staged write.
    pub fn delete_write_entry(&mut self, txn_id: &str, key: &str)
        ensures
            final(self)@ == (StoreView {
                writes: old(self)@.writes.remove((txn_id@, key@)),
                ..old(self)@
            }),
    {
        self.writes.remove(&(txn_id.to_owned(), key.to_owned()));
    }

    /// The staged writes of a transaction, in key order.
    pub fn iter_write_set(&self, txn_id: &str) -> (r: Vec<(String, WriteSetEntry)>)
        ensures
            lists::<String, WriteSetEntryView>(pair_views(r@), self@.write_set(txn_id@)),
    {
        self.writes.list_under(&txn_id.to_owned())
    }

    /// All staged writes of all transactions, in key order.
    pub fn iter_all_write_sets(&self) -> (r: Vec<((String, String), WriteSetEntry)>)
        ensures
            lists::<(String, String), WriteSetEntryView>(pair_views(r@), self@.writes),
    {
        self.writes.list()
    }

    // ----- staged blobs -----

    /// Stores the metadata of a spill file.
    pub fn put_blob(&mut self, handle: &str, rec: &BlobRecord)
        ensures
            final(self)@ == (StoreView {
                blobs: old(self)@.blobs.insert(handle@, rec@),
                ..old(self)@
            }),
    {
        self.blobs.insert(handle.to_owned(), rec.clone());
    }

    /// The metadata of a spill file.
    pub fn get_blob(&self, handle: &str) -> (r: Option<BlobRecord>)
        ensures
            match r {
                Some(b) => self@.blobs.contains_key(handle@) && self@.blobs[handle@] == b@,
                None => !self@.blobs.contains_key(handle@),
            },
    {
        self.blobs.fetch(&handle.to_owned())
    }

    /// Forgets a spill file.
    pub fn delete_blob(&mut self, handle: &str)
        ensures
            final(self)@ == (StoreView { blobs: old(self)@.blobs.remove(handle@), ..old(self)@ }),
    {
        self.blobs.remove(&handle.to_owned());
    }

    // ----- multipart uploads -----

    /// Stores the state of a multipart upload.
    pub fn put_multipart(&mut self, upload_id: &str, rec: &MultipartState)
        ensures
            final(self)@ == (StoreView {
                multipart: old(self)@.multipart.insert(upload_id@, rec@),
                ..old(self)@
            }),
    {
        self.multipart.insert(upload_id.to_owned(), rec.clone());
    }

    /// The state of a multipart upload.
    pub fn get_multipart(&self, upload_id: &str) -> (r: Option<MultipartState>)
        ensures
            match r {
                Some(m) => self@.multipart.contains_key(upload_id@) && self@.multipart[upload_id@]
                    == m@,
                None => !self@.multipart.contains_key(upload_id@),
            },
    {
        self.multipart.fetch(&upload_id.to_owned())
    }

    /// Forgets a multipart upload.
    pub fn delete_multipart(&mut self, upload_id: &str)
        ensures
            final(self)@ == (StoreView {
                multipart: old(self)@.multipart.remove(upload_id@),
                ..old(self)@
            }),
    {
        self.multipart.remove(&upload_id.to_owned());
    }

    /// All multipart uploads, in order of their ids.
    pub fn iter_all_multipart(&self) -> (r: Vec<(String, MultipartState)>)
        ensures
            lists::<String, MultipartStateView>(pair_views(r@), self@.multipart),
    {
        self.multipart.list()
    }

    // ----- active snapshots -----

    /// Pins the current global version and returns it.
    pub fn capture_and_register_snapshot(&mut self) -> (r: u64)
        requires
            old(self)@.pins(old(self)@.global_version) < u64::MAX,
        ensures
            r == old(self)@.global_version,
            final(self)@ == old(self)@.pin(r),
    {
        let snapshot = self.global_version;
        self.register_snapshot(snapshot);
        snapshot
    }

    /// Number of transactions that pin `snapshot`.
    pub fn pin_count(&self, snapshot: u64) -> (r: u64)
        ensures
            r == self@.pins(snapshot),
    {
        match self.snapshots.get(&snapshot) {
            Some(n) => *n,
            None => 0,
        }
    }

    /// Pins `snapshot` once more.
    pub fn register_snapshot(&mut self, snapshot: u64)
        requires
            old(self)@.pins(snapshot) < u64::MAX,
        ensures
            final(self)@ == old(self)@.pin(snapshot),
    {
        let cur = self.pin_count(snapshot);
        self.snapshots.insert(snapshot, cur + 1);
    }

    /// Releases one pin of `snapshot`; the last one removes it.
    pub fn unregister_snapshot(&mut self, snapshot: u64)
        ensures
            final(self)@ == old(self)@.unpin(snapshot),
    {
        let cur = self.pin_count(snapshot);
        if cur <= 1 {
            self.snapshots.remove(&snapshot);
        } else {
            self.snapshots.insert(snapshot, cur - 1);
        }
    }

    /// The smallest active snapshot, `u64::MAX` if there is none.
    pub fn min_active_snapshot(&self) -> (r: u64)
        ensures
            r == min_snapshot(self@.snapshots),
            is_min_snapshot(self@.snapshots, r),
    {
        let r: u64 = if self.snapshots.len() == 0 {
            u64::MAX
        } else {
            *self.snapshots.key_at(0)
        };
        proof {
            let rows = self.snapshots.rows();
            assert forall|s: u64| #[trigger] self.snapshots@.contains_key(s) implies r <= s by {
                let w = choose|w: int| 0 <= w < rows.len() && (#[trigger] rows[w]).0 == s;
                if w > 0 {
                    assert(rows[0].0 < rows[w].0);
                }
            }
            if rows.len() > 0 {
                assert(self.snapshots@.contains_key(rows[0].0));
            }
            lemma_min_snapshot(self@.snapshots, r);
        }
        r
    }

    /// Sum of all pins, in ascending order of their snapshots.
    pub fn count_active_snapshots(&self) -> (r: usize)
        ensures
            r == clamped(row_sum(pin_rows(self@), pin_rows(self@).len())),
    {
        let n = self.snapshots.len();
        let mut total: usize = 0;
        let mut i: usize = 0;
        while i < n
            invariant
                i <= n,
                n == self.snapshots.rows().len(),
                total == clamped(row_sum(self.snapshots.rows(), i as nat)),
            decreases n - i,
        {
            let v = *self.snapshots.value_at(i);
            if v as u128 + total as u128 <= usize::MAX as u128 {
                total = total + v as usize;
            } else {
                total = usize::MAX;
            }
            i += 1;
        }
        total
    }

    // ----- schema index -----

    /// Stores the latest schema of a space and name.
    pub fn put_schema_index(&mut self, space: &str, name: &str, entry: &SchemaIndexEntry)
        ensures
            final(self)@ == (StoreView {
                schemas: old(self)@.schemas.insert((space@, name@), entry@),
                ..old(self)@
            }),
    {
        self.schemas.insert((space.to_owned(), name.to_owned()), entry.clone());
    }

    /// The latest schema of a space and name.
    pub fn get_schema_index(&self, space: &str, name: &str) -> (r: Option<SchemaIndexEntry>)
        ensures
            match r {
                Some(s) => self@.schemas.contains_key((space@, name@)) && self@.schemas[(
                    space@,
                    name@,
                )] == s@,
                None => !self@.schemas.contains_key((space@, name@)),
            },
    {
        self.schemas.fetch(&(space.to_owned(), name.to_owned()))
    }

    /// The latest schemas of a space, in order of their names.
    pub fn iter_schema_index(&self, space: &str) -> (r: Vec<(String, SchemaIndexEntry)>)
        ensures
            lists::<String, SchemaIndexEntryView>(pair_views(r@), under(self@.schemas, space@)),
    {
        self.schemas.list_under(&space.to_owned())
    }

    // ----- chunk index -----

    /// Stores the index row of a chunk.
    pub fn put_chunk_index(&mut self, chunk_id: &str, entry: &ChunkIndexEntry)
        ensures
            final(self)@ == (StoreView {
                chunks: old(self)@.chunks.insert(chunk_id@, entry@),
                ..old(self)@
            }),
    {
        self.chunks.insert(chunk_id.to_owned(), entry.clone());
    }

    /// The index row of a chunk.
    pub fn get_chunk_index(&self, chunk_id: &str) -> (r: Option<ChunkIndexEntry>)
        ensures
            match r {
                Some(c) => self@.chunks.contains_key(chunk_id@) && self@.chunks[chunk_id@] == c@,
                None => !self@.chunks.contains_key(chunk_id@),
            },
    {
        self.chunks.fetch(&chunk_id.to_owned())
    }

    /// Forgets a chunk.
    pub fn delete_chunk_index(&mut self, chunk_id: &str)
        ensures
            final(self)@ == (StoreView {
                chunks: old(self)@.chunks.remove(chunk_id@),
                ..old(self)@
            }),
    {
        self.chunks.remove(&chunk_id.to_owned());
    }

    /// All chunks, in order of their ids.
    pub fn iter_all_chunk_index(&self) -> (r: Vec<(String, ChunkIndexEntry)>)
        ensures
            lists::<String, ChunkIndexEntryView>(pair_views(r@), self@.chunks),
    {
        self.chunks.list()
    }

    /// Marks the known ones of `chunk_ids` as deleted.
    pub fn mark_chunks_deleted(&mut self, chunk_ids: &Vec<String>)
        ensures
            final(self)@ == (StoreView {
                chunks: chunks_marked_deleted(
                    old(self)@.chunks,
                    crate::text::texts(chunk_ids@),
                ),
                ..old(self)@
            }),
    {
        let ghost ids = crate::text::texts(chunk_ids@);
        let ghost before = self@.chunks;
        let mut i: usize = 0;
        proof {
            assert(self@.chunks =~= chunks_marked_deleted(before, ids.take(0)));
        }
        while i < chunk_ids.len()
            invariant
                i <= chunk_ids.len(),
                ids == crate::text::texts(chunk_ids@),
                before == old(self)@.chunks,
                self@ == (StoreView {
                    chunks: chunks_marked_deleted(before, ids.take(i as int)),
                    ..old(self)@
                }),
            decreases chunk_ids.len() - i,
        {
            let id = &chunk_ids[i];
            let ghost cur = self@.chunks;
            assert(ids[i as int] == id@);
            proof {
                assert forall|x: Seq<char>| ids.take(i + 1).contains(x) <==> (ids.take(
                    i as int,
                ).contains(x) || x == id@) by {
                    let s0 = ids.take(i as int);
                    let s1 = ids.take(i + 1);
                    if s0.contains(x) {
                        let w = choose|w: int| 0 <= w < s0.len() && s0[w] == x;
                        assert(s1[w] == x);
                    }
                    if s1.contains(x) {
                        let w = choose|w: int| 0 <= w < s1.len() && s1[w] == x;
                        if w < s0.len() {
                            assert(s0[w] == x);
                        }
                    }
                    if x == id@ {
                        assert(s1[i as int] == x);
                    }
                }
            }
            match self.chunks.fetch(id) {
                Some(rec) => {
                    let mut next = rec;
                    next.status = crate::cf::ChunkStatus::Deleted;
                    self.chunks.insert(id.clone(), next);
                },
                None => {},
            }
            assert(self@.chunks =~= chunks_marked_deleted(before, ids.take(i + 1)));
            i += 1;
        }
        assert(ids.take(i as int) =~= ids);
    }
}

/// The chunk index with the known ones of `ids` marked as deleted.
pub open spec fn chunks_marked_deleted(
    m: Map<Seq<char>, ChunkIndexEntryView>,
    ids: Seq<Seq<char>>,
) -> Map<Seq<char>, ChunkIndexEntryView> {
    Map::new(
        |k: Seq<char>| m.contains_key(k),
        |k: Seq<char>|
            if ids.contains(k) {
                ChunkIndexEntryView { status: crate::cf::ChunkStatus::Deleted, ..m[k] }
            } else {
                m[k]
            },
    )
}

/// The first `n` pairs inserted into `m`, in order.
pub open spec fn insert_all<K, V>(m: Map<K, V>, pairs: Seq<(K, V)>, n: nat) -> Map<K, V>
    decreases n,
{
    if n == 0 {
        m
    } else {
        insert_all(m, pairs, (n - 1) as nat).insert(pairs[n - 1].0, pairs[n - 1].1)
    }
}

/// `r` is the smallest pinned snapshot, or `u64::MAX` without pins.
pub open spec fn is_min_snapshot(snapshots: Map<u64, u64>, r: u64) -> bool {
    &&& forall|s: u64| #[trigger] snapshots.contains_key(s) ==> r <= s
    &&& snapshots.contains_key(r) || (r == u64::MAX && forall|s: u64|
        !#[trigger] snapshots.contains_key(s))
}

/// The smallest pinned snapshot, `u64::MAX` without pins.
pub open spec fn min_snapshot(snapshots: Map<u64, u64>) -> u64 {
    choose|r: u64| is_min_snapshot(snapshots, r)
}

/// There is one smallest snapshot.
pub proof fn lemma_min_snapshot(snapshots: Map<u64, u64>, r: u64)
    requires
        is_min_snapshot(snapshots, r),
    ensures
        min_snapshot(snapshots) == r,
{
    let m = min_snapshot(snapshots);
    assert(is_min_snapshot(snapshots, m));
    if snapshots.contains_key(r) {
        assert(m <= r);
    }
    if snapshots.contains_key(m) {
        assert(r <= m);
    }
}

} // verus!
