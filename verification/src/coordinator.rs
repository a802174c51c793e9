//! Transaction coordinator.
//!
//! Order of steps:
//! 1. `begin`: capture and pin the snapshot, store the state, register with
//!    the lock manager, log `Begin`.
//! 2. `stage`, per write: log `Stage`, store the write, register the write
//!    intent.
//! 3. `commit`: look for a dangerous structure, allocate one version for all
//!    keys, refuse if a key has a newer version than the snapshot, log
//!    `Committing`, append to the chains in one step, log `Committed`, publish
//!    to the memtable.
//! 4. On any failure the transaction is aborted; nothing of it is visible.
//!
//! Files are the caller's: it writes a spill file before it stages a large
//! body, reads spill files before it commits, and removes those that
//! [`TxnCoordinator::take_garbage`] names. Commit events wait in
//! [`TxnCoordinator::take_events`] for the caller's observers.

use crate::commit_steps::{
    active_txn, all_published, bodies_to_commit, body_to_commit, chain_has_own, commit_event,
    commit_updates, commit_versions, committed_entry, conflict_reason, first_conflict, max_alloc,
    memtable_entry, memtable_published, reported_version, shared_version, spill_handle, spill_index,
    spill_path, spilled_body, spilled_files, staged_body, write_rows, SPILL_NAME_BYTES,
    SPILL_THRESHOLD, CommitEventView, CommitWriteView, CoordView, Failure, SpillReadView,
};
use crate::cleanup::{drop_rows, drop_spills, lemma_rows_dropped, WriteRows};
use crate::error::TxnError;
use crate::memtable::{
    default_policy, FlushPolicy, MemEntry, MemTable, MemTableSet, MemTableSetView, MemTableView,
    RecordValue,
};
use crate::order::same_text;
use crate::outside::{fresh_ulid, hex_encode, hex_text, is_ulid_char, now_ms, sha256, sha256_digest};
use crate::record_key::key_in_memtable;
use crate::si_lock_manager::{LocksView, SiLockManager};
use crate::store::{LocalStore, StoreView};
use crate::store_chains::{chain_at, snapshot_conflict_message, update_views};
use crate::table::{lemma_listed, lemma_listing, pair_views};
use crate::text::{
    copy_bytes, copy_optional_text, copy_pairs, decimal_text, holds_text, join2, join3,
    optional_bytes, optional_text, sort_texts, text_pairs, texts,
};
use crate::txn_state::{text_versions, BlobRecord, TxnStateRecord, WriteSetEntry, WriteSetEntryView};
use crate::types::{ObjectKey, TxnStatus, Version, XtableError, XtableResult};
use crate::version_chain::VersionEntry;
use crate::version_index::VersionRecord;
use crate::wal::WalRecord;
use vstd::prelude::*;
use vstd::string::*;
use vstd::utf8::*;

verus! {

/// Outcome of a successful commit.
#[derive(Debug, Clone, Copy, PartialEq, Eq, Structural)]
pub struct CommitOutcome {
    pub commit_version: u64,
}

/// One write of a commit, as observers see it.
#[derive(Debug, Clone, PartialEq, Eq)]
pub struct CommitWrite {
    pub key: String,
    pub commit_version: u64,
    pub deleted: bool,
    pub size: u64,
}

impl View for CommitWrite {
    type V = CommitWriteView;

    open spec fn view(&self) -> CommitWriteView {
        CommitWriteView {
            key: self.key@,
            commit_version: self.commit_version,
            deleted: self.deleted,
            size: self.size,
        }
    }
}

/// Views of commit writes.
pub open spec fn commit_write_views(s: Seq<CommitWrite>) -> Seq<CommitWriteView> {
    s.map_values(|w: CommitWrite| w@)
}

/// A commit, as observers see it. `writes` lists every key that the
/// transaction appended to, in commit order.
#[derive(Debug, Clone, PartialEq, Eq)]
pub struct CommitEvent {
    pub txn_id: String,
    pub commit_version: u64,
    pub writes: Vec<CommitWrite>,
}

impl View for CommitEvent {
    type V = CommitEventView;

    open spec fn view(&self) -> CommitEventView {
        CommitEventView {
            txn_id: self.txn_id@,
            commit_version: self.commit_version,
            writes: commit_write_views(self.writes@),
        }
    }
}

/// Views of commit events.
pub open spec fn event_views(s: Seq<CommitEvent>) -> Seq<CommitEventView> {
    s.map_values(|e: CommitEvent| e@)
}

/// What the read of a spill file gave: its bytes, or the text of the error.
#[derive(Debug)]
pub struct SpillRead {
    pub handle: String,
    pub content: Result<Vec<u8>, String>,
}

impl View for SpillRead {
    type V = SpillReadView;

    open spec fn view(&self) -> SpillReadView {
        SpillReadView {
            handle: self.handle@,
            content: match self.content {
                Ok(b) => Ok(b@),
                Err(t) => Err(t@),
            },
        }
    }
}

/// Views of spill reads.
pub open spec fn spill_read_views(s: Seq<SpillRead>) -> Seq<SpillReadView> {
    s.map_values(|r: SpillRead| r@)
}

/// Views of byte strings.
pub open spec fn body_views(s: Seq<Vec<u8>>) -> Seq<Seq<u8>> {
    s.map_values(|b: Vec<u8>| b@)
}

/// An error with its text in place of it.
pub open spec fn failure<T>(r: XtableResult<T>) -> Result<T, Failure> {
    match r {
        Ok(v) => Ok(v),
        Err(e) => Err(e@),
    }
}

/// Lower-case hexadecimal SHA-256 of `bytes`.
pub fn sha256_hex(bytes: &[u8]) -> (r: String)
    ensures
        r@ == hex_text(sha256(bytes@)),
{
    let digest = sha256_digest(bytes);
    hex_encode(digest.as_slice())
}

/// Hexadecimal name that stands for a key: the first bytes of its digest.
pub fn uuid_like(s: &str) -> (r: String)
    ensures
        r@ == hex_text(sha256(encode_utf8(s@)).take(SPILL_NAME_BYTES as int)),
{
    let digest = sha256_digest(s.as_bytes());
    let head = vstd::slice::slice_subrange(digest.as_slice(), 0, SPILL_NAME_BYTES);
    assert(head@ =~= digest@.take(SPILL_NAME_BYTES as int));
    hex_encode(head)
}

/// Name of the spill file of a write.
fn handle_of(txn_id: &str, key: &str) -> (r: String)
    ensures
        r@ == spill_handle(txn_id@, key@),
{
    let name = uuid_like(key);
    join3(txn_id, "-", name.as_str())
}

/// Path of a spill file.
fn path_in(dir: &str, handle: &str) -> (r: String)
    ensures
        r@ == spill_path(dir@, handle@),
{
    let n = dir.unicode_len();
    if n == 0 || dir.get_char(n - 1) == '/' {
        join2(dir, handle)
    } else {
        join3(dir, "/", handle)
    }
}

/// The first read of `handle`.
fn find_spill(reads: &Vec<SpillRead>, handle: &str) -> (r: Option<usize>)
    ensures
        match r {
            Some(i) => i < reads@.len() && spill_index(spill_read_views(reads@), handle@, 0)
                == Some(i as int),
            None => spill_index(spill_read_views(reads@), handle@, 0) is None,
        },
{
    let ghost views = spill_read_views(reads@);
    let mut i: usize = 0;
    while i < reads.len()
        invariant
            i <= reads.len(),
            views == spill_read_views(reads@),
            spill_index(views, handle@, 0) == spill_index(views, handle@, i as int),
        decreases reads.len() - i,
    {
        assert(views[i as int] == reads@[i as int]@);
        if same_text(reads[i].handle.as_str(), handle) {
            return Some(i);
        }
        i += 1;
    }
    None
}

/// Largest allocated version, or the snapshot if none was allocated.
pub fn version_to_report(txn: &TxnStateRecord) -> (r: u64)
    ensures
        r == reported_version(txn@),
{
    let ghost alloc = txn@.alloc_versions;
    if txn.alloc_versions.len() == 0 {
        return txn.snapshot_version;
    }
    let mut max: u64 = 0;
    let mut i: usize = 0;
    while i < txn.alloc_versions.len()
        invariant
            i <= txn.alloc_versions.len(),
            alloc == text_versions(txn.alloc_versions@),
            max == max_alloc(alloc, i as nat),
        decreases txn.alloc_versions.len() - i,
    {
        assert(alloc[i as int].1 == txn.alloc_versions@[i as int].1);
        if txn.alloc_versions[i].1 > max {
            max = txn.alloc_versions[i].1;
        }
        i += 1;
    }
    max
}

/// Position of `key` among the rows of a write set.
fn find_row(rows: &Vec<(String, WriteSetEntry)>, key: &str, ws: Ghost<
    Map<Seq<char>, WriteSetEntryView>,
>) -> (r: Option<usize>)
    requires
        crate::table::lists::<String, WriteSetEntryView>(pair_views(rows@), ws@),
    ensures
        match r {
            Some(i) => i < rows@.len() && ws@.contains_key(key@) && rows@[i as int].1@
                == ws@[key@],
            None => !ws@.contains_key(key@),
        },
{
    let ghost views = pair_views(rows@);
    let mut i: usize = 0;
    while i < rows.len()
        invariant
            i <= rows.len(),
            views == pair_views(rows@),
            crate::table::lists::<String, WriteSetEntryView>(views, ws@),
            forall|j: int| 0 <= j < i ==> (#[trigger] views[j]).0 != key@,
        decreases rows.len() - i,
    {
        assert(views[i as int] == (rows@[i as int].0@, rows@[i as int].1@));
        if same_text(rows[i].0.as_str(), key) {
            proof {
                lemma_listed::<String, WriteSetEntryView>(views, i as int);
            }
            return Some(i);
        }
        i += 1;
    }
    None
}

/// Whether a chain holds the transaction's own entry at `version`.
pub fn chain_holds_own(store: &LocalStore, key: &str, txn_id: &str, version: u64) -> (r: bool)
    ensures
        r == chain_has_own(chain_at(store@.chains, key@).entries, txn_id@, version),
{
    let chain = store.read_chain(key);
    let ghost entries = chain@.entries;
    let mut j: usize = 0;
    while j < chain.entries.len()
        invariant
            j <= chain.entries.len(),
            entries == chain@.entries,
            chain@ == chain_at(store@.chains, key@),
            forall|k: int|
                0 <= k < j ==> !((#[trigger] entries[k]).txn_id == txn_id@
                    && entries[k].commit_version == version),
        decreases chain.entries.len() - j,
    {
        assert(entries[j as int] == chain.entries@[j as int]@);
        if chain.entries[j].commit_version == version && same_text(
            chain.entries[j].txn_id.as_str(),
            txn_id,
        ) {
            return true;
        }
        j += 1;
    }
    false
}

/// Transaction coordinator.
pub struct TxnCoordinator {
    pub store: LocalStore,
    /// Read and write locks of the transactions, and the edges between them.
    pub lock_manager: SiLockManager,
    /// Where commits publish; a flush writes it to chunks later.
    pub memtable_set: MemTableSet,
    /// Directory of spill files.
    pub spill_dir: String,
    /// Commits that observers have not been told of, oldest first.
    pub events: Vec<CommitEvent>,
    /// Paths of spill files that are no longer needed.
    pub garbage: Vec<String>,
}

impl View for TxnCoordinator {
    type V = CoordView;

    open spec fn view(&self) -> CoordView {
        CoordView {
            store: self.store@,
            locks: self.lock_manager@,
            mem: self.memtable_set@,
            spill_dir: self.spill_dir@,
            events: event_views(self.events@),
            garbage: texts(self.garbage@),
        }
    }
}

impl TxnCoordinator {
    /// The memtables are well formed.
    pub open spec fn wf(&self) -> bool {
        self.memtable_set.wf()
    }

    /// A coordinator of the store, without locks and with an empty memtable.
    pub fn new(store: LocalStore, spill_dir: String) -> (r: Self)
        ensures
            r.wf(),
            r@ == (CoordView {
                store: store@,
                locks: LocksView::empty(),
                mem: MemTableSetView {
                    active: MemTableView::empty(0),
                    flushing: Seq::empty(),
                    policy: default_policy(),
                    max_immutables: 4,
                },
                spill_dir: spill_dir@,
                events: Seq::empty(),
                garbage: Seq::empty(),
            }),
    {
        Self::with_lock_and_memtable(
            store,
            spill_dir,
            SiLockManager::new(),
            MemTableSet::new(MemTable::new(0), FlushPolicy::default()),
        )
    }

    /// A coordinator of the given parts.
    pub fn with_lock_and_memtable(
        store: LocalStore,
        spill_dir: String,
        lock_manager: SiLockManager,
        memtable_set: MemTableSet,
    ) -> (r: Self)
        requires
            memtable_set.wf(),
        ensures
            r.wf(),
            r@ == (CoordView {
                store: store@,
                locks: lock_manager@,
                mem: memtable_set@,
                spill_dir: spill_dir@,
                events: Seq::empty(),
                garbage: Seq::empty(),
            }),
    {
        let r = TxnCoordinator {
            store,
            lock_manager,
            memtable_set,
            spill_dir,
            events: Vec::new(),
            garbage: Vec::new(),
        };
        assert(r@.events =~= Seq::empty());
        assert(r@.garbage =~= Seq::empty());
        r
    }

    /// The lock manager.
    pub fn lock_manager(&self) -> (r: &SiLockManager)
        ensures
            r@ == self@.locks,
    {
        &self.lock_manager
    }

    /// The memtables.
    pub fn memtable_set(&self) -> (r: &MemTableSet)
        ensures
            r@ == self@.mem,
    {
        &self.memtable_set
    }

    /// The store.
    pub fn store(&self) -> (r: &LocalStore)
        ensures
            r@ == self@.store,
    {
        &self.store
    }

    /// Takes the events that observers have not seen, oldest first.
    pub fn take_events(&mut self) -> (r: Vec<CommitEvent>)
        requires
            old(self).wf(),
        ensures
            final(self).wf(),
            event_views(r@) == old(self)@.events,
            final(self)@ == (CoordView { events: Seq::empty(), ..old(self)@ }),
    {
        let mut taken: Vec<CommitEvent> = Vec::new();
        std::mem::swap(&mut taken, &mut self.events);
        assert(self@.events =~= Seq::empty());
        taken
    }

    /// Takes the paths of spill files that are no longer needed.
    pub fn take_garbage(&mut self) -> (r: Vec<String>)
        requires
            old(self).wf(),
        ensures
            final(self).wf(),
            texts(r@) == old(self)@.garbage,
            final(self)@ == (CoordView { garbage: Seq::empty(), ..old(self)@ }),
    {
        let mut taken: Vec<String> = Vec::new();
        std::mem::swap(&mut taken, &mut self.garbage);
        assert(self@.garbage =~= Seq::empty());
        taken
    }

    /// Snapshot of a transaction.
    pub fn transaction_snapshot(&self, txn_id: &str) -> (r: XtableResult<u64>)
        ensures
            if self@.store.txns.contains_key(txn_id@) {
                r matches Ok(v) && v == self@.store.txns[txn_id@].snapshot_version
            } else {
                r matches Err(e) && e@ == crate::commit_steps::unknown_txn(txn_id@)
            },
    {
        match self.store.get_txn_state(txn_id) {
            Some(t) => Ok(t.snapshot_version),
            None => Err(XtableError::from(TxnError::UnknownTxn(txn_id.to_owned()))),
        }
    }

    /// A fresh transaction id: 26 characters of Crockford's base 32. Time and
    /// chance decide which ones.
    pub fn next_txn_id() -> (r: String)
        ensures
            r@.len() == 26,
            forall|i: int| 0 <= i < r@.len() ==> is_ulid_char(#[trigger] r@[i]),
    {
        fresh_ulid()
    }

    /// The state of a transaction, which must be active.
    fn require_active(&self, txn_id: &str) -> (r: XtableResult<TxnStateRecord>)
        ensures
            match active_txn(self@.store, txn_id@) {
                Ok(t) => r matches Ok(x) && x@ == t,
                Err(e) => r matches Err(x) && x@ == e,
            },
    {
        match self.store.get_txn_state(txn_id) {
            Some(t) => {
                if t.status == TxnStatus::Active {
                    Ok(t)
                } else {
                    Err(
                        XtableError::from(
                            TxnError::InvalidState(join2("txn not active: ", t.status.name())),
                        ),
                    )
                }
            },
            None => Err(XtableError::from(TxnError::UnknownTxn(txn_id.to_owned()))),
        }
    }

    /// Begins a transaction with the given id at the given time.
    pub fn begin_at(
        &mut self,
        txn_id: &str,
        idempotency_key: Option<String>,
        now_ms: i64,
    ) -> (r: XtableResult<()>)
        requires
            old(self).wf(),
            old(self)@.store.pins(old(self)@.store.global_version) < u64::MAX,
            old(self)@.store.last_wal_seq < u64::MAX,
        ensures
            final(self).wf(),
            (final(self)@, failure(r)) == old(self)@.begun(
                txn_id@,
                optional_text(idempotency_key),
                now_ms,
            ),
    {
        let snapshot_version = self.store.capture_and_register_snapshot();
        let rec = TxnStateRecord::new_active(
            snapshot_version,
            copy_optional_text(&idempotency_key),
            now_ms,
        );
        self.store.put_txn_state(txn_id, &rec);
        match self.lock_manager.begin_txn(txn_id, snapshot_version) {
            Err(err) => {
                self.store.unregister_snapshot(snapshot_version);
                self.store.delete_txn_state(txn_id);
                Err(err)
            },
            Ok(_) => {
                self.store.append_wal(
                    &WalRecord::Begin {
                        txn_id: txn_id.to_owned(),
                        snapshot_version,
                        idempotency_key,
                    },
                );
                Ok(())
            },
        }
    }

    /// Begins a transaction. Returns its id.
    pub fn begin(&mut self, idempotency_key: Option<String>) -> (r: XtableResult<String>)
        requires
            old(self).wf(),
            old(self)@.store.pins(old(self)@.store.global_version) < u64::MAX,
            old(self)@.store.last_wal_seq < u64::MAX,
        ensures
            final(self).wf(),
            exists|txn: Seq<char>, now: i64|
                {
                    let (c, x) = #[trigger] old(self)@.begun(
                        txn,
                        optional_text(idempotency_key),
                        now,
                    );
                    &&& txn.len() == 26
                    &&& final(self)@ == c
                    &&& match x {
                        Ok(_) => r matches Ok(id) && id@ == txn,
                        Err(e) => r matches Err(f) && f@ == e,
                    }
                },
    {
        let txn_id = Self::next_txn_id();
        let now = now_ms();
        let ghost before = self@;
        let ghost idem = optional_text(idempotency_key);
        let r = self.begin_at(txn_id.as_str(), idempotency_key, now);
        assert(before.begun(txn_id@, idem, now) == (self@, failure(r)));
        match r {
            Ok(_) => Ok(txn_id),
            Err(e) => Err(e),
        }
    }
}

impl TxnCoordinator {
    /// Path of the spill file that must hold a body of the given length before
    /// the write is staged, or `None` if the body stays in the store.
    pub fn spill_target(&self, txn_id: &str, key: &ObjectKey, body_len: usize) -> (r: XtableResult<
        Option<String>,
    >)
        ensures
            match active_txn(self@.store, txn_id@) {
                Err(e) => r matches Err(x) && x@ == e,
                Ok(_) => r matches Ok(p) && optional_text(p) == if body_len > SPILL_THRESHOLD {
                    Some(spill_path(self@.spill_dir, spill_handle(txn_id@, key@)))
                } else {
                    None
                },
            },
    {
        match self.require_active(txn_id) {
            Err(e) => Err(e),
            Ok(_) => {
                if body_len > SPILL_THRESHOLD {
                    let handle = handle_of(txn_id, key.as_str());
                    Ok(Some(path_in(self.spill_dir.as_str(), handle.as_str())))
                } else {
                    Ok(None)
                }
            },
        }
    }

    /// Stages a write at the given time. A body above [`SPILL_THRESHOLD`] is
    /// in its spill file already.
    pub fn stage_at(
        &mut self,
        txn_id: &str,
        key: &ObjectKey,
        body: Vec<u8>,
        content_type: Option<String>,
        user_meta: Vec<(String, String)>,
        deleted: bool,
        now_ms: i64,
    ) -> (r: XtableResult<()>)
        requires
            old(self).wf(),
            old(self)@.store.last_wal_seq < u64::MAX,
        ensures
            final(self).wf(),
            match active_txn(old(self)@.store, txn_id@) {
                Err(e) => (r matches Err(x) && x@ == e) && final(self)@ == old(self)@,
                Ok(_) => r is Ok && final(self)@ == old(self)@.staged(
                    txn_id@,
                    body@,
                    old(self)@.staged_entry(
                        txn_id@,
                        key@,
                        body@,
                        optional_text(content_type),
                        text_pairs(user_meta@),
                        deleted,
                    ),
                    now_ms,
                ),
            },
    {
        let mut txn = match self.require_active(txn_id) {
            Ok(t) => t,
            Err(e) => return Err(e),
        };
        let ghost start = self@;
        let size = body.len() as u64;
        let body_handle: Option<String> = if body.len() > SPILL_THRESHOLD {
            let handle = handle_of(txn_id, key.as_str());
            let rec = BlobRecord {
                path: path_in(self.spill_dir.as_str(), handle.as_str()),
                size,
                sha256: sha256_hex(body.as_slice()),
                created_at_ms: now_ms,
            };
            self.store.put_blob(handle.as_str(), &rec);
            Some(handle)
        } else {
            None
        };
        self.store.append_wal(
            &WalRecord::Stage {
                txn_id: txn_id.to_owned(),
                key: key.as_str().to_owned(),
                body_handle: copy_optional_text(&body_handle),
            },
        );
        let inline_body: Option<Vec<u8>> = if body_handle.is_none() {
            Some(body)
        } else {
            None
        };
        let entry = WriteSetEntry {
            backend_key: key.as_str().to_owned(),
            body_handle,
            inline_body,
            size,
            content_type,
            user_meta,
            version_at_read: txn.snapshot_version,
            deleted,
        };
        self.store.put_write_entry(txn_id, key.as_str(), &entry);
        if !holds_text(&txn.write_keys, key.as_str()) {
            let ghost keys = texts(txn.write_keys@);
            txn.write_keys.push(key.as_str().to_owned());
            assert(texts(txn.write_keys@) =~= keys.push(key@));
            self.store.put_txn_state(txn_id, &txn);
        }
        let next_version = txn.snapshot_version.saturating_add(1);
        self.lock_manager.register_write(txn_id, key.as_str(), next_version);
        Ok(())
    }

    /// Stages a write. A body above [`SPILL_THRESHOLD`] is in its spill file
    /// already.
    pub fn stage(
        &mut self,
        txn_id: &str,
        key: &ObjectKey,
        body: Vec<u8>,
        content_type: Option<String>,
        user_meta: Vec<(String, String)>,
        deleted: bool,
    ) -> (r: XtableResult<()>)
        requires
            old(self).wf(),
            old(self)@.store.last_wal_seq < u64::MAX,
        ensures
            final(self).wf(),
            match active_txn(old(self)@.store, txn_id@) {
                Err(e) => (r matches Err(x) && x@ == e) && final(self)@ == old(self)@,
                Ok(_) => r is Ok && exists|now: i64|
                    final(self)@ == #[trigger] old(self)@.staged(
                        txn_id@,
                        body@,
                        old(self)@.staged_entry(
                            txn_id@,
                            key@,
                            body@,
                            optional_text(content_type),
                            text_pairs(user_meta@),
                            deleted,
                        ),
                        now,
                    ),
            },
    {
        let now = now_ms();
        self.stage_at(txn_id, key, body, content_type, user_meta, deleted, now)
    }

    /// Notes a read of a transaction, for the lock manager and for
    /// inspection.
    pub fn read(
        &mut self,
        txn_id: &str,
        key: &ObjectKey,
        observed_version: Version,
        observed_etag: String,
    ) -> (r: XtableResult<()>)
        requires
            old(self).wf(),
        ensures
            final(self).wf(),
            match active_txn(old(self)@.store, txn_id@) {
                Err(e) => (r matches Err(x) && x@ == e) && final(self)@ == old(self)@,
                Ok(_) => r is Ok && final(self)@ == old(self)@.noted_read(
                    txn_id@,
                    key@,
                    observed_version.0,
                    observed_etag@,
                ),
            },
    {
        let mut txn = match self.require_active(txn_id) {
            Ok(t) => t,
            Err(e) => return Err(e),
        };
        self.lock_manager.register_read(
            txn_id,
            key.as_str(),
            observed_version.as_u64(),
            observed_etag,
        );
        if !holds_text(&txn.read_keys, key.as_str()) {
            let ghost keys = texts(txn.read_keys@);
            txn.read_keys.push(key.as_str().to_owned());
            assert(texts(txn.read_keys@) =~= keys.push(key@));
            self.store.put_txn_state(txn_id, &txn);
        }
        Ok(())
    }

    /// Status of a transaction.
    pub fn status(&self, txn_id: &str) -> (r: XtableResult<TxnStatus>)
        ensures
            if self@.store.txns.contains_key(txn_id@) {
                r matches Ok(s) && s == self@.store.txns[txn_id@].status
            } else {
                r matches Err(e) && e@ == crate::commit_steps::unknown_txn(txn_id@)
            },
    {
        match self.store.get_txn_state(txn_id) {
            Some(t) => Ok(t.status),
            None => Err(XtableError::from(TxnError::UnknownTxn(txn_id.to_owned()))),
        }
    }

    /// Notes at the given time that the transaction is alive.
    pub fn heartbeat_at(&mut self, txn_id: &str, now_ms: i64) -> (r: XtableResult<()>)
        requires
            old(self).wf(),
        ensures
            final(self).wf(),
            match active_txn(old(self)@.store, txn_id@) {
                Err(e) => (r matches Err(x) && x@ == e) && final(self)@ == old(self)@,
                Ok(_) => r is Ok && final(self)@ == old(self)@.alive(txn_id@, now_ms),
            },
    {
        let mut txn = match self.require_active(txn_id) {
            Ok(t) => t,
            Err(e) => return Err(e),
        };
        txn.last_heartbeat_ms = now_ms;
        self.store.put_txn_state(txn_id, &txn);
        Ok(())
    }

    /// Notes that the transaction is alive.
    pub fn heartbeat(&mut self, txn_id: &str) -> (r: XtableResult<()>)
        requires
            old(self).wf(),
        ensures
            final(self).wf(),
            match active_txn(old(self)@.store, txn_id@) {
                Err(e) => (r matches Err(x) && x@ == e) && final(self)@ == old(self)@,
                Ok(_) => r is Ok && exists|now: i64|
                    final(self)@ == #[trigger] old(self)@.alive(txn_id@, now),
            },
    {
        let now = now_ms();
        self.heartbeat_at(txn_id, now)
    }

    /// Handles and paths of the spill files that a commit of the transaction
    /// reads, in key order.
    pub fn spill_files(&self, txn_id: &str) -> (r: Vec<(String, String)>)
        ensures
            text_pairs(r@) == spilled_files(
                self@.store,
                write_rows(self@.store, txn_id@),
                write_rows(self@.store, txn_id@).len(),
            ),
    {
        let rows = self.store.iter_write_set(txn_id);
        let ghost views = pair_views(rows@);
        proof {
            lemma_listing::<String, WriteSetEntryView>(views, self@.store.write_set(txn_id@));
        }
        let mut out: Vec<(String, String)> = Vec::new();
        let mut i: usize = 0;
        assert(text_pairs(out@) =~= Seq::empty());
        while i < rows.len()
            invariant
                i <= rows.len(),
                views == pair_views(rows@),
                text_pairs(out@) == spilled_files(self@.store, views, i as nat),
            decreases rows.len() - i,
        {
            assert(views[i as int] == (rows@[i as int].0@, rows@[i as int].1@));
            if rows[i].1.inline_body.is_none() {
                if let Some(handle) = &rows[i].1.body_handle {
                    if let Some(rec) = self.store.get_blob(handle.as_str()) {
                        let ghost before = text_pairs(out@);
                        let file = (handle.clone(), rec.path);
                        out.push(file);
                        assert(text_pairs(out@) =~= before.push((file.0@, file.1@)));
                    }
                }
            }
            i += 1;
        }
        out
    }

    /// Body of a staged write. Spilled bodies come from `reads`.
    pub fn stage_body(&self, txn_id: &str, key: &str, reads: &Vec<SpillRead>) -> (r: XtableResult<
        Option<Vec<u8>>,
    >)
        ensures
            match staged_body(
                self@.store,
                spill_read_views(reads@),
                self@.store.write_set(txn_id@),
                key@,
            ) {
                Ok(b) => r matches Ok(x) && optional_bytes(x) == b,
                Err(e) => r matches Err(x) && x@ == e,
            },
    {
        let rows = self.store.iter_write_set(txn_id);
        let ghost ws = self@.store.write_set(txn_id@);
        match find_row(&rows, key, Ghost(ws)) {
            None => Ok(None),
            Some(i) => {
                if let Some(inline) = &rows[i].1.inline_body {
                    return Ok(Some(copy_bytes(inline.as_slice())));
                }
                match &rows[i].1.body_handle {
                    None => Ok(None),
                    Some(handle) => match self.read_spilled(reads, handle.as_str(), "blob missing: ") {
                        Ok(b) => Ok(Some(b)),
                        Err(e) => Err(e),
                    },
                }
            },
        }
    }

    /// Bytes of a spilled body.
    fn read_spilled(&self, reads: &Vec<SpillRead>, handle: &str, missing: &str) -> (r: XtableResult<
        Vec<u8>,
    >)
        ensures
            match spilled_body(self@.store, spill_read_views(reads@), handle@, missing@) {
                Ok(b) => r matches Ok(x) && x@ == b,
                Err(e) => r matches Err(x) && x@ == e,
            },
    {
        if self.store.get_blob(handle).is_none() {
            return Err(XtableError::storage(join2(missing, handle)));
        }
        match find_spill(reads, handle) {
            None => Err(XtableError::storage(join2(missing, handle))),
            Some(i) => {
                assert(spill_read_views(reads@)[i as int] == reads@[i as int]@);
                match &reads[i].content {
                    Ok(b) => Ok(copy_bytes(b.as_slice())),
                    Err(t) => Err(XtableError::storage(t.clone())),
                }
            },
        }
    }
}

impl TxnCoordinator {
    /// Bytes that the rows commit, or the error of the first row without.
    fn collect_bodies(&self, rows: &Vec<(String, WriteSetEntry)>, reads: &Vec<SpillRead>) -> (r:
        XtableResult<Vec<Vec<u8>>>)
        ensures
            match bodies_to_commit(
                self@.store,
                spill_read_views(reads@),
                pair_views(rows@),
                rows@.len(),
            ) {
                Ok(b) => r matches Ok(x) && body_views(x@) == b,
                Err(e) => r matches Err(x) && x@ == e,
            },
    {
        let ghost views = pair_views(rows@);
        let ghost rv = spill_read_views(reads@);
        let mut out: Vec<Vec<u8>> = Vec::new();
        let mut i: usize = 0;
        assert(body_views(out@) =~= Seq::empty());
        while i < rows.len()
            invariant
                i <= rows.len(),
                views == pair_views(rows@),
                rv == spill_read_views(reads@),
                bodies_to_commit(self@.store, rv, views, i as nat) == Ok::<Seq<Seq<u8>>, Failure>(
                    body_views(out@),
                ),
            decreases rows.len() - i,
        {
            assert(views[i as int] == (rows@[i as int].0@, rows@[i as int].1@));
            let body: Vec<u8> = match &rows[i].1.inline_body {
                Some(b) => copy_bytes(b.as_slice()),
                None => match &rows[i].1.body_handle {
                    None => Vec::new(),
                    Some(handle) => match self.read_spilled(
                        reads,
                        handle.as_str(),
                        "staged blob missing: ",
                    ) {
                        Ok(b) => b,
                        Err(e) => {
                            proof {
                                lemma_body_failure(self@.store, rv, views, i as nat, views.len());
                            }
                            return Err(e);
                        },
                    },
                },
            };
            let ghost before = body_views(out@);
            assert(body_to_commit(self@.store, rv, views[i as int].1) == Ok::<Seq<u8>, Failure>(
                body@,
            ));
            out.push(body);
            assert(body_views(out@) =~= before.push(body@));
            i += 1;
        }
        Ok(out)
    }

    /// Aborts a transaction for `reason` and releases its locks and snapshot.
    fn give_up(&mut self, txn_id: &str, reason: String)
        requires
            old(self).wf(),
            old(self)@.store.txns.contains_key(txn_id@),
            old(self)@.store.last_wal_seq < u64::MAX,
        ensures
            final(self).wf(),
            final(self)@ == old(self)@.gave_up(txn_id@, reason@),
    {
        let ghost start = self@;
        self.store.append_wal(&WalRecord::Aborted { txn_id: txn_id.to_owned(), reason });
        if let Some(t) = self.store.get_txn_state(txn_id) {
            let mut txn = t;
            txn.status = TxnStatus::Aborted;
            self.store.put_txn_state(txn_id, &txn);
            self.lock_manager.mark_aborted(txn_id);
            self.store.unregister_snapshot(txn.snapshot_version);
        }
    }

    /// First of the keys whose chain is newer than the snapshot, with the
    /// newest version of that chain.
    fn find_conflict(&self, keys: &Vec<String>, snapshot: u64) -> (r: Option<(usize, u64)>)
        ensures
            match r {
                Some((i, latest)) => first_conflict(
                    self@.store.chains,
                    texts(keys@),
                    snapshot,
                    0,
                ) == Some(i as int) && i < keys@.len() && latest
                    == crate::version_chain::latest_version(
                    chain_at(self@.store.chains, keys@[i as int]@).entries,
                ),
                None => first_conflict(self@.store.chains, texts(keys@), snapshot, 0) is None,
            },
    {
        let ghost kv = texts(keys@);
        let mut i: usize = 0;
        while i < keys.len()
            invariant
                i <= keys.len(),
                kv == texts(keys@),
                first_conflict(self@.store.chains, kv, snapshot, 0) == first_conflict(
                    self@.store.chains,
                    kv,
                    snapshot,
                    i as int,
                ),
            decreases keys.len() - i,
        {
            assert(kv[i as int] == keys@[i as int]@);
            let chain = self.store.read_chain(keys[i].as_str());
            let latest = chain.latest_commit_version();
            if chain.entries.len() > 0 && latest > snapshot {
                return Some((i, latest));
            }
            i += 1;
        }
        None
    }

    /// Settles a commit that failed on the way, at the given time.
    pub fn reconcile_failed_commit_at(&mut self, txn_id: &str, cause: &str, now_ms: i64)
        requires
            old(self).wf(),
            old(self)@.store.last_wal_seq < u64::MAX,
        ensures
            final(self).wf(),
            final(self)@ == old(self)@.reconciled(txn_id@, cause@, now_ms),
    {
        let txn = match self.store.get_txn_state(txn_id) {
            Some(t) => t,
            None => return,
        };
        if txn.status != TxnStatus::Committing {
            return;
        }
        if self.is_published(txn_id, &txn) {
            let commit_version = version_to_report(&txn);
            let mut settled = txn;
            settled.status = TxnStatus::Committed;
            self.store.put_txn_state(txn_id, &settled);
            self.lock_manager.mark_committed_at(txn_id, commit_version, now_ms);
            self.store.unregister_snapshot(settled.snapshot_version);
        } else {
            self.give_up(txn_id, join2("commit failed before publish: ", cause));
        }
    }

    /// Whether every version that the transaction allocated is in its chain.
    pub fn is_published(&self, txn_id: &str, txn: &TxnStateRecord) -> (r: bool)
        requires
            self@.store.txns.contains_key(txn_id@),
            txn@ == self@.store.txns[txn_id@],
        ensures
            r == all_published(self@.store, txn_id@),
    {
        let ghost alloc = txn@.alloc_versions;
        if txn.alloc_versions.len() == 0 {
            return false;
        }
        let mut i: usize = 0;
        while i < txn.alloc_versions.len()
            invariant
                i <= txn.alloc_versions.len(),
                txn@ == self@.store.txns[txn_id@],
                alloc == txn@.alloc_versions,
                forall|j: int|
                    0 <= j < i ==> chain_has_own(
                        chain_at(self@.store.chains, (#[trigger] alloc[j]).0).entries,
                        txn_id@,
                        alloc[j].1,
                    ),
            decreases txn.alloc_versions.len() - i,
        {
            assert(alloc[i as int] == (
                txn.alloc_versions@[i as int].0@,
                txn.alloc_versions@[i as int].1,
            ));
            if !chain_holds_own(
                &self.store,
                txn.alloc_versions[i].0.as_str(),
                txn_id,
                txn.alloc_versions[i].1,
            ) {
                return false;
            }
            i += 1;
        }
        true
    }
}

proof fn lemma_body_failure(
    s: StoreView,
    reads: Seq<SpillReadView>,
    rows: WriteRows,
    at: nat,
    n: nat,
)
    requires
        at < n <= rows.len(),
        bodies_to_commit(s, reads, rows, at) is Ok,
        body_to_commit(s, reads, rows[at as int].1) is Err,
    ensures
        bodies_to_commit(s, reads, rows, n) == Err::<Seq<Seq<u8>>, Failure>(
            body_to_commit(s, reads, rows[at as int].1)->Err_0,
        ),
    decreases n - at,
{
    if n > at + 1 {
        lemma_body_failure(s, reads, rows, at, (n - 1) as nat);
    }
}

/// Log text of a snapshot conflict.
fn conflict_reason_text(key: &str, snapshot: u64, latest: u64) -> (r: String)
    ensures
        r@ == conflict_reason(key@, snapshot, latest),
{
    let a = join3("snapshot conflict on ", key, ": our snapshot ");
    let s = decimal_text(snapshot);
    let b = join3(a.as_str(), s.as_str(), ", chain latest ");
    let l = decimal_text(latest);
    join2(b.as_str(), l.as_str())
}

/// Chain updates of a commit.
fn updates_to_append(
    rows: &Vec<(String, WriteSetEntry)>,
    ws: Ghost<Map<Seq<char>, WriteSetEntryView>>,
    keys: &Vec<String>,
    txn_id: &str,
    version: u64,
    snapshot: u64,
    now_ms: i64,
) -> (r: Vec<(String, VersionEntry, u64)>)
    requires
        crate::table::lists::<String, WriteSetEntryView>(pair_views(rows@), ws@),
    ensures
        update_views(r@) == commit_updates(
            ws@,
            texts(keys@),
            txn_id@,
            version,
            snapshot,
            now_ms,
        ),
{
    let ghost all = commit_updates(ws@, texts(keys@), txn_id@, version, snapshot, now_ms);
    let mut out: Vec<(String, VersionEntry, u64)> = Vec::new();
    let mut i: usize = 0;
    assert(update_views(out@) =~= all.take(0));
    while i < keys.len()
        invariant
            i <= keys.len(),
            crate::table::lists::<String, WriteSetEntryView>(pair_views(rows@), ws@),
            all == commit_updates(ws@, texts(keys@), txn_id@, version, snapshot, now_ms),
            update_views(out@) == all.take(i as int),
        decreases keys.len() - i,
    {
        let key = keys[i].as_str();
        let entry = match find_row(rows, key, ws) {
            Some(j) => {
                if rows[j].1.deleted {
                    VersionEntry::tombstone_at(version, key.to_owned(), txn_id.to_owned(), now_ms)
                } else {
                    VersionEntry::new_at(
                        version,
                        String::new(),
                        key.to_owned(),
                        txn_id.to_owned(),
                        rows[j].1.size,
                        now_ms,
                    )
                }
            },
            None => VersionEntry::new_at(
                version,
                String::new(),
                key.to_owned(),
                txn_id.to_owned(),
                0,
                now_ms,
            ),
        };
        let ghost before = update_views(out@);
        let ghost ev = entry@;
        let update = (key.to_owned(), entry, snapshot);
        out.push(update);
        proof {
            assert(texts(keys@)[i as int] == key@);
            assert(ev == committed_entry(ws@, key@, txn_id@, version, now_ms));
            assert(all[i as int] == (key@, ev, snapshot));
            assert(update_views(out@) =~= before.push((key@, ev, snapshot)));
            assert(all.take(i + 1) =~= all.take(i as int).push(all[i as int]));
        }
        i += 1;
    }
    assert(all.take(i as int) =~= all);
    out
}

/// Version records of a commit.
fn versions_to_put(
    rows: &Vec<(String, WriteSetEntry)>,
    ws: Ghost<Map<Seq<char>, WriteSetEntryView>>,
    keys: &Vec<String>,
    txn_id: &str,
    version: u64,
    now_ms: i64,
) -> (r: Vec<(ObjectKey, VersionRecord)>)
    requires
        crate::table::lists::<String, WriteSetEntryView>(pair_views(rows@), ws@),
    ensures
        pair_views(r@) == commit_versions(ws@, texts(keys@), txn_id@, version, now_ms),
{
    let ghost all = commit_versions(ws@, texts(keys@), txn_id@, version, now_ms);
    let mut out: Vec<(ObjectKey, VersionRecord)> = Vec::new();
    let mut i: usize = 0;
    assert(pair_views(out@) =~= all.take(0));
    while i < keys.len()
        invariant
            i <= keys.len(),
            crate::table::lists::<String, WriteSetEntryView>(pair_views(rows@), ws@),
            all == commit_versions(ws@, texts(keys@), txn_id@, version, now_ms),
            pair_views(out@) == all.take(i as int),
        decreases keys.len() - i,
    {
        let key = keys[i].as_str();
        let (tombstone, size) = match find_row(rows, key, ws) {
            Some(j) => (rows[j].1.deleted, rows[j].1.size),
            None => (false, 0u64),
        };
        let rec = VersionRecord {
            latest_version: Version(version),
            latest_etag: String::new(),
            latest_backend_key: key.to_owned(),
            last_writer_txn_id: txn_id.to_owned(),
            tombstone,
            size,
            last_modified_unix_ms: now_ms,
        };
        let ghost before = pair_views(out@);
        let ghost rv = rec@;
        out.push((ObjectKey::new(key), rec));
        proof {
            assert(texts(keys@)[i as int] == key@);
            assert(rv.latest_etag =~= Seq::empty());
            assert(all[i as int] == (key@, rv));
            assert(pair_views(out@) =~= before.push((key@, rv)));
            assert(all.take(i + 1) =~= all.take(i as int).push(all[i as int]));
        }
        i += 1;
    }
    assert(all.take(i as int) =~= all);
    out
}

/// Event of a commit with the given chain updates.
fn event_of(
    updates: &Vec<(String, VersionEntry, u64)>,
    ws: Ghost<Map<Seq<char>, WriteSetEntryView>>,
    keys: Ghost<Seq<Seq<char>>>,
    txn_id: &str,
    version: u64,
    snapshot: u64,
    now_ms: i64,
) -> (r: CommitEvent)
    requires
        update_views(updates@) == commit_updates(
            ws@,
            keys@,
            txn_id@,
            version,
            snapshot,
            now_ms,
        ),
    ensures
        r@ == commit_event(ws@, keys@, txn_id@, version, now_ms),
{
    let ghost all = commit_event(ws@, keys@, txn_id@, version, now_ms).writes;
    let mut writes: Vec<CommitWrite> = Vec::new();
    let mut i: usize = 0;
    assert(commit_write_views(writes@) =~= all.take(0));
    assert(update_views(updates@).len() == keys@.len());
    while i < updates.len()
        invariant
            i <= updates.len(),
            updates@.len() == keys@.len(),
            update_views(updates@) == commit_updates(
                ws@,
                keys@,
                txn_id@,
                version,
                snapshot,
                now_ms,
            ),
            all == commit_event(ws@, keys@, txn_id@, version, now_ms).writes,
            commit_write_views(writes@) == all.take(i as int),
        decreases updates.len() - i,
    {
        let w = CommitWrite {
            key: updates[i].0.clone(),
            commit_version: updates[i].1.commit_version,
            deleted: updates[i].1.deleted,
            size: updates[i].1.size,
        };
        let ghost before = commit_write_views(writes@);
        let ghost wv = w@;
        writes.push(w);
        proof {
            let u = update_views(updates@)[i as int];
            assert(u == (updates@[i as int].0@, updates@[i as int].1@, updates@[i as int].2));
            assert(u == (
                keys@[i as int],
                committed_entry(ws@, keys@[i as int], txn_id@, version, now_ms),
                snapshot,
            ));
            assert(all[i as int] == wv);
            assert(commit_write_views(writes@) =~= before.push(wv));
            assert(all.take(i + 1) =~= all.take(i as int).push(all[i as int]));
        }
        i += 1;
    }
    assert(all.take(i as int) =~= all);
    CommitEvent { txn_id: txn_id.to_owned(), commit_version: version, writes }
}

/// Every key with the one version of the commit.
fn allocate(keys: &Vec<String>, version: u64) -> (r: Vec<(String, u64)>)
    ensures
        text_versions(r@) == shared_version(texts(keys@), version),
{
    let ghost all = shared_version(texts(keys@), version);
    let mut out: Vec<(String, u64)> = Vec::new();
    let mut i: usize = 0;
    assert(text_versions(out@) =~= all.take(0));
    while i < keys.len()
        invariant
            i <= keys.len(),
            all == shared_version(texts(keys@), version),
            text_versions(out@) == all.take(i as int),
        decreases keys.len() - i,
    {
        let ghost before = text_versions(out@);
        out.push((keys[i].clone(), version));
        proof {
            assert(texts(keys@)[i as int] == keys@[i as int]@);
            assert(all[i as int] == (keys@[i as int]@, version));
            assert(text_versions(out@) =~= before.push((keys@[i as int]@, version)));
            assert(all.take(i + 1) =~= all.take(i as int).push(all[i as int]));
        }
        i += 1;
    }
    assert(all.take(i as int) =~= all);
    out
}

proof fn lemma_published_id(
    mem: MemTableSetView,
    rows: WriteRows,
    bodies: Seq<Seq<u8>>,
    txn: Seq<char>,
    version: u64,
    age_ms: u64,
    n: nat,
)
    requires
        mem.active.id + n <= u64::MAX,
    ensures
        mem.active.id <= memtable_published(
            mem,
            rows,
            bodies,
            txn,
            version,
            age_ms,
            n,
        ).active.id <= mem.active.id + n,
    decreases n,
{
    if n > 0 {
        lemma_published_id(mem, rows, bodies, txn, version, age_ms, (n - 1) as nat);
    }
}

impl TxnCoordinator {
    /// Publishes the committed rows to the memtable.
    fn publish_rows(
        &mut self,
        rows: &Vec<(String, WriteSetEntry)>,
        bodies: Vec<Vec<u8>>,
        txn_id: &str,
        version: u64,
        age_ms: u64,
    )
        requires
            old(self).wf(),
            rows@.len() == bodies@.len(),
            old(self)@.mem.active.id + rows@.len() <= u64::MAX,
        ensures
            final(self).wf(),
            final(self)@ == (CoordView {
                mem: memtable_published(
                    old(self)@.mem,
                    pair_views(rows@),
                    body_views(bodies@),
                    txn_id@,
                    version,
                    age_ms,
                    rows@.len(),
                ),
                ..old(self)@
            }),
    {
        let ghost start = self@;
        let ghost views = pair_views(rows@);
        let ghost bv = body_views(bodies@);
        let start_id = self.memtable_set.active.id();
        let mut i: usize = 0;
        while i < rows.len()
            invariant
                i <= rows.len(),
                rows@.len() == bodies@.len(),
                views == pair_views(rows@),
                bv == body_views(bodies@),
                start_id == start.mem.active.id,
                start.mem.active.id + rows@.len() <= u64::MAX,
                self.wf(),
                self@ == (CoordView {
                    mem: memtable_published(
                        start.mem,
                        views,
                        bv,
                        txn_id@,
                        version,
                        age_ms,
                        i as nat,
                    ),
                    ..start
                }),
            decreases rows.len() - i,
        {
            proof {
                lemma_published_id(start.mem, views, bv, txn_id@, version, age_ms, i as nat);
                assert(views[i as int] == (rows@[i as int].0@, rows@[i as int].1@));
                assert(bv[i as int] == bodies@[i as int]@);
            }
            let age: u64 = if self.memtable_set.active.id() == start_id {
                age_ms
            } else {
                0
            };
            let we = &rows[i].1;
            let key = key_in_memtable(rows[i].0.as_str());
            let entry = MemEntry {
                key: (key.0.clone(), key.1.clone(), key.2.clone()),
                value: RecordValue::new(copy_bytes(bodies[i].as_slice())),
                commit_version: version,
                txn_id: txn_id.to_owned(),
                deleted: we.deleted,
                content_type: copy_optional_text(&we.content_type),
                user_meta: copy_pairs(&we.user_meta),
                schema_version: 0,
                wal_seq: version,
                size_bytes: we.size,
            };
            assert(entry@ == memtable_entry(
                views[i as int].0,
                views[i as int].1,
                bv[i as int],
                txn_id@,
                version,
            ));
            let _ = self.memtable_set.put_invisible(entry, age);
            self.memtable_set.publish(&key, version, version);
            i += 1;
        }
    }

    /// Aborts a transaction: drops its staged writes and their spilled bodies,
    /// logs the abort, and releases its snapshot and locks.
    pub fn abort(&mut self, txn_id: &str) -> (r: XtableResult<()>)
        requires
            old(self).wf(),
            old(self)@.store.last_wal_seq < u64::MAX,
        ensures
            final(self).wf(),
            (final(self)@, failure(r)) == old(self)@.aborted(txn_id@),
    {
        let ghost start = self@;
        let txn = match self.store.get_txn_state(txn_id) {
            Some(t) => t,
            None => {
                return Err(XtableError::from(TxnError::UnknownTxn(txn_id.to_owned())));
            },
        };
        match txn.status {
            TxnStatus::Committed => {
                return Err(
                    XtableError::from(TxnError::InvalidState("txn already committed".to_owned())),
                );
            },
            TxnStatus::Aborted => {
                return Ok(());
            },
            TxnStatus::Committing => {
                return Err(
                    XtableError::from(
                        TxnError::InvalidState(join2("txn not abortable: ", txn.status.name())),
                    ),
                );
            },
            TxnStatus::Active => {},
        }
        let moved = self.store.compare_and_set_txn_status(
            txn_id,
            TxnStatus::Active,
            TxnStatus::Aborted,
        );
        assert(moved);
        let rows = self.store.iter_write_set(txn_id);
        proof {
            lemma_listing::<String, WriteSetEntryView>(
                pair_views(rows@),
                start.store.write_set(txn_id@),
            );
            lemma_rows_dropped(self@.cleanup(), pair_views(rows@), txn_id@, rows@.len());
        }
        drop_rows(&mut self.store, &mut self.garbage, &rows, txn_id);
        self.store.append_wal(
            &WalRecord::Aborted { txn_id: txn_id.to_owned(), reason: "explicit abort".to_owned() },
        );
        self.store.unregister_snapshot(txn.snapshot_version);
        self.lock_manager.mark_aborted(txn_id);
        Ok(())
    }
}

impl TxnCoordinator {
    /// Commits a transaction whose bodies are at hand and that no peer
    /// endangers.
    fn commit_with(
        &mut self,
        txn_id: &str,
        rows: &Vec<(String, WriteSetEntry)>,
        bodies: Vec<Vec<u8>>,
        now_ms: i64,
        age_ms: u64,
    ) -> (r: XtableResult<u64>)
        requires
            old(self).wf(),
            old(self)@.store.txns.contains_key(txn_id@),
            pair_views(rows@) == write_rows(old(self)@.store, txn_id@),
            crate::table::lists::<String, WriteSetEntryView>(
                pair_views(rows@),
                old(self)@.store.write_set(txn_id@),
            ),
            rows@.len() == bodies@.len(),
            old(self)@.has_room(txn_id@),
        ensures
            final(self).wf(),
            (final(self)@, failure(r)) == old(self)@.committed_with(
                txn_id@,
                pair_views(rows@),
                body_views(bodies@),
                now_ms,
                age_ms,
            ),
    {
        let ghost start = self@;
        let ghost ws = start.store.write_set(txn_id@);
        let mut txn = match self.store.get_txn_state(txn_id) {
            Some(t) => t,
            None => {
                return Err(XtableError::from(TxnError::UnknownTxn(txn_id.to_owned())));
            },
        };
        let snapshot = txn.snapshot_version;
        let keys = sort_texts(&txn.write_keys);
        let version: u64 = if keys.len() == 0 {
            snapshot
        } else {
            self.store.next_global_version()
        };
        assert(texts(keys@).len() == keys@.len());
        if let Some((i, latest)) = self.find_conflict(&keys, snapshot) {
            assert(texts(keys@)[i as int] == keys@[i as int]@);
            self.give_up(txn_id, conflict_reason_text(keys[i].as_str(), snapshot, latest));
            return Err(
                XtableError::conflict(
                    snapshot_conflict_message(keys[i].as_str(), snapshot, latest),
                ),
            );
        }
        self.store.append_wal(
            &WalRecord::Committing {
                txn_id: txn_id.to_owned(),
                upload_keys: crate::text::copy_texts(&keys),
            },
        );
        txn.alloc_versions = allocate(&keys, version);
        txn.uploaded_keys = Vec::new();
        assert(texts(txn.uploaded_keys@) =~= Seq::empty());
        self.store.put_txn_state(txn_id, &txn);
        let ghost prepared = self@;
        assert(prepared.store.writes == start.store.writes);
        let updates = updates_to_append(
            rows,
            Ghost(ws),
            &keys,
            txn_id,
            version,
            snapshot,
            now_ms,
        );
        match self.store.append_chain_entries_bulk(&updates) {
            Err(e) => {
                return Err(e);
            },
            Ok(_) => {},
        }
        let versions = versions_to_put(rows, Ghost(ws), &keys, txn_id, version, now_ms);
        self.store.put_versions_bulk(&versions);
        assert(pair_views(versions@).len() == versions@.len());
        self.store.append_wal(
            &WalRecord::Committed { txn_id: txn_id.to_owned(), commit_version: version },
        );
        self.store.append_wal(
            &WalRecord::CommitResult {
                txn_id: txn_id.to_owned(),
                commit_version: version,
                success: true,
            },
        );
        txn.status = TxnStatus::Committed;
        self.store.put_txn_state(txn_id, &txn);
        self.publish_rows(rows, bodies, txn_id, version, age_ms);
        self.lock_manager.mark_committed_at(txn_id, version, now_ms);
        let event = event_of(
            &updates,
            Ghost(ws),
            Ghost(texts(keys@)),
            txn_id,
            version,
            snapshot,
            now_ms,
        );
        let ghost ev = event@;
        let ghost events = event_views(self.events@);
        self.events.push(event);
        assert(event_views(self.events@) =~= events.push(ev));
        self.store.unregister_snapshot(snapshot);
        drop_spills(&mut self.store, &mut self.garbage, rows, txn_id);
        Ok(version)
    }

    /// Commits a transaction that has been moved to `Committing`.
    fn commit_owned(
        &mut self,
        txn_id: &str,
        reads: &Vec<SpillRead>,
        now_ms: i64,
        age_ms: u64,
    ) -> (r: XtableResult<u64>)
        requires
            old(self).wf(),
            old(self)@.store.txns.contains_key(txn_id@),
            old(self)@.has_room(txn_id@),
        ensures
            final(self).wf(),
            (final(self)@, failure(r)) == old(self)@.commit_owned(
                txn_id@,
                spill_read_views(reads@),
                now_ms,
                age_ms,
            ),
    {
        let rows = self.store.iter_write_set(txn_id);
        proof {
            lemma_listing::<String, WriteSetEntryView>(
                pair_views(rows@),
                self@.store.write_set(txn_id@),
            );
            lemma_bodies_len(
                self@.store,
                spill_read_views(reads@),
                pair_views(rows@),
                rows@.len(),
            );
        }
        let bodies = match self.collect_bodies(&rows, reads) {
            Ok(b) => b,
            Err(e) => {
                return Err(e);
            },
        };
        assert(body_views(bodies@).len() == bodies@.len());
        if let Some(peer) = self.lock_manager.find_dangerous_structure(txn_id) {
            self.give_up(txn_id, join2("Cahill cycle with ", peer.as_str()));
            return Err(
                XtableError::from(
                    TxnError::Conflict(join2("SSI cycle with ", peer.as_str())),
                ),
            );
        }
        self.commit_with(txn_id, &rows, bodies, now_ms, age_ms)
    }

    /// Commits a transaction at the given time. `reads` holds the spill files
    /// that [`TxnCoordinator::spill_files`] names; `age_ms` is the age of the
    /// active memtable.
    pub fn commit_at(
        &mut self,
        txn_id: &str,
        reads: &Vec<SpillRead>,
        now_ms: i64,
        age_ms: u64,
    ) -> (r: XtableResult<CommitOutcome>)
        requires
            old(self).wf(),
            old(self)@.has_room(txn_id@),
        ensures
            final(self).wf(),
            ({
                let (c, x) = old(self)@.committed(
                    txn_id@,
                    spill_read_views(reads@),
                    now_ms,
                    age_ms,
                );
                &&& final(self)@ == c
                &&& match x {
                    Ok(v) => r matches Ok(o) && o.commit_version == v,
                    Err(e) => r matches Err(f) && f@ == e,
                }
            }),
    {
        let ghost start = self@;
        let txn = match self.store.get_txn_state(txn_id) {
            Some(t) => t,
            None => {
                return Err(XtableError::from(TxnError::UnknownTxn(txn_id.to_owned())));
            },
        };
        match txn.status {
            TxnStatus::Committed => {
                return Ok(CommitOutcome { commit_version: version_to_report(&txn) });
            },
            TxnStatus::Aborted => {
                return Err(
                    XtableError::from(TxnError::Aborted("txn already aborted".to_owned())),
                );
            },
            TxnStatus::Committing => {
                return Err(
                    XtableError::from(
                        TxnError::InvalidState(join3("txn in ", txn.status.name(), " state")),
                    ),
                );
            },
            TxnStatus::Active => {},
        }
        let moved = self.store.compare_and_set_txn_status(
            txn_id,
            TxnStatus::Active,
            TxnStatus::Committing,
        );
        assert(moved);
        let ghost owned = self@;
        assert(owned.store.writes == start.store.writes);
        match self.commit_owned(txn_id, reads, now_ms, age_ms) {
            Ok(v) => Ok(CommitOutcome { commit_version: v }),
            Err(e) => {
                proof {
                    lemma_failed_commit_log(
                        owned,
                        txn_id@,
                        spill_read_views(reads@),
                        now_ms,
                        age_ms,
                    );
                }
                self.reconcile_failed_commit_at(txn_id, e.message(), now_ms);
                Err(e)
            },
        }
    }

    /// Commits a transaction. `reads` holds the spill files that
    /// [`TxnCoordinator::spill_files`] names; `age_ms` is the age of the
    /// active memtable.
    pub fn commit(&mut self, txn_id: &str, reads: &Vec<SpillRead>, age_ms: u64) -> (r: XtableResult<
        CommitOutcome,
    >)
        requires
            old(self).wf(),
            old(self)@.has_room(txn_id@),
        ensures
            final(self).wf(),
            exists|now: i64|
                {
                    let (c, x) = #[trigger] old(self)@.committed(
                        txn_id@,
                        spill_read_views(reads@),
                        now,
                        age_ms,
                    );
                    &&& final(self)@ == c
                    &&& match x {
                        Ok(v) => r matches Ok(o) && o.commit_version == v,
                        Err(e) => r matches Err(f) && f@ == e,
                    }
                },
    {
        let now = now_ms();
        let ghost start = self@;
        let r = self.commit_at(txn_id, reads, now, age_ms);
        assert(start.committed(txn_id@, spill_read_views(reads@), now, age_ms).0 == self@);
        r
    }

    /// Settles a commit that failed on the way.
    pub fn reconcile_failed_commit(&mut self, txn_id: &str, cause: &XtableError)
        requires
            old(self).wf(),
            old(self)@.store.last_wal_seq < u64::MAX,
        ensures
            final(self).wf(),
            exists|now: i64|
                final(self)@ == #[trigger] old(self)@.reconciled(txn_id@, cause@.1, now),
    {
        let now = now_ms();
        self.reconcile_failed_commit_at(txn_id, cause.message(), now);
    }
}

proof fn lemma_bodies_len(s: StoreView, reads: Seq<SpillReadView>, rows: WriteRows, n: nat)
    ensures
        bodies_to_commit(s, reads, rows, n) matches Ok(b) ==> b.len() == n,
    decreases n,
{
    if n > 0 {
        lemma_bodies_len(s, reads, rows, (n - 1) as nat);
    }
}

/// A commit that fails has logged at most one record.
proof fn lemma_failed_commit_log(
    c: CoordView,
    txn: Seq<char>,
    reads: Seq<SpillReadView>,
    now: i64,
    age_ms: u64,
)
    requires
        c.has_room(txn),
    ensures
        c.commit_owned(txn, reads, now, age_ms).1 is Err ==> c.commit_owned(
            txn,
            reads,
            now,
            age_ms,
        ).0.store.last_wal_seq < u64::MAX,
{
}

} // verus!
