//! What the transaction coordinator does, step by step.
//!
//! The state of a coordinator is a [`CoordView`]: local store, lock manager
//! and memtables, the events that observers have not seen yet, and the spill
//! files that are no longer needed. Each operation is a function from state to
//! state.

use crate::cleanup::{Cleanup, WriteRows};
use crate::memtable::{MemEntryView, MemTableSetView};
use crate::outside::{hex_text, sha256};
use crate::record_key::memtable_key;
use crate::si_lock_manager::LocksView;
use crate::store::{insert_all, StoreView};
use crate::store_chains::{bulk_result, chain_at, snapshot_conflict_text, ChainUpdate, Chains};
use crate::table::listing;
use crate::text::{decimal, sorted_texts};
use crate::txn_state::{active_state, BlobRecordView, TxnStateRecordView, WriteSetEntryView};
use crate::types::{status_name, ErrorKind, TxnStatus, Version};
use crate::version_chain::{
    latest_version, tombstone_view, write_entry_view, Chain, VersionEntryView,
};
use crate::version_index::VersionRecordView;
use crate::wal::WalRecordView;
use vstd::prelude::*;
use vstd::utf8::*;

verus! {

/// Body size above which a staged body is spilled to a file.
pub const SPILL_THRESHOLD: usize = 262144;

/// Bytes of the key's digest in the name of a spill file.
pub const SPILL_NAME_BYTES: usize = 12;

/// Kind and text of an error.
pub type Failure = (ErrorKind, Seq<char>);

/// Mathematical view of one write in a commit event.
pub ghost struct CommitWriteView {
    pub key: Seq<char>,
    pub commit_version: u64,
    pub deleted: bool,
    pub size: u64,
}

/// Mathematical view of a commit event.
pub ghost struct CommitEventView {
    pub txn_id: Seq<char>,
    pub commit_version: u64,
    pub writes: Seq<CommitWriteView>,
}

/// What the read of a spill file gave: its bytes, or the text of the error.
pub ghost struct SpillReadView {
    pub handle: Seq<char>,
    pub content: Result<Seq<u8>, Seq<char>>,
}

/// Mathematical view of a coordinator.
#[verifier::ext_equal]
pub ghost struct CoordView {
    pub store: StoreView,
    pub locks: LocksView,
    pub mem: MemTableSetView,
    /// Directory of spill files.
    pub spill_dir: Seq<char>,
    /// Commits that observers have not been told of, oldest first.
    pub events: Seq<CommitEventView>,
    /// Paths of spill files that are no longer needed.
    pub garbage: Seq<Seq<char>>,
}

// ----- states of a transaction -----

/// Error of a transaction that is not known.
pub open spec fn unknown_txn(txn: Seq<char>) -> Failure {
    (ErrorKind::UnknownTxn, txn)
}

/// Error of an operation that the state of the transaction forbids.
pub open spec fn invalid_state(text: Seq<char>) -> Failure {
    (ErrorKind::Internal, "invalid state: "@ + text)
}

/// The state of a transaction that can still read and write.
pub open spec fn active_txn(s: StoreView, txn: Seq<char>) -> Result<TxnStateRecordView, Failure> {
    if !s.txns.contains_key(txn) {
        Err(unknown_txn(txn))
    } else if s.txns[txn].status != TxnStatus::Active {
        Err(invalid_state("txn not active: "@ + status_name(s.txns[txn].status)))
    } else {
        Ok(s.txns[txn])
    }
}

/// Largest version among the first `n`.
pub open spec fn max_alloc(s: Seq<(Seq<char>, u64)>, n: nat) -> u64
    decreases n,
{
    if n == 0 {
        0
    } else {
        let m = max_alloc(s, (n - 1) as nat);
        if s[n - 1].1 > m {
            s[n - 1].1
        } else {
            m
        }
    }
}

/// Version that a committed transaction reports.
pub open spec fn reported_version(t: TxnStateRecordView) -> u64 {
    if t.alloc_versions.len() == 0 {
        t.snapshot_version
    } else {
        max_alloc(t.alloc_versions, t.alloc_versions.len())
    }
}

// ----- spill files -----

/// Name of the spill file of a write.
pub open spec fn spill_handle(txn: Seq<char>, key: Seq<char>) -> Seq<char> {
    txn + "-"@ + hex_text(sha256(encode_utf8(key)).take(SPILL_NAME_BYTES as int))
}

/// Path of a spill file: the directory and the name, with one slash between
/// them unless the directory brings its own or is empty.
pub open spec fn spill_path(dir: Seq<char>, handle: Seq<char>) -> Seq<char> {
    if dir.len() == 0 || dir.last() == '/' {
        dir + handle
    } else {
        dir + "/"@ + handle
    }
}

/// Position of the first read of `handle` among those from `i` on.
pub open spec fn spill_index(reads: Seq<SpillReadView>, handle: Seq<char>, i: int) -> Option<int>
    decreases reads.len() - i,
{
    if 0 <= i < reads.len() {
        if reads[i].handle == handle {
            Some(i)
        } else {
            spill_index(reads, handle, i + 1)
        }
    } else {
        None
    }
}

/// Error of a spilled body that is not there.
pub open spec fn blob_missing(text: Seq<char>, handle: Seq<char>) -> Failure {
    (ErrorKind::Storage, text + handle)
}

/// Bytes of a spilled body.
pub open spec fn spilled_body(
    s: StoreView,
    reads: Seq<SpillReadView>,
    handle: Seq<char>,
    missing: Seq<char>,
) -> Result<Seq<u8>, Failure> {
    if !s.blobs.contains_key(handle) {
        Err(blob_missing(missing, handle))
    } else {
        match spill_index(reads, handle, 0) {
            None => Err(blob_missing(missing, handle)),
            Some(i) => match reads[i].content {
                Ok(b) => Ok(b),
                Err(t) => Err((ErrorKind::Storage, t)),
            },
        }
    }
}

/// Bytes that a staged write commits.
pub open spec fn body_to_commit(
    s: StoreView,
    reads: Seq<SpillReadView>,
    e: WriteSetEntryView,
) -> Result<Seq<u8>, Failure> {
    match e.inline_body {
        Some(b) => Ok(b),
        None => match e.body_handle {
            Some(h) => spilled_body(s, reads, h, "staged blob missing: "@),
            None => Ok(Seq::empty()),
        },
    }
}

/// Bytes of all rows, or the error of the first row that has none.
pub open spec fn bodies_to_commit(
    s: StoreView,
    reads: Seq<SpillReadView>,
    rows: WriteRows,
    n: nat,
) -> Result<Seq<Seq<u8>>, Failure>
    decreases n,
{
    if n == 0 {
        Ok(Seq::empty())
    } else {
        match bodies_to_commit(s, reads, rows, (n - 1) as nat) {
            Err(e) => Err(e),
            Ok(done) => match body_to_commit(s, reads, rows[n - 1].1) {
                Err(e) => Err(e),
                Ok(b) => Ok(done.push(b)),
            },
        }
    }
}

/// Handles and paths of the spilled bodies of the first `n` rows.
pub open spec fn spilled_files(s: StoreView, rows: WriteRows, n: nat) -> Seq<(Seq<char>, Seq<char>)>
    decreases n,
{
    if n == 0 {
        Seq::empty()
    } else {
        let done = spilled_files(s, rows, (n - 1) as nat);
        let e = rows[n - 1].1;
        match e.body_handle {
            Some(h) => if e.inline_body is None && s.blobs.contains_key(h) {
                done.push((h, s.blobs[h].path))
            } else {
                done
            },
            None => done,
        }
    }
}

/// Body of the staged write of `key`.
pub open spec fn staged_body(
    s: StoreView,
    reads: Seq<SpillReadView>,
    ws: Map<Seq<char>, WriteSetEntryView>,
    key: Seq<char>,
) -> Result<Option<Seq<u8>>, Failure> {
    if !ws.contains_key(key) {
        Ok(None)
    } else {
        match ws[key].inline_body {
            Some(b) => Ok(Some(b)),
            None => match ws[key].body_handle {
                Some(h) => match spilled_body(s, reads, h, "blob missing: "@) {
                    Ok(b) => Ok(Some(b)),
                    Err(e) => Err(e),
                },
                None => Ok(None),
            },
        }
    }
}

// ----- commit -----

/// The staged writes of a transaction in key order.
pub open spec fn write_rows(s: StoreView, txn: Seq<char>) -> WriteRows {
    listing::<String, WriteSetEntryView>(s.write_set(txn))
}

/// First of the keys, from `i` on, whose chain is newer than the snapshot.
pub open spec fn first_conflict(
    chains: Chains,
    keys: Seq<Seq<char>>,
    snapshot: u64,
    i: int,
) -> Option<int>
    decreases keys.len() - i,
{
    if 0 <= i < keys.len() {
        let chain = chain_at(chains, keys[i]).entries;
        if chain.len() > 0 && latest_version(chain) > snapshot {
            Some(i)
        } else {
            first_conflict(chains, keys, snapshot, i + 1)
        }
    } else {
        None
    }
}

/// Text that the log gives for a snapshot conflict.
pub open spec fn conflict_reason(key: Seq<char>, snapshot: u64, latest: u64) -> Seq<char> {
    "snapshot conflict on "@ + key + ": our snapshot "@ + decimal(snapshot as nat)
        + ", chain latest "@ + decimal(latest as nat)
}

/// Whether the staged write of `key` is a delete.
pub open spec fn staged_delete(ws: Map<Seq<char>, WriteSetEntryView>, key: Seq<char>) -> bool {
    ws.contains_key(key) && ws[key].deleted
}

/// Size of the staged write of `key`.
pub open spec fn staged_size(ws: Map<Seq<char>, WriteSetEntryView>, key: Seq<char>) -> u64 {
    if ws.contains_key(key) {
        ws[key].size
    } else {
        0
    }
}

/// Version entry that a commit appends for `key`.
pub open spec fn committed_entry(
    ws: Map<Seq<char>, WriteSetEntryView>,
    key: Seq<char>,
    txn: Seq<char>,
    version: u64,
    now: i64,
) -> VersionEntryView {
    if staged_delete(ws, key) {
        tombstone_view(version, key, txn, now)
    } else {
        write_entry_view(version, Seq::empty(), key, txn, staged_size(ws, key), now)
    }
}

/// Chain updates of a commit.
pub open spec fn commit_updates(
    ws: Map<Seq<char>, WriteSetEntryView>,
    keys: Seq<Seq<char>>,
    txn: Seq<char>,
    version: u64,
    snapshot: u64,
    now: i64,
) -> Seq<ChainUpdate> {
    keys.map_values(
        |k: Seq<char>| (k, committed_entry(ws, k, txn, version, now), snapshot),
    )
}

/// Version records of a commit.
pub open spec fn commit_versions(
    ws: Map<Seq<char>, WriteSetEntryView>,
    keys: Seq<Seq<char>>,
    txn: Seq<char>,
    version: u64,
    now: i64,
) -> Seq<(Seq<char>, VersionRecordView)> {
    keys.map_values(
        |k: Seq<char>|
            (
                k,
                VersionRecordView {
                    latest_version: Version(version),
                    latest_etag: Seq::empty(),
                    latest_backend_key: k,
                    last_writer_txn_id: txn,
                    tombstone: staged_delete(ws, k),
                    size: staged_size(ws, k),
                    last_modified_unix_ms: now,
                },
            ),
    )
}

/// Event of a commit.
pub open spec fn commit_event(
    ws: Map<Seq<char>, WriteSetEntryView>,
    keys: Seq<Seq<char>>,
    txn: Seq<char>,
    version: u64,
    now: i64,
) -> CommitEventView {
    CommitEventView {
        txn_id: txn,
        commit_version: version,
        writes: keys.map_values(
            |k: Seq<char>|
                {
                    let e = committed_entry(ws, k, txn, version, now);
                    CommitWriteView {
                        key: k,
                        commit_version: e.commit_version,
                        deleted: e.deleted,
                        size: e.size,
                    }
                },
        ),
    }
}

/// Every key with the one version of the commit.
pub open spec fn shared_version(keys: Seq<Seq<char>>, version: u64) -> Seq<(Seq<char>, u64)> {
    keys.map_values(|k: Seq<char>| (k, version))
}

/// Memtable entry of a committed write.
pub open spec fn memtable_entry(
    key: Seq<char>,
    e: WriteSetEntryView,
    body: Seq<u8>,
    txn: Seq<char>,
    version: u64,
) -> MemEntryView {
    MemEntryView {
        key: memtable_key(key),
        value: body,
        commit_version: version,
        txn_id: txn,
        deleted: e.deleted,
        content_type: e.content_type,
        user_meta: e.user_meta,
        schema_version: 0,
        wal_seq: version,
        size_bytes: e.size,
    }
}

/// Age of the active memtable: a memtable that took over meanwhile is new.
pub open spec fn active_age(start: MemTableSetView, now: MemTableSetView, age_ms: u64) -> u64 {
    if now.active.id == start.active.id {
        age_ms
    } else {
        0
    }
}

/// The first `n` rows enter the memtable.
pub open spec fn memtable_published(
    mem: MemTableSetView,
    rows: WriteRows,
    bodies: Seq<Seq<u8>>,
    txn: Seq<char>,
    version: u64,
    age_ms: u64,
    n: nat,
) -> MemTableSetView
    decreases n,
{
    if n == 0 {
        mem
    } else {
        let m = memtable_published(mem, rows, bodies, txn, version, age_ms, (n - 1) as nat);
        let e = memtable_entry(rows[n - 1].0, rows[n - 1].1, bodies[n - 1], txn, version);
        m.put(e, active_age(mem, m, age_ms)).publish(e.key, version)
    }
}

/// Some entry of the chain is the transaction's own at `version`.
pub open spec fn chain_has_own(c: Chain, txn: Seq<char>, version: u64) -> bool {
    exists|i: int|
        0 <= i < c.len() && (#[trigger] c[i]).txn_id == txn && c[i].commit_version == version
}

/// Every version that the transaction allocated is in its chain.
pub open spec fn all_published(s: StoreView, txn: Seq<char>) -> bool {
    let alloc = s.txns[txn].alloc_versions;
    alloc.len() > 0 && forall|i: int|
        0 <= i < alloc.len() ==> chain_has_own(
            chain_at(s.chains, (#[trigger] alloc[i]).0).entries,
            txn,
            alloc[i].1,
        )
}

impl CoordView {
    /// Begins a transaction at the current version.
    pub open spec fn begun(
        self,
        txn: Seq<char>,
        idempotency_key: Option<Seq<char>>,
        now: i64,
    ) -> (CoordView, Result<(), Failure>) {
        let snapshot = self.store.global_version;
        let s = self.store.pin(snapshot).with_txn(
            txn,
            active_state(snapshot, idempotency_key, now),
        );
        if self.locks.by_txn.contains_key(txn) {
            let u = s.unpin(snapshot);
            (
                CoordView { store: StoreView { txns: u.txns.remove(txn), ..u }, ..self },
                Err((ErrorKind::Storage, crate::si_lock_manager::already_begun_text(txn))),
            )
        } else {
            (
                CoordView {
                    store: s.log(
                        WalRecordView::Begin {
                            txn_id: txn,
                            snapshot_version: snapshot,
                            idempotency_key,
                        },
                    ),
                    locks: self.locks.begun(txn, snapshot),
                    ..self
                },
                Ok(()),
            )
        }
    }

    /// The write entry that staging stores.
    pub open spec fn staged_entry(
        self,
        txn: Seq<char>,
        key: Seq<char>,
        body: Seq<u8>,
        content_type: Option<Seq<char>>,
        user_meta: Seq<(Seq<char>, Seq<char>)>,
        deleted: bool,
    ) -> WriteSetEntryView {
        let spill = body.len() > SPILL_THRESHOLD;
        WriteSetEntryView {
            backend_key: key,
            body_handle: if spill {
                Some(spill_handle(txn, key))
            } else {
                None
            },
            inline_body: if spill {
                None
            } else {
                Some(body)
            },
            size: body.len() as u64,
            content_type,
            user_meta,
            version_at_read: self.store.txns[txn].snapshot_version,
            deleted,
        }
    }

    /// A write of an active transaction is staged.
    pub open spec fn staged(
        self,
        txn: Seq<char>,
        body: Seq<u8>,
        e: WriteSetEntryView,
        now: i64,
    ) -> CoordView {
        let t = self.store.txns[txn];
        let key = e.backend_key;
        let s1 = match e.body_handle {
            Some(h) => StoreView {
                blobs: self.store.blobs.insert(
                    h,
                    BlobRecordView {
                        path: spill_path(self.spill_dir, h),
                        size: body.len() as u64,
                        sha256: hex_text(sha256(body)),
                        created_at_ms: now,
                    },
                ),
                ..self.store
            },
            None => self.store,
        };
        let s2 = s1.log(WalRecordView::Stage { txn_id: txn, key, body_handle: e.body_handle });
        let s3 = StoreView { writes: s2.writes.insert((txn, key), e), ..s2 };
        let s4 = if t.write_keys.contains(key) {
            s3
        } else {
            s3.with_txn(txn, TxnStateRecordView { write_keys: t.write_keys.push(key), ..t })
        };
        let next = if t.snapshot_version < u64::MAX {
            (t.snapshot_version + 1) as u64
        } else {
            u64::MAX
        };
        CoordView { store: s4, locks: self.locks.written(txn, key, next), ..self }
    }

    /// A read of an active transaction is noted.
    pub open spec fn noted_read(
        self,
        txn: Seq<char>,
        key: Seq<char>,
        version: u64,
        etag: Seq<char>,
    ) -> CoordView {
        let t = self.store.txns[txn];
        CoordView {
            store: if t.read_keys.contains(key) {
                self.store
            } else {
                self.store.with_txn(
                    txn,
                    TxnStateRecordView { read_keys: t.read_keys.push(key), ..t },
                )
            },
            locks: self.locks.read(txn, key, version, etag),
            ..self
        }
    }

    /// The transaction is noted to be alive.
    pub open spec fn alive(self, txn: Seq<char>, now: i64) -> CoordView {
        CoordView {
            store: self.store.with_txn(
                txn,
                TxnStateRecordView { last_heartbeat_ms: now, ..self.store.txns[txn] },
            ),
            ..self
        }
    }

    /// The transaction is aborted for `reason` and releases its locks and its
    /// snapshot.
    pub open spec fn gave_up(self, txn: Seq<char>, reason: Seq<char>) -> CoordView {
        let t = self.store.txns[txn];
        CoordView {
            store: self.store.log(WalRecordView::Aborted { txn_id: txn, reason }).with_status(
                txn,
                TxnStatus::Aborted,
            ).unpin(t.snapshot_version),
            locks: self.locks.aborted(txn),
            ..self
        }
    }

    /// Outcome of a commit that failed with `cause` on the way: committed if
    /// its versions are all in their chains, else aborted.
    pub open spec fn reconciled(self, txn: Seq<char>, cause: Seq<char>, now: i64) -> CoordView {
        if !self.store.txns.contains_key(txn) || self.store.txns[txn].status
            != TxnStatus::Committing {
            self
        } else if all_published(self.store, txn) {
            let t = self.store.txns[txn];
            CoordView {
                store: self.store.with_status(txn, TxnStatus::Committed).unpin(
                    t.snapshot_version,
                ),
                locks: self.locks.committed(txn, reported_version(t), now),
                ..self
            }
        } else {
            self.gave_up(txn, "commit failed before publish: "@ + cause)
        }
    }

    /// The store and the list of files that are no longer needed.
    pub open spec fn cleanup(self) -> Cleanup {
        Cleanup { store: self.store, garbage: self.garbage }
    }

    /// The store and the list of files after a cleanup.
    pub open spec fn cleaned(self, k: Cleanup) -> CoordView {
        CoordView { store: k.store, garbage: k.garbage, ..self }
    }

    /// State after the versions of a commit are allocated and logged.
    pub open spec fn prepared(self, txn: Seq<char>, keys: Seq<Seq<char>>, version: u64) -> CoordView {
        let t = self.store.txns[txn];
        CoordView {
            store: self.store.log(
                WalRecordView::Committing { txn_id: txn, upload_keys: keys },
            ).with_txn(
                txn,
                TxnStateRecordView {
                    alloc_versions: shared_version(keys, version),
                    uploaded_keys: Seq::empty(),
                    ..t
                },
            ),
            ..self
        }
    }

    /// State after the chains took the versions of a commit.
    pub open spec fn published(
        self,
        chains: Chains,
        rows: WriteRows,
        bodies: Seq<Seq<u8>>,
        txn: Seq<char>,
        keys: Seq<Seq<char>>,
        version: u64,
        now: i64,
        age_ms: u64,
    ) -> CoordView {
        let ws = self.store.write_set(txn);
        let snapshot = self.store.txns[txn].snapshot_version;
        let vs = commit_versions(ws, keys, txn, version, now);
        let s = StoreView {
            chains,
            versions: insert_all(self.store.versions, vs, vs.len()),
            ..self.store
        };
        let c = CoordView {
            store: s.log(
                WalRecordView::Committed { txn_id: txn, commit_version: version },
            ).log(
                WalRecordView::CommitResult {
                    txn_id: txn,
                    commit_version: version,
                    success: true,
                },
            ).with_status(txn, TxnStatus::Committed).unpin(snapshot),
            locks: self.locks.committed(txn, version, now),
            mem: memtable_published(self.mem, rows, bodies, txn, version, age_ms, rows.len()),
            events: self.events.push(commit_event(ws, keys, txn, version, now)),
            ..self
        };
        c.cleaned(c.cleanup().spills_dropped(rows, txn, rows.len()))
    }

    /// Commit of a transaction whose bodies are at hand and that no peer
    /// endangers.
    pub open spec fn committed_with(
        self,
        txn: Seq<char>,
        rows: WriteRows,
        bodies: Seq<Seq<u8>>,
        now: i64,
        age_ms: u64,
    ) -> (CoordView, Result<u64, Failure>) {
        let t = self.store.txns[txn];
        let keys = sorted_texts(t.write_keys);
        let version = if keys.len() == 0 {
            t.snapshot_version
        } else {
            (self.store.global_version + 1) as u64
        };
        let allocated = if keys.len() == 0 {
            self
        } else {
            CoordView { store: StoreView { global_version: version, ..self.store }, ..self }
        };
        match first_conflict(allocated.store.chains, keys, t.snapshot_version, 0) {
            Some(i) => {
                let latest = latest_version(chain_at(allocated.store.chains, keys[i]).entries);
                (
                    allocated.gave_up(txn, conflict_reason(keys[i], t.snapshot_version, latest)),
                    Err(
                        (
                            ErrorKind::Conflict,
                            snapshot_conflict_text(keys[i], t.snapshot_version, latest),
                        ),
                    ),
                )
            },
            None => {
                let p = allocated.prepared(txn, keys, version);
                let updates = commit_updates(
                    p.store.write_set(txn),
                    keys,
                    txn,
                    version,
                    t.snapshot_version,
                    now,
                );
                match bulk_result(p.store.chains, updates) {
                    Err(e) => (p, Err(e)),
                    Ok(chains) => (
                        p.published(chains, rows, bodies, txn, keys, version, now, age_ms),
                        Ok(version),
                    ),
                }
            },
        }
    }

    /// Commit of a transaction that has been moved to `Committing`.
    pub open spec fn commit_owned(
        self,
        txn: Seq<char>,
        reads: Seq<SpillReadView>,
        now: i64,
        age_ms: u64,
    ) -> (CoordView, Result<u64, Failure>) {
        let rows = write_rows(self.store, txn);
        match bodies_to_commit(self.store, reads, rows, rows.len()) {
            Err(e) => (self, Err(e)),
            Ok(bodies) => match self.locks.danger(txn) {
                Some(peer) => (
                    self.gave_up(txn, "Cahill cycle with "@ + peer),
                    Err((ErrorKind::Conflict, "conflict on keys: "@ + ("SSI cycle with "@ + peer))),
                ),
                None => self.committed_with(txn, rows, bodies, now, age_ms),
            },
        }
    }

    /// Commit of a transaction.
    pub open spec fn committed(
        self,
        txn: Seq<char>,
        reads: Seq<SpillReadView>,
        now: i64,
        age_ms: u64,
    ) -> (CoordView, Result<u64, Failure>) {
        if !self.store.txns.contains_key(txn) {
            (self, Err(unknown_txn(txn)))
        } else {
            match self.store.txns[txn].status {
                TxnStatus::Committed => (self, Ok(reported_version(self.store.txns[txn]))),
                TxnStatus::Aborted => (
                    self,
                    Err((ErrorKind::Conflict, "aborted: "@ + "txn already aborted"@)),
                ),
                TxnStatus::Committing => (
                    self,
                    Err(invalid_state("txn in "@ + status_name(TxnStatus::Committing) + " state"@)),
                ),
                TxnStatus::Active => {
                    let owned = CoordView {
                        store: self.store.with_status(txn, TxnStatus::Committing),
                        ..self
                    };
                    let (c, r) = owned.commit_owned(txn, reads, now, age_ms);
                    match r {
                        Ok(v) => (c, Ok(v)),
                        Err(e) => (c.reconciled(txn, e.1, now), Err(e)),
                    }
                },
            }
        }
    }

    /// Abort of a transaction on request.
    pub open spec fn aborted(self, txn: Seq<char>) -> (CoordView, Result<(), Failure>) {
        if !self.store.txns.contains_key(txn) {
            (self, Err(unknown_txn(txn)))
        } else {
            match self.store.txns[txn].status {
                TxnStatus::Committed => (self, Err(invalid_state("txn already committed"@))),
                TxnStatus::Aborted => (self, Ok(())),
                TxnStatus::Committing => (
                    self,
                    Err(
                        invalid_state(
                            "txn not abortable: "@ + status_name(TxnStatus::Committing),
                        ),
                    ),
                ),
                TxnStatus::Active => {
                    let rows = write_rows(self.store, txn);
                    let snapshot = self.store.txns[txn].snapshot_version;
                    let k = Cleanup {
                        store: self.store.with_status(txn, TxnStatus::Aborted),
                        garbage: self.garbage,
                    }.rows_dropped(rows, txn, rows.len());
                    (
                        CoordView {
                            store: k.store.log(
                                WalRecordView::Aborted {
                                    txn_id: txn,
                                    reason: "explicit abort"@,
                                },
                            ).unpin(snapshot),
                            locks: self.locks.aborted(txn),
                            garbage: k.garbage,
                            ..self
                        },
                        Ok(()),
                    )
                },
            }
        }
    }

    /// The counters have room for a commit of the transaction.
    pub open spec fn has_room(self, txn: Seq<char>) -> bool {
        &&& self.store.last_wal_seq + 3 <= u64::MAX
        &&& self.store.global_version < u64::MAX
        &&& self.mem.active.id + write_rows(self.store, txn).len() <= u64::MAX
    }
}

} // verus!
