//! Laws of the steps of a transaction before its commit, said of its state:
//! begin, stage, read, heartbeat and abort.

use crate::cleanup::{law_dropping_a_write_set_empties_it, lemma_rows_dropped, points_to, Cleanup};
use crate::commit_steps::{
    active_txn, spilled_files, staged_body, write_rows, CoordView, SpillReadView,
};
use crate::outcome_laws::body_of_write;
use crate::outside::{hex_text, sha256};
use crate::store::StoreView;
use crate::txn_laws::sound;
use crate::types::{ErrorKind, TxnStatus};
use crate::wal::WalRecordView;
use vstd::prelude::*;
use vstd::utf8::*;

verus! {

/// Only a known, active transaction can read, write or report that it is alive.
/// An unknown one is an error of its own kind that names it; any other state is
/// an internal error.
pub proof fn law_only_active_txns_take_part(s: StoreView, txn: Seq<char>)
    ensures
        active_txn(s, txn) is Ok <==> s.txns.contains_key(txn) && s.txns[txn].status
            == TxnStatus::Active,
        active_txn(s, txn) is Ok ==> active_txn(s, txn)->Ok_0 == s.txns[txn],
        !s.txns.contains_key(txn) ==> (active_txn(s, txn) matches Err(e) && e.0
            == ErrorKind::UnknownTxn && e.1 == txn),
        s.txns.contains_key(txn) && s.txns[txn].status != TxnStatus::Active ==> (active_txn(s, txn)
            matches Err(e) && e.0 == ErrorKind::Internal),
{
}

/// The store differs from `a` in its transactions, log and pins at most.
pub open spec fn same_data(a: StoreView, b: StoreView) -> bool {
    &&& b.chains == a.chains
    &&& b.versions == a.versions
    &&& b.records == a.records
    &&& b.record_versions == a.record_versions
    &&& b.chunks == a.chunks
    &&& b.schemas == a.schemas
    &&& b.multipart == a.multipart
    &&& b.global_version == a.global_version
    &&& b.last_flushed_seq == a.last_flushed_seq
}

/// A transaction begins active at the version of the store, with nothing read
/// or written, heard of now, under the given idempotency key. Its snapshot has
/// one pin more, and the log says so. Where its locks exist already it does not
/// begin: the error is one of storage, and pins, log and locks stay.
pub proof fn law_begin_starts_clean_at_the_current_version(
    c: CoordView,
    txn: Seq<char>,
    idempotency_key: Option<Seq<char>>,
    now: i64,
    other: Seq<char>,
    snapshot: u64,
)
    requires
        c.store.pins(c.store.global_version) < u64::MAX,
        c.store.last_wal_seq < u64::MAX,
        other != txn,
    ensures
        ({
            let (n, r) = c.begun(txn, idempotency_key, now);
            let v = c.store.global_version;
            let t = n.store.txns[txn];
            let q = n.store.last_wal_seq;
            &&& r is Ok <==> !c.locks.by_txn.contains_key(txn)
            &&& r is Ok ==> {
                &&& n.store.txns.contains_key(txn)
                &&& t.status == TxnStatus::Active
                &&& t.snapshot_version == v
                &&& t.started_at_ms == now
                &&& t.last_heartbeat_ms == now
                &&& t.idempotency_key == idempotency_key
                &&& t.read_keys.len() == 0
                &&& t.write_keys.len() == 0
                &&& t.alloc_versions.len() == 0
                &&& t.uploaded_keys.len() == 0
                &&& q == c.store.last_wal_seq + 1
                &&& n.store.wal == c.store.wal.insert(
                    q,
                    WalRecordView::Begin { txn_id: txn, snapshot_version: v, idempotency_key },
                )
                &&& n.store.pins(snapshot) == c.store.pins(snapshot) + if snapshot == v {
                    1int
                } else {
                    0
                }
                &&& n.locks.by_txn.contains_key(txn)
                &&& n.locks.by_txn[txn].snapshot_version == v
                &&& n.locks.by_txn[txn].reads.len() == 0
                &&& n.locks.by_txn[txn].writes.len() == 0
                &&& n.locks.by_txn[txn].in_edges.len() == 0
                &&& n.locks.by_txn[txn].out_edges.len() == 0
                &&& n.locks.by_txn[txn].status == crate::locks::SiTxnPhase::Active
                &&& n.locks.by_txn.contains_key(other) <==> c.locks.by_txn.contains_key(other)
                &&& c.locks.by_txn.contains_key(other) ==> n.locks.by_txn[other]
                    == c.locks.by_txn[other]
                &&& n.locks.readers_of == c.locks.readers_of
                &&& n.locks.writers_of == c.locks.writers_of
            }
            &&& r is Err ==> {
                &&& (r->Err_0).0 == ErrorKind::Storage
                &&& n.locks == c.locks
                &&& n.store.wal == c.store.wal
                &&& n.store.last_wal_seq == c.store.last_wal_seq
                &&& n.store.pins(snapshot) == c.store.pins(snapshot)
                &&& !n.store.txns.contains_key(txn)
            }
            &&& n.store.txns.contains_key(other) <==> c.store.txns.contains_key(other)
            &&& c.store.txns.contains_key(other) ==> n.store.txns[other] == c.store.txns[other]
            &&& same_data(c.store, n.store)
            &&& n.store.writes == c.store.writes
            &&& n.store.blobs == c.store.blobs
            &&& n.mem == c.mem
            &&& n.events == c.events
            &&& n.garbage == c.garbage
        }),
{
}

/// A staged write is stored under its transaction and key with the body, its
/// length, content type, metadata and delete flag as given, and with the
/// snapshot of the transaction. A body of up to 256 KiB is stored with it; of a
/// longer one the store holds a record of its spill file instead. The key is
/// among the written keys, once. The log names key and spill file.
pub proof fn law_stage_stores_the_write_as_given(
    c: CoordView,
    txn: Seq<char>,
    key: Seq<char>,
    body: Seq<u8>,
    content_type: Option<Seq<char>>,
    user_meta: Seq<(Seq<char>, Seq<char>)>,
    deleted: bool,
    now: i64,
    other: (Seq<char>, Seq<char>),
)
    requires
        c.store.txns.contains_key(txn),
        c.store.txns[txn].status == TxnStatus::Active,
        c.store.last_wal_seq < u64::MAX,
        body.len() <= u64::MAX,
        other != (txn, key),
    ensures
        ({
            let t = c.store.txns[txn];
            let e = c.staged_entry(txn, key, body, content_type, user_meta, deleted);
            let n = c.staged(txn, body, e, now);
            let w = n.store.writes[(txn, key)];
            let u = n.store.txns[txn];
            let handle = txn + "-"@ + hex_text(sha256(encode_utf8(key)).take(12));
            let q = n.store.last_wal_seq;
            &&& n.store.writes.contains_key((txn, key))
            &&& w.backend_key == key
            &&& w.deleted == deleted
            &&& w.size == body.len()
            &&& w.content_type == content_type
            &&& w.user_meta == user_meta
            &&& w.version_at_read == t.snapshot_version
            &&& body.len() <= 262144 ==> w.inline_body == Some(body) && w.body_handle is None
                && n.store.blobs == c.store.blobs
            &&& body.len() > 262144 ==> {
                &&& w.inline_body is None
                &&& w.body_handle == Some(handle)
                &&& n.store.blobs.contains_key(handle)
                &&& n.store.blobs[handle].size == body.len()
                &&& n.store.blobs[handle].sha256 == hex_text(sha256(body))
                &&& n.store.blobs[handle].created_at_ms == now
                &&& n.store.blobs[handle].path == if c.spill_dir.len() == 0
                    || c.spill_dir.last() == '/' {
                    c.spill_dir + handle
                } else {
                    c.spill_dir + "/"@ + handle
                }
                &&& forall|h: Seq<char>|
                    h != handle ==> (#[trigger] n.store.blobs.contains_key(h)
                        <==> c.store.blobs.contains_key(h)) && (c.store.blobs.contains_key(h)
                        ==> n.store.blobs[h] == c.store.blobs[h])
            }
            &&& n.store.writes.contains_key(other) <==> c.store.writes.contains_key(other)
            &&& c.store.writes.contains_key(other) ==> n.store.writes[other]
                == c.store.writes[other]
            &&& u.write_keys.contains(key)
            &&& forall|k: Seq<char>|
                k != key ==> (#[trigger] u.write_keys.contains(k) <==> t.write_keys.contains(k))
            &&& t.write_keys.no_duplicates() ==> u.write_keys.no_duplicates()
            &&& u.status == TxnStatus::Active
            &&& u.snapshot_version == t.snapshot_version
            &&& u.read_keys == t.read_keys
            &&& u.alloc_versions == t.alloc_versions
            &&& u.started_at_ms == t.started_at_ms
            &&& u.last_heartbeat_ms == t.last_heartbeat_ms
            &&& q == c.store.last_wal_seq + 1
            &&& n.store.wal == c.store.wal.insert(
                q,
                WalRecordView::Stage { txn_id: txn, key, body_handle: w.body_handle },
            )
            &&& other.0 != txn ==> (n.store.txns.contains_key(other.0)
                <==> c.store.txns.contains_key(other.0)) && (c.store.txns.contains_key(other.0)
                ==> n.store.txns[other.0] == c.store.txns[other.0])
            &&& same_data(c.store, n.store)
            &&& n.store.snapshots == c.store.snapshots
            &&& n.mem == c.mem
            &&& n.events == c.events
            &&& n.garbage == c.garbage
        }),
{
    let t = c.store.txns[txn];
    let e = c.staged_entry(txn, key, body, content_type, user_meta, deleted);
    let n = c.staged(txn, body, e, now);
    let u = n.store.txns[txn];
    if t.write_keys.contains(key) {
        assert(u.write_keys == t.write_keys);
    } else {
        assert(u.write_keys == t.write_keys.push(key));
        assert(u.write_keys[t.write_keys.len() as int] == key);
        assert forall|k: Seq<char>| k != key implies (#[trigger] u.write_keys.contains(k)
            <==> t.write_keys.contains(k)) by {
            if t.write_keys.contains(k) {
                let i = choose|i: int| 0 <= i < t.write_keys.len() && t.write_keys[i] == k;
                assert(u.write_keys[i] == k);
            }
            if u.write_keys.contains(k) {
                let i = choose|i: int| 0 <= i < u.write_keys.len() && u.write_keys[i] == k;
                assert(t.write_keys[i] == k);
            }
        }
        if t.write_keys.no_duplicates() {
            assert forall|i: int, j: int|
                0 <= i < u.write_keys.len() && 0 <= j < u.write_keys.len() && i
                    != j implies u.write_keys[i] != u.write_keys[j] by {
                if i < t.write_keys.len() && j < t.write_keys.len() {
                    assert(t.write_keys[i] != t.write_keys[j]);
                } else if i < t.write_keys.len() {
                    assert(t.write_keys.contains(t.write_keys[i]));
                } else {
                    assert(t.write_keys.contains(t.write_keys[j]));
                }
            }
        }
    }
}

/// A noted read puts the key among the keys that the transaction has read,
/// once, and changes nothing else of the store.
pub proof fn law_read_is_noted_once(
    c: CoordView,
    txn: Seq<char>,
    key: Seq<char>,
    version: u64,
    etag: Seq<char>,
    other: Seq<char>,
)
    requires
        c.store.txns.contains_key(txn),
        c.store.txns[txn].status == TxnStatus::Active,
        other != txn,
    ensures
        ({
            let t = c.store.txns[txn];
            let n = c.noted_read(txn, key, version, etag);
            let u = n.store.txns[txn];
            &&& n.store.txns.contains_key(txn)
            &&& u.read_keys.contains(key)
            &&& t.read_keys.contains(key) ==> u.read_keys == t.read_keys
            &&& !t.read_keys.contains(key) ==> u.read_keys.len() == t.read_keys.len() + 1
                && u.read_keys.drop_last() == t.read_keys
            &&& u.status == TxnStatus::Active
            &&& u.snapshot_version == t.snapshot_version
            &&& u.write_keys == t.write_keys
            &&& u.alloc_versions == t.alloc_versions
            &&& u.started_at_ms == t.started_at_ms
            &&& u.last_heartbeat_ms == t.last_heartbeat_ms
            &&& u.idempotency_key == t.idempotency_key
            &&& n.store.txns.contains_key(other) <==> c.store.txns.contains_key(other)
            &&& c.store.txns.contains_key(other) ==> n.store.txns[other] == c.store.txns[other]
            &&& same_data(c.store, n.store)
            &&& n.store.writes == c.store.writes
            &&& n.store.blobs == c.store.blobs
            &&& n.store.wal == c.store.wal
            &&& n.store.last_wal_seq == c.store.last_wal_seq
            &&& n.store.snapshots == c.store.snapshots
            &&& n.mem == c.mem
            &&& n.events == c.events
            &&& n.garbage == c.garbage
        }),
{
    let t = c.store.txns[txn];
    let u = c.noted_read(txn, key, version, etag).store.txns[txn];
    if !t.read_keys.contains(key) {
        assert(u.read_keys[t.read_keys.len() as int] == key);
        assert(u.read_keys.drop_last() =~= t.read_keys);
    }
}

/// A heartbeat notes the time and changes nothing else.
pub proof fn law_heartbeat_only_notes_the_time(
    c: CoordView,
    txn: Seq<char>,
    now: i64,
    other: Seq<char>,
)
    requires
        c.store.txns.contains_key(txn),
        other != txn,
    ensures
        ({
            let t = c.store.txns[txn];
            let n = c.alive(txn, now);
            let u = n.store.txns[txn];
            &&& n.store.txns.contains_key(txn)
            &&& u.last_heartbeat_ms == now
            &&& u.status == t.status
            &&& u.snapshot_version == t.snapshot_version
            &&& u.read_keys == t.read_keys
            &&& u.write_keys == t.write_keys
            &&& u.alloc_versions == t.alloc_versions
            &&& u.started_at_ms == t.started_at_ms
            &&& u.idempotency_key == t.idempotency_key
            &&& n.store.txns.contains_key(other) <==> c.store.txns.contains_key(other)
            &&& c.store.txns.contains_key(other) ==> n.store.txns[other] == c.store.txns[other]
            &&& same_data(c.store, n.store)
            &&& n.store.writes == c.store.writes
            &&& n.store.wal == c.store.wal
            &&& n.store.snapshots == c.store.snapshots
            &&& n.locks == c.locks
            &&& n.mem == c.mem
            &&& n.events == c.events
        }),
{
}

/// An abort on request ends an active transaction: nothing it staged is left,
/// and the files of its bodies are noted for removal; its snapshot has one pin
/// less, and the log says why. Other transactions and their writes stay, and
/// nothing is published.
pub proof fn law_abort_undoes_what_was_staged(
    c: CoordView,
    txn: Seq<char>,
    key: (Seq<char>, Seq<char>),
    handle: Seq<char>,
    other: Seq<char>,
    snapshot: u64,
)
    requires
        c.store.txns.contains_key(txn),
        c.store.txns[txn].status == TxnStatus::Active,
        c.store.writes.dom().finite(),
        forall|k: (Seq<char>, Seq<char>)| #[trigger]
            c.store.writes.contains_key(k) ==> c.store.writes[k].backend_key == k.1,
        c.store.last_wal_seq < u64::MAX,
        other != txn,
    ensures
        ({
            let t = c.store.txns[txn];
            let (n, r) = c.aborted(txn);
            let u = n.store.txns[txn];
            let q = n.store.last_wal_seq;
            &&& r is Ok
            &&& n.store.txns.contains_key(txn)
            &&& u.status == TxnStatus::Aborted
            &&& u.snapshot_version == t.snapshot_version
            &&& u.read_keys == t.read_keys
            &&& u.write_keys == t.write_keys
            &&& u.alloc_versions == t.alloc_versions
            &&& u.last_heartbeat_ms == t.last_heartbeat_ms
            &&& n.store.writes.contains_key(key) <==> c.store.writes.contains_key(key) && key.0
                != txn
            &&& n.store.writes.contains_key(key) ==> n.store.writes[key] == c.store.writes[key]
            &&& n.store.blobs.contains_key(handle) <==> c.store.blobs.contains_key(handle)
                && !points_to(c.store, txn, handle)
            &&& n.store.blobs.contains_key(handle) ==> n.store.blobs[handle]
                == c.store.blobs[handle]
            &&& c.store.blobs.contains_key(handle) && points_to(c.store, txn, handle)
                ==> n.garbage.contains(c.store.blobs[handle].path)
            &&& q == c.store.last_wal_seq + 1
            &&& n.store.wal == c.store.wal.insert(
                q,
                WalRecordView::Aborted { txn_id: txn, reason: "explicit abort"@ },
            )
            &&& n.store.pins(snapshot) == if snapshot == t.snapshot_version && c.store.pins(
                snapshot,
            ) > 0 {
                c.store.pins(snapshot) - 1
            } else {
                c.store.pins(snapshot) as int
            }
            &&& n.store.txns.contains_key(other) <==> c.store.txns.contains_key(other)
            &&& c.store.txns.contains_key(other) ==> n.store.txns[other] == c.store.txns[other]
            &&& same_data(c.store, n.store)
            &&& n.mem == c.mem
            &&& n.events == c.events
        }),
{
    let m = Cleanup { store: c.store.with_status(txn, TxnStatus::Aborted), garbage: c.garbage };
    let rows = write_rows(c.store, txn);
    assert(m.store.write_set(txn) == c.store.write_set(txn));
    lemma_rows_dropped(m, rows, txn, rows.len());
    law_dropping_a_write_set_empties_it(m, txn, key, handle);
    assert(points_to(m.store, txn, handle) == points_to(c.store, txn, handle)) by {
        if points_to(m.store, txn, handle) {
            let k = choose|k: Seq<char>| #[trigger]
                m.store.writes.contains_key((txn, k)) && m.store.writes[(txn, k)].body_handle
                    == Some(handle);
            assert(c.store.writes.contains_key((txn, k)));
        }
        if points_to(c.store, txn, handle) {
            let k = choose|k: Seq<char>| #[trigger]
                c.store.writes.contains_key((txn, k)) && c.store.writes[(txn, k)].body_handle
                    == Some(handle);
            assert(m.store.writes.contains_key((txn, k)));
        }
    }
}

/// An abort of a transaction that is not active changes nothing. It is fine
/// where the transaction is aborted already; it is an error, each of its kind,
/// where it is unknown, has committed or is committing.
pub proof fn law_abort_of_the_rest_changes_nothing(c: CoordView, txn: Seq<char>)
    requires
        !(c.store.txns.contains_key(txn) && c.store.txns[txn].status == TxnStatus::Active),
    ensures
        ({
            let (n, r) = c.aborted(txn);
            let t = c.store.txns[txn];
            &&& n == c
            &&& !c.store.txns.contains_key(txn) ==> (r matches Err(e) && e.0
                == ErrorKind::UnknownTxn && e.1 == txn)
            &&& c.store.txns.contains_key(txn) && t.status == TxnStatus::Aborted ==> r is Ok
            &&& c.store.txns.contains_key(txn) && (t.status == TxnStatus::Committed || t.status
                == TxnStatus::Committing) ==> (r matches Err(e) && e.0 == ErrorKind::Internal)
        }),
{
}

/// The body that a transaction reads back of its own write is the one in the
/// store, or that of the first read of its spill file; there is none of a key
/// that it did not write. A spill file that is not known or was not read, or
/// whose read failed, is a storage error.
pub proof fn law_own_write_is_read_back(
    s: StoreView,
    reads: Seq<SpillReadView>,
    txn: Seq<char>,
    key: Seq<char>,
)
    ensures
        ({
            let w = s.writes[(txn, key)];
            let r = staged_body(s, reads, s.write_set(txn), key);
            &&& !s.writes.contains_key((txn, key)) ==> (r matches Ok(b) && b is None)
            &&& s.writes.contains_key((txn, key)) ==> {
                &&& w.inline_body is Some ==> (r matches Ok(Some(b)) && b == w.inline_body->0)
                &&& w.inline_body is None && w.body_handle is None ==> (r matches Ok(b) && b
                    is None)
                &&& w.inline_body is None && w.body_handle is Some ==> match r {
                    Ok(Some(b)) => s.blobs.contains_key(w.body_handle->0) && body_of_write(
                        reads,
                        w,
                        b,
                    ),
                    Ok(None) => false,
                    Err(e) => e.0 == ErrorKind::Storage
                        && !crate::outcome_laws::body_can_be_had(s, reads, w),
                }
            }
        }),
{
    let w = s.writes[(txn, key)];
    let ws = s.write_set(txn);
    assert(ws.contains_key(key) <==> s.writes.contains_key((txn, key)));
    if ws.contains_key(key) {
        assert(ws[key] == w);
        if w.inline_body is None && w.body_handle is Some {
            let h = w.body_handle->0;
            crate::outcome_laws::lemma_spill_index(reads, h, 0);
            match crate::commit_steps::spill_index(reads, h, 0) {
                Some(k) => {
                    assert(reads[k].handle == h);
                    assert forall|i: int|
                        0 <= i < reads.len() && (#[trigger] reads[i]).handle == h && (forall|j: int|
                            0 <= j < i ==> (#[trigger] reads[j]).handle != h) implies i == k by {
                        if k < i {
                            assert(reads[k].handle != h);
                        }
                    }
                },
                None => {},
            }
        }
    }
}

/// The files that a commit will want to read are those of the staged writes
/// whose body is spilled and known, and no others.
pub proof fn law_spill_files_are_those_of_spilled_writes(
    s: StoreView,
    txn: Seq<char>,
    file: (Seq<char>, Seq<char>),
)
    requires
        s.writes.dom().finite(),
    ensures
        ({
            let rows = write_rows(s, txn);
            spilled_files(s, rows, rows.len()).contains(file) <==> s.blobs.contains_key(file.0)
                && s.blobs[file.0].path == file.1 && exists|key: Seq<char>| #[trigger]
                s.writes.contains_key((txn, key)) && s.writes[(txn, key)].inline_body is None
                    && s.writes[(txn, key)].body_handle == Some(file.0)
        }),
{
    let ws = s.write_set(txn);
    let rows = write_rows(s, txn);
    crate::cleanup::lemma_write_set_finite(s, txn);
    crate::table::lemma_finite_listing::<String, crate::txn_state::WriteSetEntryView>(ws);
    lemma_spilled_files(s, rows, rows.len(), file);
    if exists|i: int|
        0 <= i < rows.len() && (#[trigger] rows[i]).1.inline_body is None && rows[i].1.body_handle
            == Some(file.0) {
        let i = choose|i: int|
            0 <= i < rows.len() && (#[trigger] rows[i]).1.inline_body is None
                && rows[i].1.body_handle == Some(file.0);
        crate::table::lemma_listed::<String, crate::txn_state::WriteSetEntryView>(rows, i);
        assert(ws.contains_key(rows[i].0));
        assert(s.writes.contains_key((txn, rows[i].0)));
    }
    if exists|key: Seq<char>| #[trigger]
        s.writes.contains_key((txn, key)) && s.writes[(txn, key)].inline_body is None && s.writes[(
        txn,
        key,
    )].body_handle == Some(file.0) {
        let key = choose|key: Seq<char>| #[trigger]
            s.writes.contains_key((txn, key)) && s.writes[(txn, key)].inline_body is None
                && s.writes[(txn, key)].body_handle == Some(file.0);
        assert(ws.contains_key(key));
        assert(crate::table::rows_map(rows).contains_key(key));
        let i = choose|i: int| 0 <= i < rows.len() && (#[trigger] rows[i]).0 == key;
        crate::table::lemma_listed::<String, crate::txn_state::WriteSetEntryView>(rows, i);
        assert(rows[i].1.body_handle == Some(file.0));
    }
}

proof fn lemma_spilled_files(
    s: StoreView,
    rows: crate::cleanup::WriteRows,
    n: nat,
    file: (Seq<char>, Seq<char>),
)
    requires
        n <= rows.len(),
    ensures
        spilled_files(s, rows, n).contains(file) <==> s.blobs.contains_key(file.0)
            && s.blobs[file.0].path == file.1 && exists|i: int|
            0 <= i < n && (#[trigger] rows[i]).1.inline_body is None && rows[i].1.body_handle
                == Some(file.0),
    decreases n,
{
    if n > 0 {
        lemma_spilled_files(s, rows, (n - 1) as nat, file);
        let done = spilled_files(s, rows, (n - 1) as nat);
        let all = spilled_files(s, rows, n);
        let w = rows[n - 1].1;
        if done.contains(file) {
            let i = choose|i: int| 0 <= i < done.len() && done[i] == file;
            assert(all[i] == file);
        }
        if w.inline_body is None && w.body_handle == Some(file.0) && s.blobs.contains_key(file.0)
            && s.blobs[file.0].path == file.1 {
            assert(all[done.len() as int] == file);
        }
        if all.contains(file) {
            let i = choose|i: int| 0 <= i < all.len() && all[i] == file;
            if i < done.len() {
                assert(done[i] == file);
            } else {
                assert(rows[n - 1].1.body_handle == Some(file.0));
            }
        }
    }
}

/// What is staged is what is committed: after a write was staged and the
/// transaction commits, the newest entry of the key's chain, the version record
/// and the event all say whether it is a delete, and the entry and the event
/// have its length, 0 for a delete.
pub proof fn law_staged_write_is_what_commits(
    c: CoordView,
    txn: Seq<char>,
    key: Seq<char>,
    body: Seq<u8>,
    content_type: Option<Seq<char>>,
    user_meta: Seq<(Seq<char>, Seq<char>)>,
    deleted: bool,
    now: i64,
    reads: Seq<SpillReadView>,
    later: i64,
    age_ms: u64,
)
    requires
        sound(c.store),
        c.store.txns.contains_key(txn),
        c.store.txns[txn].status == TxnStatus::Active,
        c.store.last_wal_seq < u64::MAX,
        body.len() <= u64::MAX,
        ({
            let e = c.staged_entry(txn, key, body, content_type, user_meta, deleted);
            let m = c.staged(txn, body, e, now);
            m.has_room(txn) && m.committed(txn, reads, later, age_ms).1 is Ok
        }),
    ensures
        ({
            let e = c.staged_entry(txn, key, body, content_type, user_meta, deleted);
            let m = c.staged(txn, body, e, now);
            let (n, r) = m.committed(txn, reads, later, age_ms);
            let newest = n.store.chains[key].entries.last();
            let size = if deleted {
                0
            } else {
                body.len()
            };
            &&& n.store.chains.contains_key(key)
            &&& newest.deleted == deleted
            &&& newest.size == size
            &&& newest.txn_id == txn
            &&& newest.commit_version == r->Ok_0
            &&& n.store.versions.contains_key(key)
            &&& n.store.versions[key].tombstone == deleted
            &&& n.store.versions[key].size == body.len()
            &&& exists|i: int|
                0 <= i < n.events.last().writes.len() && (#[trigger] n.events.last().writes[i]).key
                    == key && n.events.last().writes[i].deleted == deleted
                    && n.events.last().writes[i].size == size
        }),
{
    let e = c.staged_entry(txn, key, body, content_type, user_meta, deleted);
    let m = c.staged(txn, body, e, now);
    law_stage_stores_the_write_as_given(
        c,
        txn,
        key,
        body,
        content_type,
        user_meta,
        deleted,
        now,
        (txn, key.push('/')),
    );
    crate::txn_laws::law_stage_keeps_soundness(c, txn, body, e, now);
    crate::outcome_laws::law_commit_records_each_staged_write(m, txn, reads, later, age_ms, key);
    crate::outcome_laws::law_commit_event_tells_each_staged_write(m, txn, reads, later, age_ms);
    let n = m.committed(txn, reads, later, age_ms).0;
    let i = choose|i: int|
        0 <= i < n.events.last().writes.len() && (#[trigger] n.events.last().writes[i]).key == key;
    assert(m.store.writes.contains_key((txn, n.events.last().writes[i].key)));
}

} // verus!
