//! Laws of records and of small tables: what a record write leaves, how keys
//! parse, and what records of the log and errors stand for.

use crate::cf::ChunkStatus;
use crate::chunk::ChunkIndexEntryView;
use crate::error::{public_error, TxnError};
use crate::outside::json_failure;
use crate::record_key::{memtable_key, parsed_key, slash_from};
use crate::recovery_laws::{ends, names};
use crate::store::{chunks_marked_deleted, row_sum, RecordId, RecordVersionId, StoreView};
use crate::store_records::{
    newest_version_at, record_with_body, with_chunk_pointer, with_record_body,
};
use crate::txn_state::RecordIndexEntryView;
use crate::types::{http_status_of, ErrorKind};
use crate::wal::{record_is_terminal, record_txn, WalRecordView};
use vstd::prelude::*;
use vstd::utf8::*;

verus! {

// ----- records -----

/// A record write becomes the latest row exactly if there is none that is
/// newer, with its body; in any case it is in the history with the bytes of its
/// body. Every other row stays, and so does all else.
pub proof fn law_record_write_is_latest_unless_newer_exists(
    s: StoreView,
    id: RecordId,
    entry: RecordIndexEntryView,
    body: Seq<char>,
    other: RecordId,
    version: RecordVersionId,
)
    requires
        other != id,
        version != (id.0, id.1, id.2, entry.commit_version),
    ensures
        ({
            let n = with_record_body(s, id, entry, body);
            let newer = s.records.contains_key(id) && s.records[id].entry.commit_version
                > entry.commit_version;
            let own = (id.0, id.1, id.2, entry.commit_version);
            &&& n.records.contains_key(id)
            &&& !newer ==> n.records[id].entry == entry && n.records[id].body_json == Some(body)
            &&& newer ==> n.records[id] == s.records[id]
            &&& n.record_versions.contains_key(own)
            &&& n.record_versions[own].entry == entry
            &&& n.record_versions[own].body == encode_utf8(body)
            &&& n.records.contains_key(other) <==> s.records.contains_key(other)
            &&& s.records.contains_key(other) ==> n.records[other] == s.records[other]
            &&& n.record_versions.contains_key(version) <==> s.record_versions.contains_key(
                version,
            )
            &&& s.record_versions.contains_key(version) ==> n.record_versions[version]
                == s.record_versions[version]
            &&& n.chains == s.chains
            &&& n.versions == s.versions
            &&& n.txns == s.txns
            &&& n.wal == s.wal
            &&& n.chunks == s.chunks
            &&& n.global_version == s.global_version
        }),
{
}

/// Moving the chunk pointer of a version changes the chunk id of that history
/// row and, where the latest row is of that version, of the latest row. Nothing
/// else changes.
pub proof fn law_chunk_pointer_moves_one_version(
    s: StoreView,
    id: RecordId,
    commit_version: u64,
    chunk_id: Seq<char>,
    row: RecordId,
    version: RecordVersionId,
)
    ensures
        ({
            let n = with_chunk_pointer(s, id, commit_version, chunk_id);
            let a = s.records[row];
            let b = n.records[row];
            let c = s.record_versions[version];
            let d = n.record_versions[version];
            &&& n.records.contains_key(row) <==> s.records.contains_key(row)
            &&& s.records.contains_key(row) ==> {
                &&& b.entry.chunk_id == if row == id && a.entry.commit_version == commit_version {
                    chunk_id
                } else {
                    a.entry.chunk_id
                }
                &&& b.entry.commit_version == a.entry.commit_version
                &&& b.entry.deleted == a.entry.deleted
                &&& b.entry.schema_version == a.entry.schema_version
                &&& b.entry.txn_id == a.entry.txn_id
                &&& b.entry.updated_ms == a.entry.updated_ms
                &&& b.body_json == a.body_json
            }
            &&& n.record_versions.contains_key(version) <==> s.record_versions.contains_key(
                version,
            )
            &&& s.record_versions.contains_key(version) ==> {
                &&& d.entry.chunk_id == if version == (id.0, id.1, id.2, commit_version) {
                    chunk_id
                } else {
                    c.entry.chunk_id
                }
                &&& d.entry.commit_version == c.entry.commit_version
                &&& d.entry.deleted == c.entry.deleted
                &&& d.entry.schema_version == c.entry.schema_version
                &&& d.entry.txn_id == c.entry.txn_id
                &&& d.body == c.body
            }
            &&& n.chains == s.chains
            &&& n.versions == s.versions
            &&& n.txns == s.txns
            &&& n.wal == s.wal
            &&& n.chunks == s.chunks
        }),
{
}

/// A record is read with its body, with `null` where it has none. A body that is
/// no JSON is a storage error. Where there is no row there is no answer.
pub proof fn law_record_is_read_with_its_body(s: StoreView, id: RecordId)
    ensures
        ({
            let row = s.records[id];
            let r = record_with_body(s, id);
            let bare = row.body_json is None || row.body_json->0.len() == 0;
            &&& !s.records.contains_key(id) ==> (r matches Ok(x) && x is None)
            &&& s.records.contains_key(id) && bare ==> (r matches Ok(Some(x)) && x.0 == row.entry
                && x.1 == "null"@)
            &&& s.records.contains_key(id) && !bare && json_failure(row.body_json->0) is None ==> (
            r matches Ok(Some(x)) && x.0 == row.entry && x.1 == row.body_json->0)
            &&& s.records.contains_key(id) && !bare && json_failure(row.body_json->0) is Some ==> (
            r matches Err(e) && e.0 == ErrorKind::Storage)
        }),
{
}

/// A snapshot reads the newest version that is not above it: a version that was
/// just written is read from its own version on until a newer one, and not
/// below it.
pub proof fn law_snapshot_reads_the_newest_version_below(
    s: StoreView,
    id: RecordId,
    entry: RecordIndexEntryView,
    body: Seq<char>,
    snapshot: u64,
    v: u64,
)
    ensures
        ({
            let n = with_record_body(s, id, entry, body).record_versions;
            let own = entry.commit_version;
            &&& newest_version_at(n, id, own, v) <==> v == own
            &&& snapshot >= own && newest_version_at(n, id, snapshot, v) ==> own <= v <= snapshot
            &&& snapshot < own ==> (newest_version_at(n, id, snapshot, v) <==> newest_version_at(
                s.record_versions,
                id,
                snapshot,
                v,
            ))
            &&& newest_version_at(n, id, snapshot, v) ==> n.contains_key((id.0, id.1, id.2, v))
        }),
{
    let n = with_record_body(s, id, entry, body).record_versions;
    let own = entry.commit_version;
    assert(n.contains_key((id.0, id.1, id.2, own)));
    assert forall|w: u64| w != own implies (#[trigger] n.contains_key((id.0, id.1, id.2, w))
        <==> s.record_versions.contains_key((id.0, id.1, id.2, w))) by {}
    if snapshot < own {
        if newest_version_at(n, id, snapshot, v) {
            assert forall|w: u64| #[trigger]
                s.record_versions.contains_key((id.0, id.1, id.2, w)) && w
                    <= snapshot implies w <= v by {
                assert(n.contains_key((id.0, id.1, id.2, w)));
            }
        }
    }
}

/// Marking chunks deleted changes the status of the named ones that are known,
/// and nothing else.
pub proof fn law_marking_chunks_changes_their_status(
    m: Map<Seq<char>, ChunkIndexEntryView>,
    ids: Seq<Seq<char>>,
    id: Seq<char>,
)
    ensures
        ({
            let n = chunks_marked_deleted(m, ids);
            &&& n.contains_key(id) <==> m.contains_key(id)
            &&& m.contains_key(id) ==> {
                &&& n[id].status == if ids.contains(id) {
                    ChunkStatus::Deleted
                } else {
                    m[id].status
                }
                &&& n[id].s3_key == m[id].s3_key
                &&& n[id].space == m[id].space
                &&& n[id].table == m[id].table
                &&& n[id].key_min == m[id].key_min
                &&& n[id].key_max == m[id].key_max
                &&& n[id].bloom == m[id].bloom
                &&& n[id].etag == m[id].etag
                &&& n[id].size_bytes == m[id].size_bytes
                &&& n[id].commit_version_min == m[id].commit_version_min
                &&& n[id].commit_version_max == m[id].commit_version_max
            }
        }),
{
}

/// The pins of snapshots add up.
pub proof fn law_pins_add_up(rows: Seq<(u64, u64)>, row: (u64, u64))
    ensures
        row_sum(Seq::empty(), 0) == 0,
        row_sum(rows.push(row), rows.len() + 1) == row_sum(rows, rows.len()) + row.1,
{
    lemma_row_prefix(rows, rows.push(row), rows.len());
}

proof fn lemma_row_prefix(a: Seq<(u64, u64)>, b: Seq<(u64, u64)>, n: nat)
    requires
        n <= a.len() <= b.len(),
        forall|i: int| 0 <= i < a.len() ==> a[i] == b[i],
    ensures
        row_sum(a, n) == row_sum(b, n),
    decreases n,
{
    if n > 0 {
        lemma_row_prefix(a, b, (n - 1) as nat);
    }
}

// ----- keys -----

proof fn lemma_slash(s: Seq<char>, from: int)
    requires
        0 <= from <= s.len(),
    ensures
        match slash_from(s, from) {
            Some(i) => from <= i < s.len() && s[i] == '/' && forall|j: int|
                from <= j < i ==> #[trigger] s[j] != '/',
            None => forall|j: int| from <= j < s.len() ==> #[trigger] s[j] != '/',
        },
    decreases s.len() - from,
{
    if from < s.len() && s[from] != '/' {
        lemma_slash(s, from + 1);
    }
}

/// A key that parses is made of the prefix, a space and a table without a
/// slash, each with a slash behind it, and the record id, with `.json` behind it
/// or not. In the memtable it goes by these three; any other key goes by itself,
/// without space and table.
pub proof fn law_parsed_key_has_its_parts(key: Seq<char>)
    ensures
        match parsed_key(key) {
            Some(k) => {
                let bare = "_xtable/"@ + k.0 + "/"@ + k.1 + "/"@ + k.2;
                &&& key == bare || key == bare + ".json"@
                &&& !k.0.contains('/')
                &&& !k.1.contains('/')
                &&& memtable_key(key) == k
            },
            None => {
                let k = memtable_key(key);
                k.0.len() == 0 && k.1.len() == 0 && k.2 == key
            },
        },
{
    if let Some(k) = parsed_key(key) {
        reveal_strlit("/");
        let p = "_xtable/"@.len() as int;
        lemma_slash(key, p);
        let a = slash_from(key, p)->0;
        lemma_slash(key, a + 1);
        let b = slash_from(key, a + 1)->0;
        let rest = key.skip(b + 1);
        assert forall|i: int| 0 <= i < k.0.len() implies k.0[i] != '/' by {
            assert(k.0[i] == key[p + i]);
        }
        assert forall|i: int| 0 <= i < k.1.len() implies k.1[i] != '/' by {
            assert(k.1[i] == key[a + 1 + i]);
        }
        let head = "_xtable/"@ + k.0 + "/"@ + k.1 + "/"@;
        assert(key.take(p) == "_xtable/"@);
        assert(head =~= key.take(b + 1)) by {
            assert(key.take(b + 1) =~= key.take(p) + key.subrange(p, a) + key.subrange(a, a + 1)
                + key.subrange(a + 1, b) + key.subrange(b, b + 1));
            assert(key.subrange(a, a + 1) =~= "/"@);
            assert(key.subrange(b, b + 1) =~= "/"@);
        }
        assert(key =~= head + rest);
        let suffix = ".json"@;
        if rest.len() >= suffix.len() && rest.skip(rest.len() - suffix.len()) == suffix {
            assert(rest =~= k.2 + suffix);
            assert(head + (k.2 + suffix) =~= (head + k.2) + suffix);
        } else {
            assert(rest == k.2);
        }
    }
}

// ----- log records and errors -----

/// A log record is of the transaction that it names, and of none where it
/// notes a flush. It ends a transaction exactly if it says that this committed,
/// with what result, or aborted.
pub proof fn law_log_record_is_of_the_named_transaction(rec: WalRecordView, txn: Seq<char>)
    ensures
        record_txn(rec) == Some(txn) <==> names(rec, txn),
        record_txn(rec) is None <==> rec is MemtableFlushed,
        names(rec, txn) ==> (record_is_terminal(rec) <==> ends(rec, txn)),
{
}

/// A transaction error keeps its kind: conflicts and aborts are conflicts, and
/// a state that forbids an operation is internal. The text of the error is at
/// the end of the public one.
pub proof fn law_transaction_errors_keep_their_kind(e: TxnError)
    ensures
        e is Conflict || e is Aborted <==> public_error(e).0 == ErrorKind::Conflict,
        e is Expired <==> public_error(e).0 == ErrorKind::TxnExpired,
        e is UnknownTxn <==> public_error(e).0 == ErrorKind::UnknownTxn,
        e is Backend <==> public_error(e).0 == ErrorKind::Backend,
        e is Storage <==> public_error(e).0 == ErrorKind::Storage,
        e is InvalidState <==> public_error(e).0 == ErrorKind::Internal,
        e is UnknownTxn ==> public_error(e).1 == e->UnknownTxn_0@,
        e is Backend ==> public_error(e).1 == e->Backend_0@,
        e is Storage ==> public_error(e).1 == e->Storage_0@,
        e is Conflict ==> e->Conflict_0@.is_suffix_of(public_error(e).1),
        e is Aborted ==> e->Aborted_0@.is_suffix_of(public_error(e).1),
        e is InvalidState ==> e->InvalidState_0@.is_suffix_of(public_error(e).1),
{
    if e is Conflict {
        lemma_suffix("conflict on keys: "@, e->Conflict_0@);
    }
    if e is Aborted {
        lemma_suffix("aborted: "@, e->Aborted_0@);
    }
    if e is InvalidState {
        lemma_suffix("invalid state: "@, e->InvalidState_0@);
    }
}

proof fn lemma_suffix(a: Seq<char>, b: Seq<char>)
    ensures
        b.is_suffix_of(a + b),
{
    assert((a + b).subrange(a.len() as int, (a + b).len() as int) =~= b);
}

/// What the caller did wrong is reported as such: no argument that cannot be
/// used, no unknown or expired transaction and no conflict is a fault of the
/// server. All else is, and only a fault of the object store is one of a
/// gateway. The reports of the caller's errors differ.
pub proof fn law_errors_report_whose_fault_they_are(a: ErrorKind, b: ErrorKind)
    ensures
        a == ErrorKind::Conflict || a == ErrorKind::TxnExpired || a == ErrorKind::UnknownTxn || a
            == ErrorKind::InvalidArgument <==> 400 <= http_status_of(a) < 500,
        a == ErrorKind::Storage || a == ErrorKind::Internal || a == ErrorKind::Backend <==> 500
            <= http_status_of(a) < 600,
        a == ErrorKind::Backend <==> http_status_of(a) == 502,
        a == ErrorKind::Conflict <==> http_status_of(a) == 409,
        a == ErrorKind::TxnExpired <==> http_status_of(a) == 410,
        a == ErrorKind::UnknownTxn <==> http_status_of(a) == 404,
        a == ErrorKind::InvalidArgument <==> http_status_of(a) == 400,
        a != b && http_status_of(a) < 500 ==> http_status_of(a) != http_status_of(b),
{
}

} // verus!
