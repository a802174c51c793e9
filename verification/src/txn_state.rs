//! Transaction state and related record types.

use crate::text::{
    copy_bytes, copy_optional_bytes, copy_optional_text, copy_pairs, copy_texts, optional_bytes,
    optional_text, text_pairs, texts,
};
use crate::types::TxnStatus;
use crate::table::Row;
use vstd::prelude::*;

verus! {

/// Views of key and version pairs.
pub open spec fn text_versions(s: Seq<(String, u64)>) -> Seq<(Seq<char>, u64)> {
    s.map_values(|p: (String, u64)| (p.0@, p.1))
}

/// A copy of key and version pairs.
pub fn copy_text_versions(v: &Vec<(String, u64)>) -> (r: Vec<(String, u64)>)
    ensures
        r@ == v@,
{
    let mut out: Vec<(String, u64)> = Vec::new();
    let mut i: usize = 0;
    while i < v.len()
        invariant
            i <= v.len(),
            out@ == v@.take(i as int),
        decreases v.len() - i,
    {
        out.push((v[i].0.clone(), v[i].1));
        assert(v@.take(i as int + 1) =~= v@.take(i as int).push(v@[i as int]));
        i += 1;
    }
    assert(v@.take(i as int) =~= v@);
    out
}

/// Views of multipart parts.
pub open spec fn part_views(s: Seq<(i32, String, u64)>) -> Seq<(i32, Seq<char>, u64)> {
    s.map_values(|p: (i32, String, u64)| (p.0, p.1@, p.2))
}

/// A copy of multipart parts.
pub fn copy_parts(v: &Vec<(i32, String, u64)>) -> (r: Vec<(i32, String, u64)>)
    ensures
        r@ == v@,
{
    let mut out: Vec<(i32, String, u64)> = Vec::new();
    let mut i: usize = 0;
    while i < v.len()
        invariant
            i <= v.len(),
            out@ == v@.take(i as int),
        decreases v.len() - i,
    {
        out.push((v[i].0, v[i].1.clone(), v[i].2));
        assert(v@.take(i as int + 1) =~= v@.take(i as int).push(v@[i as int]));
        i += 1;
    }
    assert(v@.take(i as int) =~= v@);
    out
}

/// State of one transaction.
#[derive(Debug, PartialEq, Eq)]
pub struct TxnStateRecord {
    pub status: TxnStatus,
    /// Version that the transaction reads at.
    pub snapshot_version: u64,
    pub started_at_ms: i64,
    pub last_heartbeat_ms: i64,
    pub idempotency_key: Option<String>,
    pub read_keys: Vec<String>,
    pub write_keys: Vec<String>,
    /// Versions allocated at commit, per key.
    pub alloc_versions: Vec<(String, u64)>,
    pub uploaded_keys: Vec<String>,
}

/// Mathematical view of [`TxnStateRecord`].
pub ghost struct TxnStateRecordView {
    pub status: TxnStatus,
    pub snapshot_version: u64,
    pub started_at_ms: i64,
    pub last_heartbeat_ms: i64,
    pub idempotency_key: Option<Seq<char>>,
    pub read_keys: Seq<Seq<char>>,
    pub write_keys: Seq<Seq<char>>,
    pub alloc_versions: Seq<(Seq<char>, u64)>,
    pub uploaded_keys: Seq<Seq<char>>,
}

impl View for TxnStateRecord {
    type V = TxnStateRecordView;

    open spec fn view(&self) -> TxnStateRecordView {
        TxnStateRecordView {
            status: self.status,
            snapshot_version: self.snapshot_version,
            started_at_ms: self.started_at_ms,
            last_heartbeat_ms: self.last_heartbeat_ms,
            idempotency_key: optional_text(self.idempotency_key),
            read_keys: texts(self.read_keys@),
            write_keys: texts(self.write_keys@),
            alloc_versions: text_versions(self.alloc_versions@),
            uploaded_keys: texts(self.uploaded_keys@),
        }
    }
}

impl Clone for TxnStateRecord {
    fn clone(&self) -> (r: Self)
        ensures
            r@ == self@,
    {
        TxnStateRecord {
            status: self.status,
            snapshot_version: self.snapshot_version,
            started_at_ms: self.started_at_ms,
            last_heartbeat_ms: self.last_heartbeat_ms,
            idempotency_key: copy_optional_text(&self.idempotency_key),
            read_keys: copy_texts(&self.read_keys),
            write_keys: copy_texts(&self.write_keys),
            alloc_versions: copy_text_versions(&self.alloc_versions),
            uploaded_keys: copy_texts(&self.uploaded_keys),
        }
    }
}

/// A transaction that has just begun.
pub open spec fn active_state(
    snapshot_version: u64,
    idempotency_key: Option<Seq<char>>,
    now_ms: i64,
) -> TxnStateRecordView {
    TxnStateRecordView {
        status: TxnStatus::Active,
        snapshot_version,
        started_at_ms: now_ms,
        last_heartbeat_ms: now_ms,
        idempotency_key,
        read_keys: Seq::empty(),
        write_keys: Seq::empty(),
        alloc_versions: Seq::empty(),
        uploaded_keys: Seq::empty(),
    }
}

impl TxnStateRecord {
    /// A transaction that begins at `now_ms` and reads at `snapshot_version`.
    pub fn new_active(
        snapshot_version: u64,
        idempotency_key: Option<String>,
        now_ms: i64,
    ) -> (r: Self)
        ensures
            r@ == active_state(snapshot_version, optional_text(idempotency_key), now_ms),
    {
        let r = TxnStateRecord {
            status: TxnStatus::Active,
            snapshot_version,
            started_at_ms: now_ms,
            last_heartbeat_ms: now_ms,
            idempotency_key,
            read_keys: Vec::new(),
            write_keys: Vec::new(),
            alloc_versions: Vec::new(),
            uploaded_keys: Vec::new(),
        };
        assert(r@.read_keys =~= Seq::empty());
        assert(r@.write_keys =~= Seq::empty());
        assert(r@.alloc_versions =~= Seq::empty());
        assert(r@.uploaded_keys =~= Seq::empty());
        r
    }
}

/// What a transaction observed of one key.
#[derive(Debug, PartialEq, Eq)]
pub struct ReadSetEntry {
    pub version_observed: u64,
    pub etag_observed: String,
}

/// Mathematical view of [`ReadSetEntry`].
pub ghost struct ReadSetEntryView {
    pub version_observed: u64,
    pub etag_observed: Seq<char>,
}

impl View for ReadSetEntry {
    type V = ReadSetEntryView;

    open spec fn view(&self) -> ReadSetEntryView {
        ReadSetEntryView {
            version_observed: self.version_observed,
            etag_observed: self.etag_observed@,
        }
    }
}

impl Clone for ReadSetEntry {
    fn clone(&self) -> (r: Self)
        ensures
            r@ == self@,
    {
        ReadSetEntry {
            version_observed: self.version_observed,
            etag_observed: self.etag_observed.clone(),
        }
    }
}

/// One staged write.
#[derive(Debug, PartialEq, Eq)]
pub struct WriteSetEntry {
    pub backend_key: String,
    /// Handle of the spill file, for a large body.
    pub body_handle: Option<String>,
    /// The body itself, unless it was spilled.
    pub inline_body: Option<Vec<u8>>,
    pub size: u64,
    pub content_type: Option<String>,
    pub user_meta: Vec<(String, String)>,
    /// Snapshot of the transaction, against which the write is checked.
    pub version_at_read: u64,
    /// True if this staged write is a delete.
    pub deleted: bool,
}

/// Mathematical view of [`WriteSetEntry`].
pub ghost struct WriteSetEntryView {
    pub backend_key: Seq<char>,
    pub body_handle: Option<Seq<char>>,
    pub inline_body: Option<Seq<u8>>,
    pub size: u64,
    pub content_type: Option<Seq<char>>,
    pub user_meta: Seq<(Seq<char>, Seq<char>)>,
    pub version_at_read: u64,
    pub deleted: bool,
}

impl View for WriteSetEntry {
    type V = WriteSetEntryView;

    open spec fn view(&self) -> WriteSetEntryView {
        WriteSetEntryView {
            backend_key: self.backend_key@,
            body_handle: optional_text(self.body_handle),
            inline_body: optional_bytes(self.inline_body),
            size: self.size,
            content_type: optional_text(self.content_type),
            user_meta: text_pairs(self.user_meta@),
            version_at_read: self.version_at_read,
            deleted: self.deleted,
        }
    }
}

impl Clone for WriteSetEntry {
    fn clone(&self) -> (r: Self)
        ensures
            r@ == self@,
    {
        WriteSetEntry {
            backend_key: self.backend_key.clone(),
            body_handle: copy_optional_text(&self.body_handle),
            inline_body: copy_optional_bytes(&self.inline_body),
            size: self.size,
            content_type: copy_optional_text(&self.content_type),
            user_meta: copy_pairs(&self.user_meta),
            version_at_read: self.version_at_read,
            deleted: self.deleted,
        }
    }
}

/// A spill file that holds a staged body.
#[derive(Debug, PartialEq, Eq)]
pub struct BlobRecord {
    pub path: String,
    pub size: u64,
    pub sha256: String,
    pub created_at_ms: i64,
}

/// Mathematical view of [`BlobRecord`].
pub ghost struct BlobRecordView {
    pub path: Seq<char>,
    pub size: u64,
    pub sha256: Seq<char>,
    pub created_at_ms: i64,
}

impl View for BlobRecord {
    type V = BlobRecordView;

    open spec fn view(&self) -> BlobRecordView {
        BlobRecordView {
            path: self.path@,
            size: self.size,
            sha256: self.sha256@,
            created_at_ms: self.created_at_ms,
        }
    }
}

impl Clone for BlobRecord {
    fn clone(&self) -> (r: Self)
        ensures
            r@ == self@,
    {
        BlobRecord {
            path: self.path.clone(),
            size: self.size,
            sha256: self.sha256.clone(),
            created_at_ms: self.created_at_ms,
        }
    }
}

/// An in-flight multipart upload.
#[derive(Debug, PartialEq, Eq)]
pub struct MultipartState {
    pub upload_id: String,
    pub key: String,
    pub backend_upload_id: String,
    /// Part number, etag and size of each part.
    pub parts: Vec<(i32, String, u64)>,
    /// `None` outside a transaction.
    pub txn_id: Option<String>,
}

/// Mathematical view of [`MultipartState`].
pub ghost struct MultipartStateView {
    pub upload_id: Seq<char>,
    pub key: Seq<char>,
    pub backend_upload_id: Seq<char>,
    pub parts: Seq<(i32, Seq<char>, u64)>,
    pub txn_id: Option<Seq<char>>,
}

impl View for MultipartState {
    type V = MultipartStateView;

    open spec fn view(&self) -> MultipartStateView {
        MultipartStateView {
            upload_id: self.upload_id@,
            key: self.key@,
            backend_upload_id: self.backend_upload_id@,
            parts: part_views(self.parts@),
            txn_id: optional_text(self.txn_id),
        }
    }
}

impl Clone for MultipartState {
    fn clone(&self) -> (r: Self)
        ensures
            r@ == self@,
    {
        MultipartState {
            upload_id: self.upload_id.clone(),
            key: self.key.clone(),
            backend_upload_id: self.backend_upload_id.clone(),
            parts: copy_parts(&self.parts),
            txn_id: copy_optional_text(&self.txn_id),
        }
    }
}

/// Row of the record index: enough to resolve a read of a structured record
/// through the chunk that holds it.
#[derive(Debug, PartialEq, Eq)]
pub struct RecordIndexEntry {
    /// Commit version at which this row became valid.
    pub commit_version: u64,
    /// Tombstone flag.
    pub deleted: bool,
    /// Chunk that holds the body.
    pub chunk_id: String,
    /// Schema version that the record conforms to.
    pub schema_version: u32,
    /// Transaction that produced the row.
    pub txn_id: String,
    pub updated_ms: i64,
}

/// Mathematical view of [`RecordIndexEntry`].
pub ghost struct RecordIndexEntryView {
    pub commit_version: u64,
    pub deleted: bool,
    pub chunk_id: Seq<char>,
    pub schema_version: u32,
    pub txn_id: Seq<char>,
    pub updated_ms: i64,
}

impl View for RecordIndexEntry {
    type V = RecordIndexEntryView;

    open spec fn view(&self) -> RecordIndexEntryView {
        RecordIndexEntryView {
            commit_version: self.commit_version,
            deleted: self.deleted,
            chunk_id: self.chunk_id@,
            schema_version: self.schema_version,
            txn_id: self.txn_id@,
            updated_ms: self.updated_ms,
        }
    }
}

impl Clone for RecordIndexEntry {
    fn clone(&self) -> (r: Self)
        ensures
            r@ == self@,
    {
        RecordIndexEntry {
            commit_version: self.commit_version,
            deleted: self.deleted,
            chunk_id: self.chunk_id.clone(),
            schema_version: self.schema_version,
            txn_id: self.txn_id.clone(),
            updated_ms: self.updated_ms,
        }
    }
}

/// Latest known schema document of a space and name.
#[derive(Debug, PartialEq, Eq)]
pub struct SchemaIndexEntry {
    /// Latest registered version, from 1 on.
    pub latest_version: u32,
    /// Key of the latest document.
    pub latest_backend_key: String,
    pub registered_ms: i64,
}

/// Mathematical view of [`SchemaIndexEntry`].
pub ghost struct SchemaIndexEntryView {
    pub latest_version: u32,
    pub latest_backend_key: Seq<char>,
    pub registered_ms: i64,
}

impl View for SchemaIndexEntry {
    type V = SchemaIndexEntryView;

    open spec fn view(&self) -> SchemaIndexEntryView {
        SchemaIndexEntryView {
            latest_version: self.latest_version,
            latest_backend_key: self.latest_backend_key@,
            registered_ms: self.registered_ms,
        }
    }
}

impl Clone for SchemaIndexEntry {
    fn clone(&self) -> (r: Self)
        ensures
            r@ == self@,
    {
        SchemaIndexEntry {
            latest_version: self.latest_version,
            latest_backend_key: self.latest_backend_key.clone(),
            registered_ms: self.registered_ms,
        }
    }
}

/// Latest row of a record: the index entry, and the JSON text of the body where
/// the row carries one. An empty text stands for a tombstone.
#[derive(Debug, PartialEq, Eq)]
pub struct StoredRecord {
    pub entry: RecordIndexEntry,
    pub body_json: Option<String>,
}

/// Mathematical view of [`StoredRecord`].
pub ghost struct StoredRecordView {
    pub entry: RecordIndexEntryView,
    pub body_json: Option<Seq<char>>,
}

impl View for StoredRecord {
    type V = StoredRecordView;

    open spec fn view(&self) -> StoredRecordView {
        StoredRecordView {
            entry: self.entry@,
            body_json: optional_text(self.body_json),
        }
    }
}

impl Clone for StoredRecord {
    fn clone(&self) -> (r: Self)
        ensures
            r@ == self@,
    {
        StoredRecord {
            entry: self.entry.clone(),
            body_json: copy_optional_text(&self.body_json),
        }
    }
}

/// One historical version of a record.
#[derive(Debug, PartialEq, Eq)]
pub struct StoredRecordVersion {
    pub entry: RecordIndexEntry,
    pub body: Vec<u8>,
}

/// Mathematical view of [`StoredRecordVersion`].
pub ghost struct StoredRecordVersionView {
    pub entry: RecordIndexEntryView,
    pub body: Seq<u8>,
}

impl View for StoredRecordVersion {
    type V = StoredRecordVersionView;

    open spec fn view(&self) -> StoredRecordVersionView {
        StoredRecordVersionView {
            entry: self.entry@,
            body: self.body@,
        }
    }
}

impl Clone for StoredRecordVersion {
    fn clone(&self) -> (r: Self)
        ensures
            r@ == self@,
    {
        StoredRecordVersion {
            entry: self.entry.clone(),
            body: copy_bytes(self.body.as_slice()),
        }
    }
}

impl Row for TxnStateRecord {
    fn copy_row(&self) -> (r: Self) {
        self.clone()
    }
}

impl Row for WriteSetEntry {
    fn copy_row(&self) -> (r: Self) {
        self.clone()
    }
}

impl Row for BlobRecord {
    fn copy_row(&self) -> (r: Self) {
        self.clone()
    }
}

impl Row for MultipartState {
    fn copy_row(&self) -> (r: Self) {
        self.clone()
    }
}

impl Row for SchemaIndexEntry {
    fn copy_row(&self) -> (r: Self) {
        self.clone()
    }
}

impl Row for StoredRecord {
    fn copy_row(&self) -> (r: Self) {
        self.clone()
    }
}

impl Row for StoredRecordVersion {
    fn copy_row(&self) -> (r: Self) {
        self.clone()
    }
}

} // verus!
