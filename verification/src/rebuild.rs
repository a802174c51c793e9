//! Cold rebuild: when the local store is lost, it is restored from the chunk
//! objects.
//!
//! Chunks are the only durable place of structured records. Each chunk object
//! is decoded; its entries give the record index, the version index, the
//! version chains and the record history, and the chunk itself enters the
//! chunk index. Objects that are no chunks, could not be fetched or do not
//! decode are passed over.
//!
//! Version records and chain entries point to the object key of the chunk that
//! holds the body.

use crate::cf::ChunkStatus;
use crate::chunk::{
    decode_body_entries, decompress_body, entry_views, p_body, p_entries, p_file_footer, p_header,
    read_footer, ChunkEntry, ChunkEntryView, ChunkHeader, ChunkHeaderView, ChunkIndexEntry,
    ChunkIndexEntryView,
};
use crate::order::{same_text, KeyOrder};
use crate::outside::now_ms;
use crate::record_key::{record_key, record_key_text};
use crate::store::{insert_all, LocalStore, RecordId, RecordVersionId, StoreView};
use crate::store_chains::{bulk_result, update_views, ChainUpdate};
use crate::store_records::{version_rows, VersionUpdate};
use crate::table::{
    lemma_finite_listing, lemma_listed, lemma_listing, listing, pair_views, rows_map, Row, Table,
    TableKey,
};
use crate::text::{copy_bytes, copy_optional_text, copy_pairs, join2};
use crate::txn_state::{
    RecordIndexEntry, RecordIndexEntryView, StoredRecordVersionView, StoredRecordView,
};
use crate::types::{ErrorKind, ObjectKey, Version, XtableError, XtableResult};
use crate::version_chain::{VersionEntry, VersionEntryView};
use crate::version_index::{VersionRecord, VersionRecordView};
use vstd::prelude::*;
use vstd::string::*;

verus! {

/// Suffix of chunk objects.
pub const CHUNK_SUFFIX: &'static str = ".xtc";

/// Counts that a rebuild reports.
#[derive(Debug, Clone, Copy, PartialEq, Eq, Structural)]
pub struct RebuildReport {
    pub objects_scanned: usize,
    pub versions_rebuilt: usize,
    pub orphans_deleted: usize,
}

impl Default for RebuildReport {
    fn default() -> (r: Self)
        ensures
            r == (RebuildReport { objects_scanned: 0, versions_rebuilt: 0, orphans_deleted: 0 }),
    {
        RebuildReport { objects_scanned: 0, versions_rebuilt: 0, orphans_deleted: 0 }
    }
}

/// An object of the object store, with its bytes where they were fetched.
#[derive(Debug)]
pub struct ListedObject {
    pub key: String,
    pub size: u64,
    pub etag: String,
    pub bytes: Option<Vec<u8>>,
}

/// Mathematical view of a [`ListedObject`].
pub ghost struct ListedObjectView {
    pub key: Seq<char>,
    pub size: u64,
    pub etag: Seq<char>,
    pub bytes: Option<Seq<u8>>,
}

impl View for ListedObject {
    type V = ListedObjectView;

    open spec fn view(&self) -> ListedObjectView {
        ListedObjectView {
            key: self.key@,
            size: self.size,
            etag: self.etag@,
            bytes: match self.bytes {
                Some(b) => Some(b@),
                None => None,
            },
        }
    }
}

/// Views of objects.
pub open spec fn object_views(s: Seq<ListedObject>) -> Seq<ListedObjectView> {
    s.map_values(|o: ListedObject| o@)
}

/// The key is that of a chunk object.
pub open spec fn chunk_key(key: Seq<char>) -> bool {
    key.len() >= CHUNK_SUFFIX@.len() && key.skip(key.len() - CHUNK_SUFFIX@.len())
        == CHUNK_SUFFIX@
}

/// A chunk that was read: header, entries in file order, and bloom filter.
pub ghost struct ReadChunkView {
    pub header: ChunkHeaderView,
    pub entries: Seq<ChunkEntryView>,
    pub bloom: Option<Seq<u8>>,
}

/// The chunk that an object holds, if it is one and was fetched.
#[verifier::opaque]
pub open spec fn chunk_of(o: ListedObjectView) -> Option<ReadChunkView> {
    if !chunk_key(o.key) || o.bytes is None {
        None
    } else {
        let file = o.bytes->0;
        match (p_header(file), p_body(file)) {
            (Some((header, _)), Some(body)) => match p_entries(body, Seq::empty()) {
                Some(entries) => Some(
                    ReadChunkView {
                        header,
                        entries,
                        bloom: match p_file_footer(file) {
                            Some(f) => Some(f.bloom),
                            None => None,
                        },
                    },
                ),
                None => None,
            },
            _ => None,
        }
    }
}

/// Lowest version among the first `n` entries, `u64::MAX` if there is none.
pub open spec fn lowest_version(es: Seq<ChunkEntryView>, n: nat) -> u64
    decreases n,
{
    if n == 0 {
        u64::MAX
    } else {
        let low = lowest_version(es, (n - 1) as nat);
        if es[n - 1].commit_version < low {
            es[n - 1].commit_version
        } else {
            low
        }
    }
}

/// Highest version among the first `n` entries, 0 if there is none.
pub open spec fn highest_version(es: Seq<ChunkEntryView>, n: nat) -> u64
    decreases n,
{
    if n == 0 {
        0
    } else {
        let high = highest_version(es, (n - 1) as nat);
        if es[n - 1].commit_version > high {
            es[n - 1].commit_version
        } else {
            high
        }
    }
}

/// Chunk index entry of a chunk that was read.
pub open spec fn rebuilt_chunk_entry(o: ListedObjectView, c: ReadChunkView) -> ChunkIndexEntryView {
    ChunkIndexEntryView {
        s3_key: o.key,
        space: c.header.space,
        table: c.header.table,
        shard: 0,
        key_min: c.header.key_min,
        key_max: c.header.key_max,
        commit_version_min: lowest_version(c.entries, c.entries.len()),
        commit_version_max: highest_version(c.entries, c.entries.len()),
        wal_seq_first: if c.entries.len() > 0 {
            c.entries[0].wal_seq
        } else {
            0
        },
        wal_seq_last: if c.entries.len() > 0 {
            c.entries.last().wal_seq
        } else {
            0
        },
        sha256_body: Seq::empty(),
        size_bytes: o.size,
        etag: o.etag,
        bloom: c.bloom,
        flushed_at_ms: c.header.created_at_ms,
        status: ChunkStatus::Live,
    }
}

/// One version of a record, with the chunk that holds it.
pub ghost struct FoundVersionView {
    pub entry: ChunkEntryView,
    pub chunk_s3_key: Seq<char>,
    pub chunk_id: Seq<char>,
    pub etag: Seq<char>,
}

/// Record of a found version.
pub open spec fn found_record(h: FoundVersionView) -> RecordId {
    (h.entry.space, h.entry.table, h.entry.record_id)
}

/// Record and version of a found version.
pub open spec fn found_id(h: FoundVersionView) -> RecordVersionId {
    (h.entry.space, h.entry.table, h.entry.record_id, h.entry.commit_version)
}

/// Versions in the entries of a chunk.
pub open spec fn found_in(o: ListedObjectView, c: ReadChunkView) -> Seq<FoundVersionView> {
    c.entries.map_values(
        |e: ChunkEntryView|
            FoundVersionView {
                entry: e,
                chunk_s3_key: o.key,
                chunk_id: c.header.chunk_id,
                etag: o.etag,
            },
    )
}

/// Chunk index rows of the first `n` objects.
pub open spec fn found_chunks(objects: Seq<ListedObjectView>, n: nat) -> Seq<
    (Seq<char>, ChunkIndexEntryView),
>
    decreases n,
{
    if n == 0 {
        Seq::empty()
    } else {
        let done = found_chunks(objects, (n - 1) as nat);
        match chunk_of(objects[n - 1]) {
            Some(c) => done.push((c.header.chunk_id, rebuilt_chunk_entry(objects[n - 1], c))),
            None => done,
        }
    }
}

/// Versions in the first `n` objects.
pub open spec fn found_versions(objects: Seq<ListedObjectView>, n: nat) -> Seq<FoundVersionView>
    decreases n,
{
    if n == 0 {
        Seq::empty()
    } else {
        let done = found_versions(objects, (n - 1) as nat);
        match chunk_of(objects[n - 1]) {
            Some(c) => done + found_in(objects[n - 1], c),
            None => done,
        }
    }
}

/// Highest version among the first `n` found, 0 if there is none.
pub open spec fn found_max(hs: Seq<FoundVersionView>, n: nat) -> u64
    decreases n,
{
    if n == 0 {
        0
    } else {
        let m = found_max(hs, (n - 1) as nat);
        if hs[n - 1].entry.commit_version > m {
            hs[n - 1].entry.commit_version
        } else {
            m
        }
    }
}

/// Latest of the first `n` found versions, per record. Of equal ones the first
/// stays.
pub open spec fn found_latest(hs: Seq<FoundVersionView>, n: nat) -> Map<RecordId, FoundVersionView>
    decreases n,
{
    if n == 0 {
        Map::empty()
    } else {
        let m = found_latest(hs, (n - 1) as nat);
        let h = hs[n - 1];
        let k = found_record(h);
        if m.contains_key(k) && h.entry.commit_version <= m[k].entry.commit_version {
            m
        } else {
            m.insert(k, h)
        }
    }
}

/// `a` comes before `b`: by record, then by version.
pub open spec fn found_before(a: FoundVersionView, b: FoundVersionView) -> bool {
    <(String, String, String, u64)>::before(found_id(a), found_id(b))
}

/// Inserts behind everything that does not come after.
pub open spec fn insert_found(s: Seq<FoundVersionView>, h: FoundVersionView) -> Seq<FoundVersionView>
    decreases s.len(),
{
    if s.len() > 0 && found_before(h, s.last()) {
        insert_found(s.drop_last(), h).push(s.last())
    } else {
        s.push(h)
    }
}

/// The first `n` found versions by record and version; equal ones keep their
/// order.
pub open spec fn sort_found(s: Seq<FoundVersionView>, n: nat) -> Seq<FoundVersionView>
    decreases n,
{
    if n == 0 {
        Seq::empty()
    } else {
        insert_found(sort_found(s, (n - 1) as nat), s[n - 1])
    }
}

/// Record index entry of a found version.
pub open spec fn found_index_entry(h: FoundVersionView, now: i64) -> RecordIndexEntryView {
    RecordIndexEntryView {
        commit_version: h.entry.commit_version,
        deleted: h.entry.deleted,
        chunk_id: h.chunk_id,
        schema_version: h.entry.schema_version,
        txn_id: h.entry.txn_id,
        updated_ms: now,
    }
}

/// Version record of a found version.
pub open spec fn found_version_record(h: FoundVersionView, now: i64) -> VersionRecordView {
    VersionRecordView {
        latest_version: Version(h.entry.commit_version),
        latest_etag: h.etag,
        latest_backend_key: h.chunk_s3_key,
        last_writer_txn_id: h.entry.txn_id,
        tombstone: h.entry.deleted,
        size: h.entry.value.len() as u64,
        last_modified_unix_ms: now,
    }
}

/// Chain entry of a found version.
pub open spec fn found_chain_entry(h: FoundVersionView, now: i64) -> VersionEntryView {
    VersionEntryView {
        commit_version: h.entry.commit_version,
        etag: h.etag,
        backend_key: h.chunk_s3_key,
        txn_id: h.entry.txn_id,
        size: h.entry.value.len() as u64,
        content_type: h.entry.content_type,
        user_meta: h.entry.user_meta,
        deleted: h.entry.deleted,
        created_ms: now,
    }
}

/// Key of a record in the version index and the chains.
pub open spec fn found_key(h: FoundVersionView) -> Seq<char> {
    record_key_text(h.entry.space, h.entry.table, h.entry.record_id)
}

/// History rows of found versions.
pub open spec fn history_rows(hs: Seq<FoundVersionView>, now: i64) -> Seq<
    (RecordVersionId, StoredRecordVersionView),
> {
    hs.map_values(
        |h: FoundVersionView|
            (
                found_id(h),
                StoredRecordVersionView { entry: found_index_entry(h, now), body: h.entry.value },
            ),
    )
}

/// Chain updates of found versions. They never conflict with a snapshot.
pub open spec fn chain_updates(hs: Seq<FoundVersionView>, now: i64) -> Seq<ChainUpdate> {
    hs.map_values(
        |h: FoundVersionView| (found_key(h), found_chain_entry(h, now), u64::MAX),
    )
}

/// Record index rows of the latest versions.
pub open spec fn latest_records(rows: Seq<(RecordId, FoundVersionView)>, now: i64) -> Seq<
    (RecordId, StoredRecordView),
> {
    rows.map_values(
        |r: (RecordId, FoundVersionView)|
            (r.0, StoredRecordView { entry: found_index_entry(r.1, now), body_json: None }),
    )
}

/// Version index rows of the latest versions.
pub open spec fn latest_versions(rows: Seq<(RecordId, FoundVersionView)>, now: i64) -> Seq<
    (Seq<char>, VersionRecordView),
> {
    rows.map_values(
        |r: (RecordId, FoundVersionView)| (found_key(r.1), found_version_record(r.1, now)),
    )
}

/// The latest version of each record, in the order of the records.
pub open spec fn latest_rows(hs: Seq<FoundVersionView>) -> Seq<(RecordId, FoundVersionView)> {
    listing::<(String, String, String), FoundVersionView>(found_latest(hs, hs.len()))
}

/// Store after a rebuild, up to the chains.
pub open spec fn restored(s: StoreView, objects: Seq<ListedObjectView>, now: i64) -> StoreView {
    let chunks = found_chunks(objects, objects.len());
    let hs = found_versions(objects, objects.len());
    let rows = latest_rows(hs);
    let history = history_rows(sort_found(hs, hs.len()), now);
    StoreView {
        chunks: insert_all(s.chunks, chunks, chunks.len()),
        records: insert_all(s.records, latest_records(rows, now), rows.len()),
        versions: insert_all(s.versions, latest_versions(rows, now), rows.len()),
        record_versions: insert_all(s.record_versions, history, history.len()),
        ..s
    }
}

/// Store after a rebuild, or the error of its chain append.
pub open spec fn rebuilt(s: StoreView, objects: Seq<ListedObjectView>, now: i64) -> (
    StoreView,
    Result<(), (ErrorKind, Seq<char>)>,
) {
    let hs = found_versions(objects, objects.len());
    let r = restored(s, objects, now);
    match bulk_result(r.chains, chain_updates(sort_found(hs, hs.len()), now)) {
        Err(e) => (r, Err(e)),
        Ok(chains) => (
            StoreView { chains, global_version: found_max(hs, hs.len()), ..r },
            Ok(()),
        ),
    }
}

/// One version of a record, with the chunk that holds it.
pub struct FoundVersion {
    pub entry: ChunkEntry,
    pub chunk_s3_key: String,
    pub chunk_id: String,
    pub etag: String,
}

impl View for FoundVersion {
    type V = FoundVersionView;

    open spec fn view(&self) -> FoundVersionView {
        FoundVersionView {
            entry: self.entry@,
            chunk_s3_key: self.chunk_s3_key@,
            chunk_id: self.chunk_id@,
            etag: self.etag@,
        }
    }
}

impl Row for FoundVersion {
    fn copy_row(&self) -> (r: Self) {
        FoundVersion {
            entry: self.entry.clone(),
            chunk_s3_key: self.chunk_s3_key.clone(),
            chunk_id: self.chunk_id.clone(),
            etag: self.etag.clone(),
        }
    }
}

/// Views of found versions.
pub open spec fn found_views(s: Seq<FoundVersion>) -> Seq<FoundVersionView> {
    s.map_values(|h: FoundVersion| h@)
}

/// Whether the key is that of a chunk object.
pub fn is_chunk_key(key: &str) -> (r: bool)
    ensures
        r == chunk_key(key@),
{
    let n = key.unicode_len();
    let m = CHUNK_SUFFIX.unicode_len();
    if n < m {
        return false;
    }
    let tail = key.substring_char(n - m, n);
    assert(tail@ =~= key@.skip(n - m));
    same_text(tail, CHUNK_SUFFIX)
}

/// A chunk that was read.
pub struct ReadChunk {
    pub header: ChunkHeader,
    pub entries: Vec<ChunkEntry>,
    pub bloom: Option<Vec<u8>>,
}

impl View for ReadChunk {
    type V = ReadChunkView;

    open spec fn view(&self) -> ReadChunkView {
        ReadChunkView {
            header: self.header@,
            entries: entry_views(self.entries@),
            bloom: match self.bloom {
                Some(b) => Some(b@),
                None => None,
            },
        }
    }
}

/// The chunk that an object holds, if it is one and was fetched.
pub fn read_chunk(o: &ListedObject) -> (r: Option<ReadChunk>)
    ensures
        match r {
            Some(c) => chunk_of(o@) == Some(c@),
            None => chunk_of(o@) is None,
        },
{
    proof {
        reveal(chunk_of);
    }
    if !is_chunk_key(o.key.as_str()) {
        return None;
    }
    let file = match &o.bytes {
        Some(b) => b.as_slice(),
        None => {
            return None;
        },
    };
    let header = match ChunkHeader::decode(file) {
        Ok((h, _)) => h,
        Err(_) => {
            return None;
        },
    };
    let body = match decompress_body(file) {
        Ok(b) => b,
        Err(_) => {
            return None;
        },
    };
    let entries = match decode_body_entries(body.as_slice(), header.record_count) {
        Ok(es) => es,
        Err(_) => {
            return None;
        },
    };
    let bloom: Option<Vec<u8>> = match read_footer(file) {
        Ok(f) => Some(f.bloom),
        Err(_) => None,
    };
    Some(ReadChunk { header, entries, bloom })
}

/// Lowest and highest version of the entries.
pub fn version_range(es: &Vec<ChunkEntry>) -> (r: (u64, u64))
    ensures
        r.0 == lowest_version(entry_views(es@), es@.len()),
        r.1 == highest_version(entry_views(es@), es@.len()),
{
    let ghost views = entry_views(es@);
    let mut low: u64 = u64::MAX;
    let mut high: u64 = 0;
    let mut i: usize = 0;
    while i < es.len()
        invariant
            i <= es.len(),
            views == entry_views(es@),
            low == lowest_version(views, i as nat),
            high == highest_version(views, i as nat),
        decreases es.len() - i,
    {
        assert(views[i as int] == es@[i as int]@);
        if es[i].commit_version < low {
            low = es[i].commit_version;
        }
        if es[i].commit_version > high {
            high = es[i].commit_version;
        }
        i += 1;
    }
    (low, high)
}

/// Chunk index entry of a chunk that was read.
fn chunk_index_entry(o: &ListedObject, c: &ReadChunk) -> (r: ChunkIndexEntry)
    ensures
        r@ == rebuilt_chunk_entry(o@, c@),
{
    let n = c.entries.len();
    let (low, high) = version_range(&c.entries);
    let first: u64 = if n > 0 {
        c.entries[0].wal_seq
    } else {
        0
    };
    let last: u64 = if n > 0 {
        c.entries[n - 1].wal_seq
    } else {
        0
    };
    let ghost es = entry_views(c.entries@);
    assert(n > 0 ==> es[0] == c.entries@[0]@ && es.last() == c.entries@[n - 1]@);
    let bloom: Option<Vec<u8>> = match &c.bloom {
        Some(b) => Some(copy_bytes(b.as_slice())),
        None => None,
    };
    let r = ChunkIndexEntry {
        s3_key: o.key.clone(),
        space: c.header.space.clone(),
        table: c.header.table.clone(),
        shard: 0,
        key_min: copy_bytes(c.header.key_min.as_slice()),
        key_max: copy_bytes(c.header.key_max.as_slice()),
        commit_version_min: low,
        commit_version_max: high,
        wal_seq_first: first,
        wal_seq_last: last,
        sha256_body: String::new(),
        size_bytes: o.size,
        etag: o.etag.clone(),
        bloom,
        flushed_at_ms: c.header.created_at_ms,
        status: ChunkStatus::Live,
    };
    assert(r@.sha256_body =~= Seq::empty());
    r
}

/// Record index entry of a found version.
fn record_index_from_entry(h: &FoundVersion, now_ms: i64) -> (r: RecordIndexEntry)
    ensures
        r@ == found_index_entry(h@, now_ms),
{
    RecordIndexEntry {
        commit_version: h.entry.commit_version,
        deleted: h.entry.deleted,
        chunk_id: h.chunk_id.clone(),
        schema_version: h.entry.schema_version,
        txn_id: h.entry.txn_id.clone(),
        updated_ms: now_ms,
    }
}

/// Version record of a found version.
fn version_record_from_entry(h: &FoundVersion, now_ms: i64) -> (r: VersionRecord)
    ensures
        r@ == found_version_record(h@, now_ms),
{
    VersionRecord {
        latest_version: Version(h.entry.commit_version),
        latest_etag: h.etag.clone(),
        latest_backend_key: h.chunk_s3_key.clone(),
        last_writer_txn_id: h.entry.txn_id.clone(),
        tombstone: h.entry.deleted,
        size: h.entry.value.len() as u64,
        last_modified_unix_ms: now_ms,
    }
}

/// Chain entry of a found version.
fn version_entry_from_entry(h: &FoundVersion, now_ms: i64) -> (r: VersionEntry)
    ensures
        r@ == found_chain_entry(h@, now_ms),
{
    VersionEntry {
        commit_version: h.entry.commit_version,
        etag: h.etag.clone(),
        backend_key: h.chunk_s3_key.clone(),
        txn_id: h.entry.txn_id.clone(),
        size: h.entry.value.len() as u64,
        content_type: copy_optional_text(&h.entry.content_type),
        user_meta: copy_pairs(&h.entry.user_meta),
        deleted: h.entry.deleted,
        created_ms: now_ms,
    }
}

/// What the objects hold: chunk index rows, and versions of records.
pub struct Found {
    pub chunks: Vec<(String, ChunkIndexEntry)>,
    pub versions: Vec<FoundVersion>,
}

/// Reads all objects.
pub fn scan_objects(objects: &Vec<ListedObject>) -> (r: Found)
    ensures
        pair_views(r.chunks@) == found_chunks(object_views(objects@), objects@.len()),
        found_views(r.versions@) == found_versions(object_views(objects@), objects@.len()),
{
    let ghost views = object_views(objects@);
    let mut chunks: Vec<(String, ChunkIndexEntry)> = Vec::new();
    let mut versions: Vec<FoundVersion> = Vec::new();
    let mut i: usize = 0;
    assert(pair_views(chunks@) =~= Seq::empty());
    assert(found_views(versions@) =~= Seq::empty());
    while i < objects.len()
        invariant
            i <= objects.len(),
            views == object_views(objects@),
            pair_views(chunks@) == found_chunks(views, i as nat),
            found_views(versions@) == found_versions(views, i as nat),
        decreases objects.len() - i,
    {
        let o = &objects[i];
        assert(views[i as int] == o@);
        if let Some(c) = read_chunk(o) {
            let ghost before = pair_views(chunks@);
            let row = chunk_index_entry(o, &c);
            let ghost rv = row@;
            let id = c.header.chunk_id.clone();
            chunks.push((id, row));
            assert(pair_views(chunks@) =~= before.push((c.header.chunk_id@, rv)));
            add_versions(&mut versions, o, &c);
        }
        i += 1;
    }
    Found { chunks, versions }
}

/// Adds the versions in the entries of a chunk.
fn add_versions(out: &mut Vec<FoundVersion>, o: &ListedObject, c: &ReadChunk)
    ensures
        found_views(final(out)@) == found_views(old(out)@) + found_in(o@, c@),
{
    let ghost start = found_views(out@);
    let ghost all = found_in(o@, c@);
    let mut j: usize = 0;
    assert(found_views(out@) =~= start + all.take(0));
    while j < c.entries.len()
        invariant
            j <= c.entries.len(),
            all == found_in(o@, c@),
            found_views(out@) == start + all.take(j as int),
        decreases c.entries.len() - j,
    {
        let h = FoundVersion {
            entry: c.entries[j].clone(),
            chunk_s3_key: o.key.clone(),
            chunk_id: c.header.chunk_id.clone(),
            etag: o.etag.clone(),
        };
        let ghost before = found_views(out@);
        let ghost hv = h@;
        out.push(h);
        proof {
            assert(c@.entries[j as int] == c.entries@[j as int]@);
            assert(all[j as int] == hv);
            assert(found_views(out@) =~= before.push(hv));
            assert(all.take(j + 1) =~= all.take(j as int).push(all[j as int]));
            assert(start + all.take(j + 1) =~= (start + all.take(j as int)).push(hv));
        }
        j += 1;
    }
    assert(all.take(j as int) =~= all);
}

/// Sort key of a found version.
fn sort_key(h: &FoundVersion) -> (r: (String, String, String, u64))
    ensures
        r@ == found_id(h@),
{
    (
        h.entry.space.clone(),
        h.entry.table.clone(),
        h.entry.record_id.clone(),
        h.entry.commit_version,
    )
}

/// Whether `a` comes before `b`.
fn comes_before(a: &FoundVersion, b: &FoundVersion) -> (r: bool)
    ensures
        r == found_before(a@, b@),
{
    let ka = sort_key(a);
    let kb = sort_key(b);
    match ka.compare(&kb) {
        KeyOrder::Less => true,
        KeyOrder::Equal => {
            proof {
                <(String, String, String, u64)>::lemma_irreflexive(ka@);
            }
            false
        },
        KeyOrder::Greater => {
            proof {
                if found_before(a@, b@) {
                    <(String, String, String, u64)>::lemma_transitive(ka@, kb@, ka@);
                    <(String, String, String, u64)>::lemma_irreflexive(ka@);
                }
            }
            false
        },
    }
}

proof fn lemma_insert_found_at(s: Seq<FoundVersionView>, h: FoundVersionView, n: nat, k: nat)
    requires
        k <= n <= s.len(),
        forall|i: int| k <= i < n ==> found_before(h, #[trigger] s[i]),
        k > 0 ==> !found_before(h, s[k - 1]),
    ensures
        insert_found(s.take(n as int), h) == s.take(n as int).insert(k as int, h),
    decreases n,
{
    let t = s.take(n as int);
    if n > k {
        assert(t.last() == s[n - 1]);
        assert(t.drop_last() =~= s.take(n - 1));
        lemma_insert_found_at(s, h, (n - 1) as nat, k);
        assert(s.take(n - 1).insert(k as int, h).push(t.last()) =~= t.insert(k as int, h));
    } else {
        if n > 0 {
            assert(t.last() == s[n - 1]);
        }
        assert(t.push(h) =~= t.insert(n as int, h));
    }
}

proof fn lemma_sort_found_len(s: Seq<FoundVersionView>, n: nat)
    ensures
        sort_found(s, n).len() == n,
    decreases n,
{
    if n > 0 {
        lemma_sort_found_len(s, (n - 1) as nat);
        lemma_insert_found_len(sort_found(s, (n - 1) as nat), s[n - 1]);
    }
}

proof fn lemma_insert_found_len(s: Seq<FoundVersionView>, h: FoundVersionView)
    ensures
        insert_found(s, h).len() == s.len() + 1,
    decreases s.len(),
{
    if s.len() > 0 && found_before(h, s.last()) {
        lemma_insert_found_len(s.drop_last(), h);
    }
}

/// The found versions by record and version.
fn sorted_versions(found: &Vec<FoundVersion>) -> (r: Vec<FoundVersion>)
    ensures
        found_views(r@) == sort_found(found_views(found@), found@.len()),
{
    let ghost hs = found_views(found@);
    let mut out: Vec<FoundVersion> = Vec::new();
    let mut i: usize = 0;
    assert(found_views(out@) =~= sort_found(hs, 0));
    while i < found.len()
        invariant
            i <= found.len(),
            hs == found_views(found@),
            found_views(out@) == sort_found(hs, i as nat),
        decreases found.len() - i,
    {
        let item = found[i].copy_row();
        let ghost before = found_views(out@);
        let ghost h = hs[i as int];
        let mut n: usize = out.len();
        while n > 0 && comes_before(&item, &out[n - 1])
            invariant
                n <= out.len(),
                before == found_views(out@),
                h == item@,
                forall|j: int| n <= j < before.len() ==> found_before(h, #[trigger] before[j]),
            decreases n,
        {
            n -= 1;
        }
        proof {
            lemma_insert_found_at(before, h, before.len(), n as nat);
            assert(before.take(before.len() as int) =~= before);
        }
        out.insert(n, item);
        assert(found_views(out@) =~= before.insert(n as int, h));
        i += 1;
    }
    out
}

/// Latest version per record, and the highest version of all.
fn latest_per_record(found: &Vec<FoundVersion>) -> (r: (
    Table<(String, String, String), FoundVersion>,
    u64,
))
    ensures
        r.0@ == found_latest(found_views(found@), found@.len()),
        r.1 == found_max(found_views(found@), found@.len()),
{
    let ghost hs = found_views(found@);
    let mut latest: Table<(String, String, String), FoundVersion> = Table::new();
    let mut max: u64 = 0;
    let mut i: usize = 0;
    while i < found.len()
        invariant
            i <= found.len(),
            hs == found_views(found@),
            latest@ == found_latest(hs, i as nat),
            max == found_max(hs, i as nat),
        decreases found.len() - i,
    {
        let h = &found[i];
        assert(hs[i as int] == h@);
        if h.entry.commit_version > max {
            max = h.entry.commit_version;
        }
        let key: (String, String, String) = (
            h.entry.space.clone(),
            h.entry.table.clone(),
            h.entry.record_id.clone(),
        );
        let newer: bool = match latest.fetch(&key) {
            Some(cur) => h.entry.commit_version > cur.entry.commit_version,
            None => true,
        };
        if newer {
            latest.insert(key, h.copy_row());
        }
        i += 1;
    }
    (latest, max)
}

/// Restores the store from the given objects at the given time.
pub fn rebuild_at(store: &mut LocalStore, objects: &Vec<ListedObject>, now_ms: i64) -> (r:
    XtableResult<RebuildReport>)
    ensures
        ({
            let (s, x) = rebuilt(old(store)@, object_views(objects@), now_ms);
            let hs = found_versions(object_views(objects@), objects@.len());
            &&& final(store)@ == s
            &&& match x {
                Err(e) => r matches Err(f) && f@ == e,
                Ok(_) => r matches Ok(rep) && rep.objects_scanned == objects@.len()
                    && rep.versions_rebuilt == hs.len() && rep.orphans_deleted == 0,
            }
        }),
{
    let ghost start = store@;
    let found = scan_objects(objects);
    let ghost hs = found_views(found.versions@);
    let sorted = sorted_versions(&found.versions);
    let ghost sorted_hs = found_views(sorted@);
    let (latest, max_v) = latest_per_record(&found.versions);
    let rows = latest.list();
    let ghost lrows = pair_views(rows@);
    proof {
        lemma_listing::<(String, String, String), FoundVersionView>(lrows, latest@);
        assert(object_views(objects@).len() == objects@.len());
        assert(hs.len() == found.versions@.len());
        assert(sorted_hs.len() == sorted@.len());
        assert(lrows.len() == rows@.len());
        lemma_sort_found_len(hs, hs.len());
    }
    put_chunks(store, &found.chunks);
    put_latest(store, &rows, now_ms);
    let mut history: Vec<VersionUpdate> = Vec::new();
    let mut updates: Vec<(String, VersionEntry, u64)> = Vec::new();
    let ghost all_history = history_rows(sorted_hs, now_ms);
    let ghost all_updates = chain_updates(sorted_hs, now_ms);
    let mut i: usize = 0;
    assert(version_rows(history@) =~= all_history.take(0));
    assert(update_views(updates@) =~= all_updates.take(0));
    while i < sorted.len()
        invariant
            i <= sorted.len(),
            sorted_hs == found_views(sorted@),
            all_history == history_rows(sorted_hs, now_ms),
            all_updates == chain_updates(sorted_hs, now_ms),
            version_rows(history@) == all_history.take(i as int),
            update_views(updates@) == all_updates.take(i as int),
        decreases sorted.len() - i,
    {
        let h = &sorted[i];
        let ghost hv = h@;
        let entry = record_index_from_entry(h, now_ms);
        let body = copy_bytes(h.entry.value.as_slice());
        let key: (String, String, String) = (
            h.entry.space.clone(),
            h.entry.table.clone(),
            h.entry.record_id.clone(),
        );
        let ghost before = version_rows(history@);
        let ghost before_updates = update_views(updates@);
        let item: VersionUpdate = (key, entry, body);
        let ghost iv = item;
        history.push(item);
        let rkey = record_key(
            h.entry.space.as_str(),
            h.entry.table.as_str(),
            h.entry.record_id.as_str(),
        );
        let update = (rkey, version_entry_from_entry(h, now_ms), u64::MAX);
        let ghost uv = (update.0@, update.1@, update.2);
        updates.push(update);
        proof {
            assert(sorted_hs[i as int] == hv);
            assert(all_history[i as int] == (
                found_id(hv),
                StoredRecordVersionView {
                    entry: found_index_entry(hv, now_ms),
                    body: hv.entry.value,
                },
            ));
            assert(all_updates[i as int] == uv);
            assert(version_rows(history@) =~= before.push(all_history[i as int]));
            assert(update_views(updates@) =~= before_updates.push(uv));
            assert(all_history.take(i + 1) =~= all_history.take(i as int).push(
                all_history[i as int],
            ));
            assert(all_updates.take(i + 1) =~= all_updates.take(i as int).push(
                all_updates[i as int],
            ));
        }
        i += 1;
    }
    proof {
        assert(all_history.take(i as int) =~= all_history);
        assert(all_updates.take(i as int) =~= all_updates);
        assert(version_rows(history@).len() == history@.len());
    }
    store.put_record_versions_bulk(&history);
    assert(store@ == restored(start, object_views(objects@), now_ms));
    match store.append_chain_entries_bulk(&updates) {
        Err(e) => Err(e),
        Ok(_) => {
            store.global_version = max_v;
            Ok(
                RebuildReport {
                    objects_scanned: objects.len(),
                    versions_rebuilt: sorted.len(),
                    orphans_deleted: 0,
                },
            )
        },
    }
}

/// Stores chunk index rows.
fn put_chunks(store: &mut LocalStore, chunks: &Vec<(String, ChunkIndexEntry)>)
    ensures
        final(store)@ == (StoreView {
            chunks: insert_all(old(store)@.chunks, pair_views(chunks@), chunks@.len()),
            ..old(store)@
        }),
{
    let mut i: usize = 0;
    while i < chunks.len()
        invariant
            i <= chunks.len(),
            store@ == (StoreView {
                chunks: insert_all(old(store)@.chunks, pair_views(chunks@), i as nat),
                ..old(store)@
            }),
        decreases chunks.len() - i,
    {
        assert(pair_views(chunks@)[i as int] == (chunks@[i as int].0@, chunks@[i as int].1@));
        store.put_chunk_index(chunks[i].0.as_str(), &chunks[i].1);
        i += 1;
    }
}

/// Stores the record index and version index rows of the latest versions.
fn put_latest(
    store: &mut LocalStore,
    rows: &Vec<((String, String, String), FoundVersion)>,
    now_ms: i64,
)
    ensures
        final(store)@ == (StoreView {
            records: insert_all(
                old(store)@.records,
                latest_records(pair_views(rows@), now_ms),
                rows@.len(),
            ),
            versions: insert_all(
                old(store)@.versions,
                latest_versions(pair_views(rows@), now_ms),
                rows@.len(),
            ),
            ..old(store)@
        }),
{
    let ghost views = pair_views(rows@);
    let ghost recs = latest_records(views, now_ms);
    let ghost vers = latest_versions(views, now_ms);
    let mut i: usize = 0;
    while i < rows.len()
        invariant
            i <= rows.len(),
            views == pair_views(rows@),
            recs == latest_records(views, now_ms),
            vers == latest_versions(views, now_ms),
            store@ == (StoreView {
                records: insert_all(old(store)@.records, recs, i as nat),
                versions: insert_all(old(store)@.versions, vers, i as nat),
                ..old(store)@
            }),
        decreases rows.len() - i,
    {
        let h = &rows[i].1;
        let entry = record_index_from_entry(h, now_ms);
        let key = &rows[i].0;
        store.put_record_index(key.0.as_str(), key.1.as_str(), key.2.as_str(), &entry);
        let rkey = record_key(
            h.entry.space.as_str(),
            h.entry.table.as_str(),
            h.entry.record_id.as_str(),
        );
        let rec = version_record_from_entry(h, now_ms);
        store.put_version(&ObjectKey::new(rkey.as_str()), &rec);
        proof {
            assert(views[i as int] == (rows@[i as int].0@, rows@[i as int].1@));
            assert(recs[i as int] == (
                key@,
                StoredRecordView { entry: found_index_entry(h@, now_ms), body_json: None },
            ));
            assert(vers[i as int] == (rkey@, rec@));
        }
        i += 1;
    }
}

/// Restores the store from the given objects.
pub fn rebuild(store: &mut LocalStore, objects: &Vec<ListedObject>) -> (r: XtableResult<
    RebuildReport,
>)
    ensures
        exists|now: i64|
            {
                let (s, x) = #[trigger] rebuilt(old(store)@, object_views(objects@), now);
                let hs = found_versions(object_views(objects@), objects@.len());
                &&& final(store)@ == s
                &&& match x {
                    Err(e) => r matches Err(f) && f@ == e,
                    Ok(_) => r matches Ok(rep) && rep.objects_scanned == objects@.len()
                        && rep.versions_rebuilt == hs.len() && rep.orphans_deleted == 0,
                }
            },
{
    let now = now_ms();
    let ghost start = store@;
    let r = rebuild_at(store, objects, now);
    assert(rebuilt(start, object_views(objects@), now).0 == store@);
    r
}

/// Error of a rebuild that could not list the objects. It is fatal: an empty
/// store would let later commits reuse versions.
pub fn backend_unreachable(cause: &str) -> (r: XtableError)
    ensures
        r@ == (
            ErrorKind::Backend,
            "cold rebuild failed: backend unreachable: "@ + cause@,
        ),
{
    XtableError::backend(join2("cold rebuild failed: backend unreachable: ", cause))
}

/// Restores the store from a listing of the object store: the objects, or the
/// text of the error. Without a listing the store stays as it is.
pub fn rebuild_from_listing(
    store: &mut LocalStore,
    listing: &Result<Vec<ListedObject>, String>,
) -> (r: XtableResult<RebuildReport>)
    ensures
        match *listing {
            Err(t) => {
                &&& final(store)@ == old(store)@
                &&& r matches Err(e) && e@ == (
                    ErrorKind::Backend,
                    "cold rebuild failed: backend unreachable: "@ + t@,
                )
            },
            Ok(objects) => exists|now: i64|
                {
                    let (s, x) = #[trigger] rebuilt(old(store)@, object_views(objects@), now);
                    let hs = found_versions(object_views(objects@), objects@.len());
                    &&& final(store)@ == s
                    &&& match x {
                        Err(e) => r matches Err(f) && f@ == e,
                        Ok(_) => r matches Ok(rep) && rep.objects_scanned == objects@.len()
                            && rep.versions_rebuilt == hs.len() && rep.orphans_deleted == 0,
                    }
                },
        },
{
    match listing {
        Ok(objects) => rebuild(store, objects),
        Err(t) => Err(backend_unreachable(t.as_str())),
    }
}

// ----- laws -----

/// What a run of inserts leaves under one key.
pub proof fn lemma_insert_all<K, V>(m: Map<K, V>, pairs: Seq<(K, V)>, n: nat, k: K)
    requires
        n <= pairs.len(),
    ensures
        m.contains_key(k) ==> insert_all(m, pairs, n).contains_key(k),
        (exists|i: int| 0 <= i < n && (#[trigger] pairs[i]).0 == k) ==> insert_all(
            m,
            pairs,
            n,
        ).contains_key(k) && exists|i: int|
            0 <= i < n && (#[trigger] pairs[i]).0 == k && insert_all(m, pairs, n)[k]
                == pairs[i].1,
    decreases n,
{
    if n > 0 {
        lemma_insert_all(m, pairs, (n - 1) as nat, k);
        if exists|i: int| 0 <= i < n && (#[trigger] pairs[i]).0 == k {
            if pairs[n - 1].0 == k {
                assert(insert_all(m, pairs, n)[k] == pairs[n - 1].1);
            } else {
                let i = choose|i: int| 0 <= i < n && (#[trigger] pairs[i]).0 == k;
                assert(0 <= i < n - 1 && pairs[i].0 == k);
                let j = choose|j: int|
                    0 <= j < n - 1 && (#[trigger] pairs[j]).0 == k && insert_all(
                        m,
                        pairs,
                        (n - 1) as nat,
                    )[k] == pairs[j].1;
                assert(pairs[j].0 == k && insert_all(m, pairs, n)[k] == pairs[j].1);
            }
        }
    }
}

pub proof fn lemma_insert_found_contains(
    s: Seq<FoundVersionView>,
    h: FoundVersionView,
    x: FoundVersionView,
)
    ensures
        s.contains(x) || x == h ==> insert_found(s, h).contains(x),
        insert_found(s, h).contains(x) ==> s.contains(x) || x == h,
    decreases s.len(),
{
    if s.len() > 0 && found_before(h, s.last()) {
        lemma_insert_found_contains(s.drop_last(), h, x);
        let d = insert_found(s.drop_last(), h);
        let r = insert_found(s, h);
        assert(r == d.push(s.last()));
        assert(s =~= s.drop_last().push(s.last()));
        if d.contains(x) {
            let i = choose|i: int| 0 <= i < d.len() && d[i] == x;
            assert(r[i] == x);
        }
        if x == s.last() {
            assert(r[d.len() as int] == x);
        }
        if s.contains(x) && x != s.last() {
            let i = choose|i: int| 0 <= i < s.len() && s[i] == x;
            assert(s.drop_last()[i] == x);
        }
        if r.contains(x) {
            let i = choose|i: int| 0 <= i < r.len() && r[i] == x;
            if i < d.len() {
                assert(d[i] == x);
                assert(d.contains(x));
                if s.drop_last().contains(x) {
                    let j = choose|j: int| 0 <= j < s.drop_last().len() && s.drop_last()[j] == x;
                    assert(s[j] == x);
                }
            } else {
                assert(x == s.last());
            }
        }
    } else {
        let r = s.push(h);
        if s.contains(x) {
            let i = choose|i: int| 0 <= i < s.len() && s[i] == x;
            assert(r[i] == x);
        }
        assert(r[s.len() as int] == h);
        if r.contains(x) {
            let i = choose|i: int| 0 <= i < r.len() && r[i] == x;
            if i < s.len() {
                assert(s[i] == x);
            }
        }
    }
}

pub proof fn lemma_sort_found_contains(s: Seq<FoundVersionView>, n: nat, x: FoundVersionView)
    requires
        n <= s.len(),
    ensures
        sort_found(s, n).contains(x) <==> s.take(n as int).contains(x),
    decreases n,
{
    if n > 0 {
        lemma_sort_found_contains(s, (n - 1) as nat, x);
        lemma_insert_found_contains(sort_found(s, (n - 1) as nat), s[n - 1], x);
        let a = s.take(n - 1);
        let b = s.take(n as int);
        assert(b =~= a.push(s[n - 1]));
        if a.contains(x) {
            let i = choose|i: int| 0 <= i < a.len() && a[i] == x;
            assert(b[i] == x);
        }
        assert(b[n - 1] == s[n - 1]);
        if b.contains(x) {
            let i = choose|i: int| 0 <= i < b.len() && b[i] == x;
            if i < n - 1 {
                assert(a[i] == x);
            }
        }
    }
}

/// Every version in a chunk is in the history afterwards, with the body of
/// some chunk that holds that version of that record.
pub proof fn law_rebuild_keeps_every_version(
    s: StoreView,
    objects: Seq<ListedObjectView>,
    now: i64,
    i: int,
)
    requires
        0 <= i < found_versions(objects, objects.len()).len(),
    ensures
        ({
            let hs = found_versions(objects, objects.len());
            let n = rebuilt(s, objects, now).0.record_versions;
            &&& n.contains_key(found_id(hs[i]))
            &&& exists|j: int|
                0 <= j < hs.len() && found_id(#[trigger] hs[j]) == found_id(hs[i])
                    && n[found_id(hs[i])].body == hs[j].entry.value
                    && n[found_id(hs[i])].entry == found_index_entry(hs[j], now)
        }),
{
    let hs = found_versions(objects, objects.len());
    let sorted = sort_found(hs, hs.len());
    let rows = history_rows(sorted, now);
    let k = found_id(hs[i]);
    assert(hs.take(hs.len() as int) =~= hs);
    assert(hs.contains(hs[i]));
    lemma_sort_found_contains(hs, hs.len(), hs[i]);
    let p = choose|p: int| 0 <= p < sorted.len() && sorted[p] == hs[i];
    assert(rows[p].0 == k);
    lemma_insert_all(s.record_versions, rows, rows.len(), k);
    let n = insert_all(s.record_versions, rows, rows.len());
    let q = choose|q: int| 0 <= q < rows.len() && (#[trigger] rows[q]).0 == k && n[k] == rows[q].1;
    assert(sorted.contains(sorted[q]));
    lemma_sort_found_contains(hs, hs.len(), sorted[q]);
    let j = choose|j: int| 0 <= j < hs.len() && hs[j] == sorted[q];
    assert(found_id(hs[j]) == k);
}

/// The latest version of a record is one of it, and no older than any found.
pub proof fn lemma_found_latest(hs: Seq<FoundVersionView>, n: nat, i: int)
    requires
        0 <= i < n <= hs.len(),
    ensures
        ({
            let m = found_latest(hs, n);
            let k = found_record(hs[i]);
            &&& m.contains_key(k)
            &&& found_record(m[k]) == k
            &&& m[k].entry.commit_version >= hs[i].entry.commit_version
        }),
    decreases n,
{
    lemma_found_latest_keys(hs, n);
    let k = found_record(hs[i]);
    let before = found_latest(hs, (n - 1) as nat);
    if i < n - 1 {
        lemma_found_latest(hs, (n - 1) as nat, i);
        assert(before.contains_key(k));
    }
    assert(found_latest(hs, n).contains_key(k));
}

/// The latest version of a record is one of it.
pub proof fn lemma_found_latest_keys(hs: Seq<FoundVersionView>, n: nat)
    requires
        n <= hs.len(),
    ensures
        forall|k: RecordId| #[trigger]
            found_latest(hs, n).contains_key(k) ==> found_record(found_latest(hs, n)[k]) == k,
    decreases n,
{
    if n > 0 {
        lemma_found_latest_keys(hs, (n - 1) as nat);
        let before = found_latest(hs, (n - 1) as nat);
        assert forall|k: RecordId| #[trigger]
            found_latest(hs, n).contains_key(k) implies found_record(found_latest(hs, n)[k])
            == k by {
            if k != found_record(hs[n - 1]) {
                assert(before.contains_key(k));
                assert(found_latest(hs, n)[k] == before[k]);
            } else if before.contains_key(k) {
                assert(found_record(before[k]) == k);
            }
        }
    }
}

/// The latest versions are found ones, and finitely many.
pub proof fn lemma_found_latest_of(hs: Seq<FoundVersionView>, n: nat)
    requires
        n <= hs.len(),
    ensures
        found_latest(hs, n).dom().finite(),
        forall|k: RecordId| #[trigger]
            found_latest(hs, n).contains_key(k) ==> hs.contains(found_latest(hs, n)[k]),
    decreases n,
{
    if n > 0 {
        lemma_found_latest_of(hs, (n - 1) as nat);
        assert(hs.contains(hs[n - 1]));
    }
}

/// The record index holds, for every record in a chunk, the entry of the
/// version with the highest number that was found of that record.
pub proof fn law_rebuild_indexes_the_latest(
    s: StoreView,
    objects: Seq<ListedObjectView>,
    now: i64,
    record: RecordId,
)
    requires
        exists|i: int|
            0 <= i < found_versions(objects, objects.len()).len() && found_record(
                #[trigger] found_versions(objects, objects.len())[i],
            ) == record,
    ensures
        ({
            let hs = found_versions(objects, objects.len());
            let n = rebuilt(s, objects, now).0.records;
            &&& n.contains_key(record)
            &&& exists|j: int|
                0 <= j < hs.len() && found_record(#[trigger] hs[j]) == record && n[record].entry
                    == found_index_entry(hs[j], now)
            &&& forall|i: int|
                0 <= i < hs.len() && found_record(#[trigger] hs[i]) == record
                    ==> hs[i].entry.commit_version <= n[record].entry.commit_version
        }),
{
    let hs = found_versions(objects, objects.len());
    let latest = found_latest(hs, hs.len());
    let rows = latest_rows(hs);
    let recs = latest_records(rows, now);
    let n = insert_all(s.records, recs, recs.len());
    let w = choose|w: int| 0 <= w < hs.len() && found_record(#[trigger] hs[w]) == record;
    lemma_found_latest_of(hs, hs.len());
    lemma_finite_listing::<(String, String, String), FoundVersionView>(latest);
    lemma_found_latest(hs, hs.len(), w);
    assert(rows_map(rows).contains_key(record));
    let p = choose|p: int| 0 <= p < rows.len() && (#[trigger] rows[p]).0 == record;
    assert(recs[p].0 == record);
    lemma_insert_all(s.records, recs, recs.len(), record);
    let q = choose|q: int|
        0 <= q < recs.len() && (#[trigger] recs[q]).0 == record && n[record] == recs[q].1;
    assert(rows[q].0 == record);
    lemma_listed::<(String, String, String), FoundVersionView>(rows, q);
    assert(rows[q].1 == latest[record]);
    let j = choose|j: int| 0 <= j < hs.len() && hs[j] == latest[record];
    assert(found_record(hs[j]) == record);
    assert forall|i: int|
        0 <= i < hs.len() && found_record(#[trigger] hs[i])
            == record implies hs[i].entry.commit_version <= n[record].entry.commit_version by {
        lemma_found_latest(hs, hs.len(), i);
    }
}

/// After a successful rebuild the next version is above every version found.
pub proof fn law_rebuild_sets_the_version_counter(
    s: StoreView,
    objects: Seq<ListedObjectView>,
    now: i64,
    i: int,
)
    requires
        0 <= i < found_versions(objects, objects.len()).len(),
        rebuilt(s, objects, now).1 is Ok,
    ensures
        found_versions(objects, objects.len())[i].entry.commit_version <= rebuilt(
            s,
            objects,
            now,
        ).0.global_version,
{
    let hs = found_versions(objects, objects.len());
    lemma_found_max(hs, hs.len(), i);
}

/// No found version is above the highest.
pub proof fn lemma_found_max(hs: Seq<FoundVersionView>, n: nat, i: int)
    requires
        0 <= i < n <= hs.len(),
    ensures
        hs[i].entry.commit_version <= found_max(hs, n),
    decreases n,
{
    if i < n - 1 {
        lemma_found_max(hs, (n - 1) as nat, i);
    }
}

/// Without objects a rebuild changes nothing but the version counter.
pub proof fn law_rebuild_of_nothing(s: StoreView, now: i64)
    ensures
        rebuilt(s, Seq::empty(), now) == (
            StoreView { global_version: 0, ..s },
            Ok::<(), (ErrorKind, Seq<char>)>(()),
        ),
{
    let hs = found_versions(Seq::empty(), 0);
    let rows: Seq<(RecordId, FoundVersionView)> = Seq::empty();
    assert(rows_map(rows) =~= Map::empty());
    lemma_listing::<(String, String, String), FoundVersionView>(rows, found_latest(hs, 0));
}

} // verus!
