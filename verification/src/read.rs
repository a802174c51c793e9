//! Reading a record at a snapshot.
//!
//! The lookup goes through the active memtable, the immutable memtables from
//! the newest on, the record index and the chunk index. What is left is a
//! chunk to fetch, unless its bloom filter rules the record out
//! ([`look_up`]). With the chunk file at hand [`read_from_chunk`] finds the
//! record in it.
//!
//! Only entries with `commit_version <= snapshot` are visible.

use crate::chunk::{
    bloom_admits, bloom_may_contain, compose_key, compose_key_bytes, decode_body_entries,
    decompress_body, entry_views, f_body, f_entries, p_body, p_entries, ChunkEntry, ChunkEntryView,
    ChunkIndexEntry, ChunkIndexEntryView,
};
use crate::memtable::{
    MemEntry, MemEntryView, MemTableSet, MemTableSetView, MemTableView, RecordKey, RecordKeyView,
};
use crate::order::same_text;
use crate::outside::{bytes_from, bytes_held, bytes_share};
use crate::store::{LocalStore, StoreView};
use crate::text::{copy_optional_text, copy_pairs, optional_text, text_pairs};
use crate::txn_state::RecordIndexEntry;
use crate::types::{ErrorKind, XtableError, XtableResult};
use vstd::prelude::*;

verus! {

/// Where the body of a result came from.
#[derive(Debug, Clone, Copy, PartialEq, Eq, Structural)]
pub enum ReadSource {
    Active,
    Immutable,
    Chunk,
    NotFound,
}

/// Outcome of a read at a snapshot.
pub struct ReadResult {
    pub body: bytes::Bytes,
    pub commit_version: u64,
    pub txn_id: String,
    pub deleted: bool,
    pub content_type: Option<String>,
    pub user_meta: Vec<(String, String)>,
    pub schema_version: u32,
    pub source: ReadSource,
}

/// Mathematical view of a [`ReadResult`].
pub ghost struct ReadResultView {
    pub body: Seq<u8>,
    pub commit_version: u64,
    pub txn_id: Seq<char>,
    pub deleted: bool,
    pub content_type: Option<Seq<char>>,
    pub user_meta: Seq<(Seq<char>, Seq<char>)>,
    pub schema_version: u32,
    pub source: ReadSource,
}

impl View for ReadResult {
    type V = ReadResultView;

    open spec fn view(&self) -> ReadResultView {
        ReadResultView {
            body: bytes_held(self.body),
            commit_version: self.commit_version,
            txn_id: self.txn_id@,
            deleted: self.deleted,
            content_type: optional_text(self.content_type),
            user_meta: text_pairs(self.user_meta@),
            schema_version: self.schema_version,
            source: self.source,
        }
    }
}

impl Clone for ReadResult {
    fn clone(&self) -> (r: Self)
        ensures
            r@ == self@,
    {
        ReadResult {
            body: bytes_share(&self.body),
            commit_version: self.commit_version,
            txn_id: self.txn_id.clone(),
            deleted: self.deleted,
            content_type: copy_optional_text(&self.content_type),
            user_meta: copy_pairs(&self.user_meta),
            schema_version: self.schema_version,
            source: self.source,
        }
    }
}

/// Result of a memtable entry.
pub open spec fn memtable_result(e: MemEntryView, source: ReadSource) -> ReadResultView {
    ReadResultView {
        body: e.value,
        commit_version: e.commit_version,
        txn_id: e.txn_id,
        deleted: e.deleted,
        content_type: e.content_type,
        user_meta: e.user_meta,
        schema_version: e.schema_version,
        source,
    }
}

/// Result of a chunk entry.
pub open spec fn chunk_result(e: ChunkEntryView) -> ReadResultView {
    ReadResultView {
        body: e.value,
        commit_version: e.commit_version,
        txn_id: e.txn_id,
        deleted: e.deleted,
        content_type: e.content_type,
        user_meta: e.user_meta,
        schema_version: e.schema_version,
        source: ReadSource::Chunk,
    }
}

/// What the newest of the first `n` memtables that shows the key has.
pub open spec fn newest_in(
    tables: Seq<MemTableView>,
    key: RecordKeyView,
    snapshot: u64,
    n: nat,
) -> Option<MemEntryView>
    decreases n,
{
    if n == 0 {
        None
    } else {
        match tables[n - 1].visible(key, snapshot) {
            Some(e) => Some(e),
            None => newest_in(tables, key, snapshot, (n - 1) as nat),
        }
    }
}

/// What the memtables show of a key.
pub open spec fn memtable_lookup(
    mems: MemTableSetView,
    key: RecordKeyView,
    snapshot: u64,
) -> Option<ReadResultView> {
    match mems.active.visible(key, snapshot) {
        Some(e) => Some(memtable_result(e, ReadSource::Active)),
        None => match newest_in(mems.flushing, key, snapshot, mems.flushing.len()) {
            Some(e) => Some(memtable_result(e, ReadSource::Immutable)),
            None => None,
        },
    }
}

/// Outcome of a lookup: an answer, or the chunk to fetch.
pub enum Lookup {
    Answer(Option<ReadResult>),
    Fetch(ChunkIndexEntry),
}

/// Mathematical view of a [`Lookup`].
pub ghost enum LookupView {
    Answer(Option<ReadResultView>),
    Fetch(ChunkIndexEntryView),
}

impl View for Lookup {
    type V = LookupView;

    open spec fn view(&self) -> LookupView {
        match self {
            Lookup::Answer(None) => LookupView::Answer(None),
            Lookup::Answer(Some(r)) => LookupView::Answer(Some(r@)),
            Lookup::Fetch(c) => LookupView::Fetch(c@),
        }
    }
}

/// What the indexes of the store say of a key.
pub open spec fn index_lookup(s: StoreView, key: RecordKeyView, snapshot: u64) -> LookupView {
    if !s.records.contains_key(key) || s.records[key].entry.commit_version > snapshot {
        LookupView::Answer(None)
    } else {
        let idx = s.records[key].entry;
        if idx.deleted {
            LookupView::Answer(
                Some(
                    ReadResultView {
                        body: Seq::empty(),
                        commit_version: idx.commit_version,
                        txn_id: idx.txn_id,
                        deleted: true,
                        content_type: None,
                        user_meta: Seq::empty(),
                        schema_version: idx.schema_version,
                        source: ReadSource::NotFound,
                    },
                ),
            )
        } else if !s.chunks.contains_key(idx.chunk_id) {
            LookupView::Answer(None)
        } else {
            let chunk = s.chunks[idx.chunk_id];
            match chunk.bloom {
                Some(bloom) => if bloom_admits(bloom, compose_key(key.0, key.1, key.2)) {
                    LookupView::Fetch(chunk)
                } else {
                    LookupView::Answer(None)
                },
                None => LookupView::Fetch(chunk),
            }
        }
    }
}

/// What a lookup finds without fetching a chunk.
pub open spec fn lookup(
    mems: MemTableSetView,
    s: StoreView,
    key: RecordKeyView,
    snapshot: u64,
) -> LookupView {
    match memtable_lookup(mems, key, snapshot) {
        Some(r) => LookupView::Answer(Some(r)),
        None => index_lookup(s, key, snapshot),
    }
}

/// The entry is one of the record, visible at the snapshot.
pub open spec fn entry_shows(e: ChunkEntryView, key: RecordKeyView, snapshot: u64) -> bool {
    e.space == key.0 && e.table == key.1 && e.record_id == key.2 && e.commit_version <= snapshot
}

/// First entry from position `i` on that shows the key.
pub open spec fn find_entry(
    es: Seq<ChunkEntryView>,
    key: RecordKeyView,
    snapshot: u64,
    i: int,
) -> Option<ChunkEntryView>
    decreases es.len() - i,
{
    if 0 <= i < es.len() {
        if entry_shows(es[i], key, snapshot) {
            Some(es[i])
        } else {
            find_entry(es, key, snapshot, i + 1)
        }
    } else {
        None
    }
}

/// Result of a memtable entry.
fn entry_to_result(e: &MemEntry, source: ReadSource) -> (r: ReadResult)
    ensures
        r@ == memtable_result(e@, source),
{
    ReadResult {
        body: bytes_share(&e.value.bytes),
        commit_version: e.commit_version,
        txn_id: e.txn_id.clone(),
        deleted: e.deleted,
        content_type: copy_optional_text(&e.content_type),
        user_meta: copy_pairs(&e.user_meta),
        schema_version: e.schema_version,
        source,
    }
}

/// What the memtables show of a key.
pub fn look_in_memtables(mems: &MemTableSet, key: &RecordKey, snapshot: u64) -> (r: Option<
    ReadResult,
>)
    requires
        mems.wf(),
    ensures
        match r {
            Some(x) => memtable_lookup(mems@, key@, snapshot) == Some(x@),
            None => memtable_lookup(mems@, key@, snapshot) is None,
        },
{
    if let Some(e) = mems.active.get_visible(key, snapshot) {
        return Some(entry_to_result(&e, ReadSource::Active));
    }
    let ghost tables = mems@.flushing;
    let mut n: usize = mems.flushing.len();
    while n > 0
        invariant
            n <= mems.flushing.len(),
            mems.wf(),
            tables == crate::memtable::table_views(mems.flushing@),
            mems@.flushing == tables,
            mems@.active.visible(key@, snapshot) is None,
            newest_in(tables, key@, snapshot, tables.len()) == newest_in(
                tables,
                key@,
                snapshot,
                n as nat,
            ),
        decreases n,
    {
        assert(tables[n - 1] == mems.flushing@[n - 1]@);
        if let Some(e) = mems.flushing[n - 1].get_visible(key, snapshot) {
            return Some(entry_to_result(&e, ReadSource::Immutable));
        }
        n -= 1;
    }
    None
}

/// The chunk that holds the body of a record index entry.
fn lookup_chunk_for_record(store: &LocalStore, idx: &RecordIndexEntry) -> (r: Option<
    ChunkIndexEntry,
>)
    ensures
        match r {
            Some(c) => store@.chunks.contains_key(idx@.chunk_id) && store@.chunks[idx@.chunk_id]
                == c@,
            None => !store@.chunks.contains_key(idx@.chunk_id),
        },
{
    store.get_chunk_index(idx.chunk_id.as_str())
}

/// Looks a record up at a snapshot: an answer, or the chunk to fetch.
pub fn look_up(
    mems: &MemTableSet,
    store: &LocalStore,
    space: &str,
    table: &str,
    record_id: &str,
    snapshot: u64,
) -> (r: Lookup)
    requires
        mems.wf(),
    ensures
        r@ == lookup(mems@, store@, (space@, table@, record_id@), snapshot),
{
    let key: RecordKey = (space.to_owned(), table.to_owned(), record_id.to_owned());
    assert(key@ == (space@, table@, record_id@));
    if let Some(r) = look_in_memtables(mems, &key, snapshot) {
        return Lookup::Answer(Some(r));
    }
    let idx = match store.get_record_index(space, table, record_id) {
        Some(i) => i,
        None => {
            return Lookup::Answer(None);
        },
    };
    if idx.commit_version > snapshot {
        return Lookup::Answer(None);
    }
    if idx.deleted {
        let body = bytes_from(Vec::new());
        let user_meta: Vec<(String, String)> = Vec::new();
        assert(text_pairs(user_meta@) =~= Seq::empty());
        assert(bytes_held(body) =~= Seq::empty());
        return Lookup::Answer(
            Some(
                ReadResult {
                    body,
                    commit_version: idx.commit_version,
                    txn_id: idx.txn_id,
                    deleted: true,
                    content_type: None,
                    user_meta,
                    schema_version: idx.schema_version,
                    source: ReadSource::NotFound,
                },
            ),
        );
    }
    let chunk = match lookup_chunk_for_record(store, &idx) {
        Some(c) => c,
        None => {
            return Lookup::Answer(None);
        },
    };
    let key_bytes = compose_key_bytes(space, table, record_id);
    if let Some(bloom) = &chunk.bloom {
        if !bloom_may_contain(bloom.as_slice(), key_bytes.as_slice()) {
            return Lookup::Answer(None);
        }
    }
    Lookup::Fetch(chunk)
}

/// What a chunk file shows of a record, or why it cannot be read.
pub open spec fn chunk_lookup(file: Seq<u8>, key: RecordKeyView, snapshot: u64) -> Result<
    Option<ReadResultView>,
    (ErrorKind, Seq<char>),
> {
    match p_body(file) {
        None => Err((ErrorKind::Storage, f_body(file))),
        Some(body) => match p_entries(body, Seq::empty()) {
            None => Err((ErrorKind::Storage, f_entries(body, body.len()))),
            Some(es) => Ok(
                match find_entry(es, key, snapshot, 0) {
                    Some(e) => Some(chunk_result(e)),
                    None => None,
                },
            ),
        },
    }
}

/// Position of the first entry that shows the record.
fn find_in_entries(
    es: &Vec<ChunkEntry>,
    space: &str,
    table: &str,
    record_id: &str,
    snapshot: u64,
) -> (r: Option<usize>)
    ensures
        match r {
            Some(i) => i < es@.len() && find_entry(
                entry_views(es@),
                (space@, table@, record_id@),
                snapshot,
                0,
            ) == Some(es@[i as int]@),
            None => find_entry(
                entry_views(es@),
                (space@, table@, record_id@),
                snapshot,
                0,
            ) is None,
        },
{
    let ghost key = (space@, table@, record_id@);
    let ghost views = entry_views(es@);
    let mut i: usize = 0;
    while i < es.len()
        invariant
            i <= es.len(),
            key == (space@, table@, record_id@),
            views == entry_views(es@),
            find_entry(views, key, snapshot, 0) == find_entry(views, key, snapshot, i as int),
        decreases es.len() - i,
    {
        let e = &es[i];
        assert(views[i as int] == e@);
        if e.commit_version <= snapshot && same_text(e.space.as_str(), space) && same_text(
            e.table.as_str(),
            table,
        ) && same_text(e.record_id.as_str(), record_id) {
            return Some(i);
        }
        i += 1;
    }
    None
}

/// Finds a record in a chunk file that was fetched.
pub fn read_from_chunk(
    file: &[u8],
    chunk: &ChunkIndexEntry,
    space: &str,
    table: &str,
    record_id: &str,
    snapshot: u64,
) -> (r: XtableResult<Option<ReadResult>>)
    ensures
        match chunk_lookup(file@, (space@, table@, record_id@), snapshot) {
            Err(k) => r matches Err(e) && e@ == k,
            Ok(None) => r matches Ok(o) && o is None,
            Ok(Some(v)) => r matches Ok(Some(x)) && x@ == v,
        },
{
    let body = match decompress_body(file) {
        Ok(b) => b,
        Err(e) => {
            return Err(e);
        },
    };
    let expected = chunk.commit_version_max.saturating_sub(
        chunk.commit_version_min,
    ).saturating_add(1);
    let entries = match decode_body_entries(body.as_slice(), expected) {
        Ok(es) => es,
        Err(e) => {
            return Err(e);
        },
    };
    match find_in_entries(&entries, space, table, record_id, snapshot) {
        None => Ok(None),
        Some(i) => {
            let e = entries[i].clone();
            Ok(
                Some(
                    ReadResult {
                        body: bytes_from(e.value),
                        commit_version: e.commit_version,
                        txn_id: e.txn_id,
                        deleted: e.deleted,
                        content_type: e.content_type,
                        user_meta: e.user_meta,
                        schema_version: e.schema_version,
                        source: ReadSource::Chunk,
                    },
                ),
            )
        },
    }
}

/// Reads a record at a snapshot. `fetched` is what the fetch of the chunk gave
/// that [`look_up`] asks for: its bytes, or the text of the error.
pub fn read_at_snapshot(
    mems: &MemTableSet,
    store: &LocalStore,
    space: &str,
    table: &str,
    record_id: &str,
    snapshot: u64,
    fetched: &Result<Vec<u8>, String>,
) -> (r: XtableResult<Option<ReadResult>>)
    requires
        mems.wf(),
    ensures
        match lookup(mems@, store@, (space@, table@, record_id@), snapshot) {
            LookupView::Answer(None) => r matches Ok(o) && o is None,
            LookupView::Answer(Some(v)) => r matches Ok(Some(x)) && x@ == v,
            LookupView::Fetch(_) => match *fetched {
                Err(t) => r matches Err(e) && e@ == (ErrorKind::Backend, t@),
                Ok(file) => match chunk_lookup(file@, (space@, table@, record_id@), snapshot) {
                    Err(k) => r matches Err(e) && e@ == k,
                    Ok(None) => r matches Ok(o) && o is None,
                    Ok(Some(v)) => r matches Ok(Some(x)) && x@ == v,
                },
            },
        },
{
    match look_up(mems, store, space, table, record_id, snapshot) {
        Lookup::Answer(a) => Ok(a),
        Lookup::Fetch(chunk) => match fetched {
            Err(t) => Err(XtableError::backend(t.clone())),
            Ok(file) => read_from_chunk(
                file.as_slice(),
                &chunk,
                space,
                table,
                record_id,
                snapshot,
            ),
        },
    }
}

} // verus!
