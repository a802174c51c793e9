//! Chunk file format.
//!
//! Each chunk holds the contents of one flushed memtable, compressed, with a
//! bloom filter for negative lookups.
//!
//! ```text
//! MAGIC "XTC1" | VERSION u16
//! CHUNK_ID_LEN u16 | CHUNK_ID
//! CREATED_AT_MS i64 | COMPRESSED_BODY_LEN u64 | UNCOMPRESSED_LEN u64
//! SPACE_LEN u16 | SPACE | TABLE_LEN u16 | TABLE
//! MIN_KEY_LEN u16 | MIN_KEY | MAX_KEY_LEN u16 | MAX_KEY
//! RECORD_COUNT u64
//! COMPRESSED_BODY (zstd frame of all entries, sorted by key)
//! FOOTER (bloom, key index, checksum, magic "XTCF") | FOOTER_LEN u32
//! ```
//!
//! Each body entry is
//!
//! ```text
//! KEY_LEN u16 | KEY | VALUE_LEN u32 | VALUE |
//! CONTENT_TYPE_LEN u8 | CONTENT_TYPE |
//! USER_META_COUNT u8 | (k_len u8, k, v_len u8, v)* |
//! SCHEMA_VERSION u32 | TXN_ID_LEN u8 | TXN_ID |
//! COMMIT_VERSION u64 | WAL_SEQ u64 | FLAGS u8 (bit 0: tombstone) |
//! CRC32 u32 of everything above
//! ```
//!
//! All numbers are little-endian.

use crate::cf::ChunkStatus;
use crate::codec::{
    decode_text, f_bytes, f_text, lemma_p_bytes, lemma_p_bytes_extend, lemma_p_text, lemma_p_u16,
    lemma_p_u32, lemma_p_u64, lemma_p_u8, p_bytes, p_text, p_u16, p_u32, p_u64, p_u8, put_bytes,
    put_u16, put_u32, put_u64, put_u8, read_bytes, read_text, read_u16, read_u32, read_u64, read_u8,
    truncated, truncated_error,
};
use crate::order::{
    bytes_before, compare_bytes, lemma_bytes_irreflexive, lemma_bytes_total, lemma_bytes_transitive,
    lemma_text_total, lemma_utf8_injective, same_bytes, text_before, KeyOrder,
};
use crate::outside::{
    bincode_read_rows, bincode_rows, bincode_write_rows, crc32, crc32_hash, index_rows, now_ms,
    row_bytes, utf8_failure, xxh3, xxh3_hash, zstd_compress, zstd_content, zstd_decompress,
    zstd_frame, IndexRow,
};
use crate::table::Row;
use crate::text::{
    copy_bytes, copy_optional_bytes, copy_optional_text, copy_pairs, decimal, decimal_text, join3,
    optional_bytes, optional_text, text_pairs,
};
use crate::types::{storage_error, ErrorKind, XtableError, XtableResult};
use vstd::bytes::*;
use vstd::prelude::*;
use vstd::slice::*;
use vstd::utf8::*;

verus! {

/// Schema version of the chunk format.
pub const CHUNK_VERSION: u16 = 1;

/// Multipart threshold for the compressed body.
pub const MULTIPART_THRESHOLD: usize = 16 * 1024 * 1024;

/// Size of each multipart part.
pub const MULTIPART_PART_SIZE: usize = 16 * 1024 * 1024;

/// Bloom filter bits per key.
pub const BLOOM_BITS_PER_KEY: usize = 10;

/// One key in this many enters the key index.
pub const KEY_INDEX_SAMPLE_EVERY: usize = 256;

/// Compression level of chunk bodies.
pub const BODY_COMPRESSION_LEVEL: i32 = 3;

/// One body entry. Its key is `(space, table, record_id)`.
#[derive(Debug, PartialEq, Eq)]
pub struct ChunkEntry {
    pub space: String,
    pub table: String,
    pub record_id: String,
    /// Body bytes.
    pub value: Vec<u8>,
    pub commit_version: u64,
    pub txn_id: String,
    pub deleted: bool,
    pub content_type: Option<String>,
    pub user_meta: Vec<(String, String)>,
    pub schema_version: u32,
    pub wal_seq: u64,
}

/// Mathematical view of [`ChunkEntry`].
pub ghost struct ChunkEntryView {
    pub space: Seq<char>,
    pub table: Seq<char>,
    pub record_id: Seq<char>,
    pub value: Seq<u8>,
    pub commit_version: u64,
    pub txn_id: Seq<char>,
    pub deleted: bool,
    pub content_type: Option<Seq<char>>,
    pub user_meta: Seq<(Seq<char>, Seq<char>)>,
    pub schema_version: u32,
    pub wal_seq: u64,
}

impl View for ChunkEntry {
    type V = ChunkEntryView;

    open spec fn view(&self) -> ChunkEntryView {
        ChunkEntryView {
            space: self.space@,
            table: self.table@,
            record_id: self.record_id@,
            value: self.value@,
            commit_version: self.commit_version,
            txn_id: self.txn_id@,
            deleted: self.deleted,
            content_type: optional_text(self.content_type),
            user_meta: text_pairs(self.user_meta@),
            schema_version: self.schema_version,
            wal_seq: self.wal_seq,
        }
    }
}

impl Clone for ChunkEntry {
    fn clone(&self) -> (r: Self)
        ensures
            r@ == self@,
    {
        ChunkEntry {
            space: self.space.clone(),
            table: self.table.clone(),
            record_id: self.record_id.clone(),
            value: copy_bytes(self.value.as_slice()),
            commit_version: self.commit_version,
            txn_id: self.txn_id.clone(),
            deleted: self.deleted,
            content_type: copy_optional_text(&self.content_type),
            user_meta: copy_pairs(&self.user_meta),
            schema_version: self.schema_version,
            wal_seq: self.wal_seq,
        }
    }
}

/// Views of a list of entries.
pub open spec fn entry_views(s: Seq<ChunkEntry>) -> Seq<ChunkEntryView> {
    s.map_values(|e: ChunkEntry| e@)
}

/// Chunk header: everything before the body.
#[derive(Debug, PartialEq, Eq)]
pub struct ChunkHeader {
    pub chunk_id: String,
    pub created_at_ms: i64,
    pub compressed_body_len: u64,
    pub uncompressed_len: u64,
    pub space: String,
    pub table: String,
    pub key_min: Vec<u8>,
    pub key_max: Vec<u8>,
    pub record_count: u64,
}

/// Mathematical view of [`ChunkHeader`].
pub ghost struct ChunkHeaderView {
    pub chunk_id: Seq<char>,
    pub created_at_ms: i64,
    pub compressed_body_len: u64,
    pub uncompressed_len: u64,
    pub space: Seq<char>,
    pub table: Seq<char>,
    pub key_min: Seq<u8>,
    pub key_max: Seq<u8>,
    pub record_count: u64,
}

impl View for ChunkHeader {
    type V = ChunkHeaderView;

    open spec fn view(&self) -> ChunkHeaderView {
        ChunkHeaderView {
            chunk_id: self.chunk_id@,
            created_at_ms: self.created_at_ms,
            compressed_body_len: self.compressed_body_len,
            uncompressed_len: self.uncompressed_len,
            space: self.space@,
            table: self.table@,
            key_min: self.key_min@,
            key_max: self.key_max@,
            record_count: self.record_count,
        }
    }
}

impl Clone for ChunkHeader {
    fn clone(&self) -> (r: Self)
        ensures
            r@ == self@,
    {
        ChunkHeader {
            chunk_id: self.chunk_id.clone(),
            created_at_ms: self.created_at_ms,
            compressed_body_len: self.compressed_body_len,
            uncompressed_len: self.uncompressed_len,
            space: self.space.clone(),
            table: self.table.clone(),
            key_min: copy_bytes(self.key_min.as_slice()),
            key_max: copy_bytes(self.key_max.as_slice()),
            record_count: self.record_count,
        }
    }
}

/// One sample of the key index: a key, the offset of its entry in the body, and
/// its commit version.
#[derive(Debug, PartialEq, Eq)]
pub struct KeyIndexEntry {
    pub key_bytes: Vec<u8>,
    pub body_offset: u64,
    pub commit_version: u64,
}

/// Mathematical view of [`KeyIndexEntry`].
pub ghost struct KeyIndexEntryView {
    pub key_bytes: Seq<u8>,
    pub body_offset: u64,
    pub commit_version: u64,
}

impl View for KeyIndexEntry {
    type V = KeyIndexEntryView;

    open spec fn view(&self) -> KeyIndexEntryView {
        KeyIndexEntryView {
            key_bytes: self.key_bytes@,
            body_offset: self.body_offset,
            commit_version: self.commit_version,
        }
    }
}

impl Clone for KeyIndexEntry {
    fn clone(&self) -> (r: Self)
        ensures
            r@ == self@,
    {
        KeyIndexEntry {
            key_bytes: copy_bytes(self.key_bytes.as_slice()),
            body_offset: self.body_offset,
            commit_version: self.commit_version,
        }
    }
}

/// Views of a key index.
pub open spec fn key_index_views(s: Seq<KeyIndexEntry>) -> Seq<KeyIndexEntryView> {
    s.map_values(|e: KeyIndexEntry| e@)
}

/// A copy of a key index.
pub fn copy_key_index(v: &Vec<KeyIndexEntry>) -> (r: Vec<KeyIndexEntry>)
    ensures
        key_index_views(r@) == key_index_views(v@),
{
    let mut out: Vec<KeyIndexEntry> = Vec::new();
    let mut i: usize = 0;
    while i < v.len()
        invariant
            i <= v.len(),
            key_index_views(out@) == key_index_views(v@).take(i as int),
        decreases v.len() - i,
    {
        let ghost before = out@;
        out.push(v[i].clone());
        proof {
            assert(key_index_views(out@) =~= key_index_views(before).push(v@[i as int]@));
            assert(key_index_views(v@).take(i as int + 1) =~= key_index_views(v@).take(i as int).push(v@[i as int]@));
        }
        i += 1;
    }
    assert(key_index_views(v@).take(i as int) =~= key_index_views(v@));
    out
}

/// Chunk footer.
#[derive(Debug, PartialEq, Eq)]
pub struct ChunkFooter {
    /// Bloom filter over all keys in this chunk.
    pub bloom: Vec<u8>,
    /// Sampled key index.
    pub key_index: Vec<KeyIndexEntry>,
    /// Checksum of the uncompressed body.
    pub body_crc32c: u32,
}

/// Mathematical view of [`ChunkFooter`].
pub ghost struct ChunkFooterView {
    pub bloom: Seq<u8>,
    pub key_index: Seq<KeyIndexEntryView>,
    pub body_crc32c: u32,
}

impl View for ChunkFooter {
    type V = ChunkFooterView;

    open spec fn view(&self) -> ChunkFooterView {
        ChunkFooterView {
            bloom: self.bloom@,
            key_index: key_index_views(self.key_index@),
            body_crc32c: self.body_crc32c,
        }
    }
}

impl Clone for ChunkFooter {
    fn clone(&self) -> (r: Self)
        ensures
            r@ == self@,
    {
        ChunkFooter {
            bloom: copy_bytes(self.bloom.as_slice()),
            key_index: copy_key_index(&self.key_index),
            body_crc32c: self.body_crc32c,
        }
    }
}

/// Row of the chunk index: what serves reads without downloading the body.
#[derive(Debug, PartialEq, Eq)]
pub struct ChunkIndexEntry {
    /// Object key: `_xtable/<space>/<table>/<shard>/<chunk_id>.xtc`.
    pub s3_key: String,
    pub space: String,
    pub table: String,
    /// Shard byte of the first key.
    pub shard: u8,
    /// First key in the sorted body.
    pub key_min: Vec<u8>,
    /// Last key in the sorted body.
    pub key_max: Vec<u8>,
    /// Lowest commit version in this chunk.
    pub commit_version_min: u64,
    /// Highest commit version in this chunk.
    pub commit_version_max: u64,
    /// Log sequence of the first entry.
    pub wal_seq_first: u64,
    /// Log sequence of the last entry.
    pub wal_seq_last: u64,
    /// Digest of the uncompressed body; empty where it was not taken.
    pub sha256_body: String,
    /// Size of the chunk file.
    pub size_bytes: u64,
    pub etag: String,
    /// Bloom filter of the chunk.
    pub bloom: Option<Vec<u8>>,
    pub flushed_at_ms: i64,
    pub status: ChunkStatus,
}

/// Mathematical view of [`ChunkIndexEntry`].
pub ghost struct ChunkIndexEntryView {
    pub s3_key: Seq<char>,
    pub space: Seq<char>,
    pub table: Seq<char>,
    pub shard: u8,
    pub key_min: Seq<u8>,
    pub key_max: Seq<u8>,
    pub commit_version_min: u64,
    pub commit_version_max: u64,
    pub wal_seq_first: u64,
    pub wal_seq_last: u64,
    pub sha256_body: Seq<char>,
    pub size_bytes: u64,
    pub etag: Seq<char>,
    pub bloom: Option<Seq<u8>>,
    pub flushed_at_ms: i64,
    pub status: ChunkStatus,
}

impl View for ChunkIndexEntry {
    type V = ChunkIndexEntryView;

    open spec fn view(&self) -> ChunkIndexEntryView {
        ChunkIndexEntryView {
            s3_key: self.s3_key@,
            space: self.space@,
            table: self.table@,
            shard: self.shard,
            key_min: self.key_min@,
            key_max: self.key_max@,
            commit_version_min: self.commit_version_min,
            commit_version_max: self.commit_version_max,
            wal_seq_first: self.wal_seq_first,
            wal_seq_last: self.wal_seq_last,
            sha256_body: self.sha256_body@,
            size_bytes: self.size_bytes,
            etag: self.etag@,
            bloom: optional_bytes(self.bloom),
            flushed_at_ms: self.flushed_at_ms,
            status: self.status,
        }
    }
}

impl Clone for ChunkIndexEntry {
    fn clone(&self) -> (r: Self)
        ensures
            r@ == self@,
    {
        ChunkIndexEntry {
            s3_key: self.s3_key.clone(),
            space: self.space.clone(),
            table: self.table.clone(),
            shard: self.shard,
            key_min: copy_bytes(self.key_min.as_slice()),
            key_max: copy_bytes(self.key_max.as_slice()),
            commit_version_min: self.commit_version_min,
            commit_version_max: self.commit_version_max,
            wal_seq_first: self.wal_seq_first,
            wal_seq_last: self.wal_seq_last,
            sha256_body: self.sha256_body.clone(),
            size_bytes: self.size_bytes,
            etag: self.etag.clone(),
            bloom: copy_optional_bytes(&self.bloom),
            flushed_at_ms: self.flushed_at_ms,
            status: self.status,
        }
    }
}

/// Magic bytes of chunk files, "XTC1".
pub const CHUNK_MAGIC: [u8; 4] = [0x58, 0x54, 0x43, 0x31];

/// Magic bytes of chunk footers, "XTCF".
pub const FOOTER_MAGIC: [u8; 4] = [0x58, 0x54, 0x43, 0x46];

/// Magic bytes of chunk files.
pub open spec fn chunk_magic() -> Seq<u8> {
    seq![0x58u8, 0x54, 0x43, 0x31]
}

/// Magic bytes of chunk footers.
pub open spec fn footer_magic() -> Seq<u8> {
    seq![0x58u8, 0x54, 0x43, 0x46]
}

proof fn lemma_append(written: Seq<u8>, field: Seq<u8>, left: Seq<u8>)
    ensures
        (written + field) + left == written + (field + left),
{
    assert((written + field) + left =~= written + (field + left));
}

// ----- keys -----

/// Bytes of the key `space \0 table \0 record_id`.
pub open spec fn compose_key(space: Seq<char>, table: Seq<char>, record_id: Seq<char>) -> Seq<u8> {
    encode_utf8(space) + seq![0u8] + encode_utf8(table) + seq![0u8] + encode_utf8(record_id)
}

/// Key bytes for sorting and bloom hashing.
pub fn compose_key_bytes(space: &str, table: &str, record_id: &str) -> (r: Vec<u8>)
    ensures
        r@ == compose_key(space@, table@, record_id@),
{
    let mut v: Vec<u8> = Vec::new();
    put_bytes(&mut v, space.as_bytes());
    put_u8(&mut v, 0);
    put_bytes(&mut v, table.as_bytes());
    put_u8(&mut v, 0);
    put_bytes(&mut v, record_id.as_bytes());
    assert(v@ =~= compose_key(space@, table@, record_id@));
    v
}

/// Key bytes of an entry.
pub open spec fn entry_key(e: ChunkEntryView) -> Seq<u8> {
    compose_key(e.space, e.table, e.record_id)
}

/// Within one space and table, keys sort as their record ids do.
pub proof fn law_key_order(space: Seq<char>, table: Seq<char>, a: Seq<char>, b: Seq<char>)
    ensures
        bytes_before(compose_key(space, table, a), compose_key(space, table, b)) <==> bytes_before(
            encode_utf8(a),
            encode_utf8(b),
        ),
{
    let p = encode_utf8(space) + seq![0u8] + encode_utf8(table) + seq![0u8];
    let x = encode_utf8(a);
    let y = encode_utf8(b);
    assert(compose_key(space, table, a) =~= p + x);
    assert(compose_key(space, table, b) =~= p + y);
    if bytes_before(x, y) {
        lemma_front_order(p, x, y);
    }
    if bytes_before(p + x, p + y) {
        let k = choose|k: int| crate::order::differs_at(p + x, p + y, k);
        if k < p.len() {
            assert((p + x)[k] == (p + y)[k]);
        }
        assert forall|i: int| 0 <= i < k - p.len() implies #[trigger] x[i] == y[i] by {
            assert((p + x)[i + p.len()] == (p + y)[i + p.len()]);
        }
        assert(crate::order::differs_at(x, y, k - p.len()));
    }
}

/// A common front does not change the order.
proof fn lemma_front_order(p: Seq<u8>, x: Seq<u8>, y: Seq<u8>)
    requires
        bytes_before(x, y),
    ensures
        bytes_before(p + x, p + y),
{
    let k = choose|k: int| crate::order::differs_at(x, y, k);
    assert forall|i: int| 0 <= i < p.len() + k implies #[trigger] (p + x)[i] == (p + y)[i] by {
        if i >= p.len() {
            assert(x[i - p.len()] == y[i - p.len()]);
        }
    }
    assert(crate::order::differs_at(p + x, p + y, p.len() + k));
}

/// Bytes without a zero, each followed by one, decide the order where they
/// differ.
proof fn lemma_nul_order(a: Seq<u8>, b: Seq<u8>, p: Seq<u8>, q: Seq<u8>)
    requires
        forall|i: int| 0 <= i < b.len() ==> #[trigger] b[i] != 0,
        bytes_before(a, b),
    ensures
        bytes_before(a + seq![0u8] + p, b + seq![0u8] + q),
{
    let x = a + seq![0u8] + p;
    let y = b + seq![0u8] + q;
    let k = choose|k: int| crate::order::differs_at(a, b, k);
    assert forall|i: int| 0 <= i < k implies #[trigger] x[i] == y[i] by {
        assert(a[i] == b[i]);
    }
    assert(y[k] == b[k]);
    assert(crate::order::differs_at(x, y, k));
}

/// Two joins by a zero byte sort by their fronts, then by their backs.
proof fn lemma_join_order(a: Seq<u8>, b: Seq<u8>, p: Seq<u8>, q: Seq<u8>)
    requires
        forall|i: int| 0 <= i < a.len() ==> #[trigger] a[i] != 0,
        forall|i: int| 0 <= i < b.len() ==> #[trigger] b[i] != 0,
    ensures
        bytes_before(a + seq![0u8] + p, b + seq![0u8] + q) <==> bytes_before(a, b) || (a == b
            && bytes_before(p, q)),
{
    let x = a + seq![0u8] + p;
    let y = b + seq![0u8] + q;
    lemma_bytes_total(a, b);
    lemma_bytes_total(p, q);
    if bytes_before(x, y) && bytes_before(y, x) {
        lemma_bytes_transitive(x, y, x);
    }
    lemma_bytes_irreflexive(x);
    if bytes_before(a, b) {
        lemma_nul_order(a, b, p, q);
    } else if bytes_before(b, a) {
        lemma_nul_order(b, a, q, p);
        if a == b {
            lemma_bytes_irreflexive(a);
        }
    } else if bytes_before(p, q) {
        lemma_front_order(a + seq![0u8], p, q);
    } else if bytes_before(q, p) {
        lemma_front_order(a + seq![0u8], q, p);
    }
}

/// The parts of one key sort before those of another: by space, then table,
/// then record id.
pub open spec fn parts_before(
    a: (Seq<char>, Seq<char>, Seq<char>),
    b: (Seq<char>, Seq<char>, Seq<char>),
) -> bool {
    ||| text_before(a.0, b.0)
    ||| a.0 == b.0 && text_before(a.1, b.1)
    ||| a.0 == b.0 && a.1 == b.1 && text_before(a.2, b.2)
}

/// Keys sort by space, then table, then record id, and no two records have the
/// same key, where spaces and tables are free of zero bytes.
pub proof fn law_keys_sort_by_their_parts(
    a: (Seq<char>, Seq<char>, Seq<char>),
    b: (Seq<char>, Seq<char>, Seq<char>),
)
    requires
        nul_free(a.0) && nul_free(a.1),
        nul_free(b.0) && nul_free(b.1),
    ensures
        bytes_before(compose_key(a.0, a.1, a.2), compose_key(b.0, b.1, b.2)) <==> parts_before(
            a,
            b,
        ),
        compose_key(a.0, a.1, a.2) == compose_key(b.0, b.1, b.2) <==> a == b,
{
    lemma_parts_order(a, b);
    lemma_parts_order(b, a);
    let x = compose_key(a.0, a.1, a.2);
    lemma_bytes_irreflexive(x);
    lemma_text_total(a.0, b.0);
    lemma_text_total(a.1, b.1);
    lemma_text_total(a.2, b.2);
}

proof fn lemma_parts_order(
    a: (Seq<char>, Seq<char>, Seq<char>),
    b: (Seq<char>, Seq<char>, Seq<char>),
)
    requires
        nul_free(a.0) && nul_free(a.1),
        nul_free(b.0) && nul_free(b.1),
    ensures
        bytes_before(compose_key(a.0, a.1, a.2), compose_key(b.0, b.1, b.2)) <==> parts_before(
            a,
            b,
        ),
{
    let (s, t, r) = (encode_utf8(a.0), encode_utf8(a.1), encode_utf8(a.2));
    let (u, v, w) = (encode_utf8(b.0), encode_utf8(b.1), encode_utf8(b.2));
    let x = t + seq![0u8] + r;
    let y = v + seq![0u8] + w;
    assert(compose_key(a.0, a.1, a.2) =~= s + seq![0u8] + x);
    assert(compose_key(b.0, b.1, b.2) =~= u + seq![0u8] + y);
    lemma_join_order(s, u, x, y);
    lemma_join_order(t, v, r, w);
    if s == u {
        lemma_utf8_injective(a.0, b.0);
    }
    if t == v {
        lemma_utf8_injective(a.1, b.1);
    }
}

/// Position of the first zero byte from `from` on, or the length.
pub open spec fn first_nul(s: Seq<u8>, from: int) -> int
    decreases s.len() - from,
{
    if 0 <= from < s.len() && s[from] != 0 {
        first_nul(s, from + 1)
    } else {
        from
    }
}

/// The bytes before the first zero byte.
pub open spec fn nul_head(s: Seq<u8>) -> Seq<u8> {
    s.take(first_nul(s, 0))
}

/// The bytes behind the first zero byte, none if there is no zero byte.
pub open spec fn nul_tail(s: Seq<u8>) -> Seq<u8> {
    if first_nul(s, 0) < s.len() {
        s.skip(first_nul(s, 0) + 1)
    } else {
        Seq::empty()
    }
}

proof fn lemma_first_nul_of_join(a: Seq<u8>, b: Seq<u8>, from: int)
    requires
        0 <= from <= a.len(),
        forall|i: int| 0 <= i < a.len() ==> #[trigger] a[i] != 0,
    ensures
        first_nul(a + seq![0u8] + b, from) == a.len(),
    decreases a.len() - from,
{
    let s = a + seq![0u8] + b;
    if from < a.len() {
        assert(s[from] == a[from]);
        lemma_first_nul_of_join(a, b, from + 1);
    } else {
        assert(s[from] == 0);
    }
}

proof fn lemma_first_nul_of_clean(a: Seq<u8>, from: int)
    requires
        0 <= from <= a.len(),
        forall|i: int| 0 <= i < a.len() ==> #[trigger] a[i] != 0,
    ensures
        first_nul(a, from) == a.len(),
    decreases a.len() - from,
{
    if from < a.len() {
        lemma_first_nul_of_clean(a, from + 1);
    }
}

/// Splits a key at its first zero byte.
fn split_nul(s: &[u8]) -> (r: (Vec<u8>, Vec<u8>))
    ensures
        r.0@ == nul_head(s@),
        r.1@ == nul_tail(s@),
{
    let mut i: usize = 0;
    while i < s.len() && s[i] != 0
        invariant
            i <= s@.len(),
            first_nul(s@, 0) == first_nul(s@, i as int),
        decreases s.len() - i,
    {
        i += 1;
    }
    let head = slice_to_vec(slice_subrange(s, 0, i));
    assert(head@ =~= s@.take(i as int));
    if i < s.len() {
        let tail = slice_to_vec(slice_subrange(s, i + 1, s.len()));
        assert(tail@ =~= s@.skip(i + 1));
        (head, tail)
    } else {
        let tail: Vec<u8> = Vec::new();
        (head, tail)
    }
}

// ----- entries -----

/// Bytes of user metadata, followed by `tail`.
pub open spec fn meta_then(meta: Seq<(Seq<char>, Seq<char>)>, tail: Seq<u8>) -> Seq<u8>
    decreases meta.len(),
{
    if meta.len() == 0 {
        tail
    } else {
        let k = encode_utf8(meta[0].0);
        let v = encode_utf8(meta[0].1);
        seq![k.len() as u8] + (k + (seq![v.len() as u8] + (v + meta_then(meta.drop_first(), tail))))
    }
}

/// Bytes of an entry from its schema version to its flags, followed by `tail`.
pub open spec fn entry_end_then(e: ChunkEntryView, tail: Seq<u8>) -> Seq<u8> {
    let txn = encode_utf8(e.txn_id);
    spec_u32_to_le_bytes(e.schema_version) + (seq![txn.len() as u8] + (txn + (spec_u64_to_le_bytes(
        e.commit_version,
    ) + (spec_u64_to_le_bytes(e.wal_seq) + (seq![entry_flags(e)] + tail)))))
}

/// Flag byte of an entry.
pub open spec fn entry_flags(e: ChunkEntryView) -> u8 {
    if e.deleted {
        1
    } else {
        0
    }
}

/// Content type as it is stored; absent is empty.
pub open spec fn stored_content_type(e: ChunkEntryView) -> Seq<char> {
    match e.content_type {
        Some(t) => t,
        None => Seq::empty(),
    }
}

/// Bytes of an entry up to its flags, followed by `tail`. Lengths that do not
/// fit their field lose their upper bits.
pub open spec fn entry_then(e: ChunkEntryView, tail: Seq<u8>) -> Seq<u8> {
    let key = entry_key(e);
    let ct = encode_utf8(stored_content_type(e));
    spec_u16_to_le_bytes(key.len() as u16) + (key + (spec_u32_to_le_bytes(e.value.len() as u32) + (
    e.value + (seq![ct.len() as u8] + (ct + (seq![e.user_meta.len() as u8] + meta_then(
        e.user_meta,
        entry_end_then(e, tail),
    )))))))
}

/// What the checksum of an entry covers.
pub open spec fn entry_payload(e: ChunkEntryView) -> Seq<u8> {
    entry_then(e, Seq::empty())
}

/// Bytes of an entry.
pub open spec fn entry_bytes(e: ChunkEntryView) -> Seq<u8> {
    entry_payload(e) + spec_u32_to_le_bytes(crc32(entry_payload(e)))
}

/// What follows metadata stands behind it.
pub proof fn lemma_meta_then(meta: Seq<(Seq<char>, Seq<char>)>, a: Seq<u8>, b: Seq<u8>)
    ensures
        meta_then(meta, a + b) == meta_then(meta, a) + b,
    decreases meta.len(),
{
    if meta.len() > 0 {
        let k = encode_utf8(meta[0].0);
        let v = encode_utf8(meta[0].1);
        let m = meta_then(meta.drop_first(), a);
        lemma_meta_then(meta.drop_first(), a, b);
        lemma_append(v, m, b);
        lemma_append(seq![v.len() as u8], v + m, b);
        lemma_append(k, seq![v.len() as u8] + (v + m), b);
        lemma_append(seq![k.len() as u8], k + (seq![v.len() as u8] + (v + m)), b);
    }
}

proof fn lemma_entry_then(e: ChunkEntryView, b: Seq<u8>)
    ensures
        entry_then(e, b) == entry_payload(e) + b,
{
    let nil = Seq::<u8>::empty();
    let txn = encode_utf8(e.txn_id);
    assert(nil + b =~= b);
    let t1 = seq![entry_flags(e)] + nil;
    lemma_append(seq![entry_flags(e)], nil, b);
    let t2 = spec_u64_to_le_bytes(e.wal_seq) + t1;
    lemma_append(spec_u64_to_le_bytes(e.wal_seq), t1, b);
    let t3 = spec_u64_to_le_bytes(e.commit_version) + t2;
    lemma_append(spec_u64_to_le_bytes(e.commit_version), t2, b);
    let t4 = txn + t3;
    lemma_append(txn, t3, b);
    let t5 = seq![txn.len() as u8] + t4;
    lemma_append(seq![txn.len() as u8], t4, b);
    lemma_append(spec_u32_to_le_bytes(e.schema_version), t5, b);
    assert(entry_end_then(e, b) == entry_end_then(e, nil) + b);
    lemma_meta_then(e.user_meta, entry_end_then(e, nil), b);
    let key = entry_key(e);
    let ct = encode_utf8(stored_content_type(e));
    let u1 = meta_then(e.user_meta, entry_end_then(e, nil));
    let u2 = seq![e.user_meta.len() as u8] + u1;
    lemma_append(seq![e.user_meta.len() as u8], u1, b);
    let u3 = ct + u2;
    lemma_append(ct, u2, b);
    let u4 = seq![ct.len() as u8] + u3;
    lemma_append(seq![ct.len() as u8], u3, b);
    let u5 = e.value + u4;
    lemma_append(e.value, u4, b);
    let u6 = spec_u32_to_le_bytes(e.value.len() as u32) + u5;
    lemma_append(spec_u32_to_le_bytes(e.value.len() as u32), u5, b);
    let u7 = key + u6;
    lemma_append(key, u6, b);
    lemma_append(spec_u16_to_le_bytes(key.len() as u16), u7, b);
}

/// Appends the bytes of an entry.
fn encode_entry_into(buf: &mut Vec<u8>, e: &ChunkEntry)
    ensures
        final(buf)@ == old(buf)@ + entry_bytes(e@),
{
    let ghost start = buf@;
    let ghost ev = e@;
    let mut p: Vec<u8> = Vec::new();
    let ghost whole = entry_payload(ev);
    let ghost ctb = encode_utf8(stored_content_type(ev));
    let key = compose_key_bytes(e.space.as_str(), e.table.as_str(), e.record_id.as_str());
    let empty = String::new();
    let ct: &str = match &e.content_type {
        Some(t) => t.as_str(),
        None => empty.as_str(),
    };
    let ghost end = entry_end_then(ev, Seq::empty());
    let ghost m0 = meta_then(ev.user_meta, end);
    let ghost u2 = seq![ev.user_meta.len() as u8] + m0;
    let ghost u3 = ctb + u2;
    let ghost u4 = seq![ctb.len() as u8] + u3;
    let ghost u5 = ev.value + u4;
    let ghost u6 = spec_u32_to_le_bytes(ev.value.len() as u32) + u5;
    let ghost u7 = key@ + u6;
    assert(p@ + whole =~= whole);
    let ghost w0 = p@;
    put_u16(&mut p, #[verifier::truncate] (key.len() as u16));
    proof { lemma_append(w0, spec_u16_to_le_bytes(key@.len() as u16), u7); }
    let ghost w1 = p@;
    put_bytes(&mut p, key.as_slice());
    proof { lemma_append(w1, key@, u6); }
    let ghost w2 = p@;
    put_u32(&mut p, #[verifier::truncate] (e.value.len() as u32));
    proof { lemma_append(w2, spec_u32_to_le_bytes(ev.value.len() as u32), u5); }
    let ghost w3 = p@;
    put_bytes(&mut p, e.value.as_slice());
    proof { lemma_append(w3, ev.value, u4); }
    let ghost w4 = p@;
    let ct_bytes = ct.as_bytes();
    put_u8(&mut p, #[verifier::truncate] (ct_bytes.len() as u8));
    proof { lemma_append(w4, seq![ctb.len() as u8], u3); }
    let ghost w5 = p@;
    put_bytes(&mut p, ct_bytes);
    proof { lemma_append(w5, ctb, u2); }
    let ghost w6 = p@;
    put_u8(&mut p, #[verifier::truncate] (e.user_meta.len() as u8));
    proof { lemma_append(w6, seq![ev.user_meta.len() as u8], m0); }
    let mut i: usize = 0;
    assert(ev.user_meta.skip(0) =~= ev.user_meta);
    while i < e.user_meta.len()
        invariant
            i <= e.user_meta.len(),
            ev == e@,
            p@ + meta_then(ev.user_meta.skip(i as int), end) == whole,
        decreases e.user_meta.len() - i,
    {
        let ghost left = ev.user_meta.skip(i as int);
        let ghost k = encode_utf8(left[0].0);
        let ghost v = encode_utf8(left[0].1);
        let ghost m = meta_then(left.drop_first(), end);
        assert(left[0] == ev.user_meta[i as int]);
        assert(left.drop_first() =~= ev.user_meta.skip(i + 1));
        let kb = e.user_meta[i].0.as_str().as_bytes();
        let vb = e.user_meta[i].1.as_str().as_bytes();
        let ghost x0 = p@;
        put_u8(&mut p, #[verifier::truncate] (kb.len() as u8));
        proof { lemma_append(x0, seq![k.len() as u8], k + (seq![v.len() as u8] + (v + m))); }
        let ghost x1 = p@;
        put_bytes(&mut p, kb);
        proof { lemma_append(x1, k, seq![v.len() as u8] + (v + m)); }
        let ghost x2 = p@;
        put_u8(&mut p, #[verifier::truncate] (vb.len() as u8));
        proof { lemma_append(x2, seq![v.len() as u8], v + m); }
        let ghost x3 = p@;
        put_bytes(&mut p, vb);
        proof { lemma_append(x3, v, m); }
        i += 1;
    }
    assert(ev.user_meta.skip(i as int).len() == 0);
    assert(p@ + end == whole);
    let ghost txn = encode_utf8(ev.txn_id);
    let ghost nil = Seq::<u8>::empty();
    let ghost t1 = seq![entry_flags(ev)] + nil;
    let ghost t2 = spec_u64_to_le_bytes(ev.wal_seq) + t1;
    let ghost t3 = spec_u64_to_le_bytes(ev.commit_version) + t2;
    let ghost t4 = txn + t3;
    let ghost t5 = seq![txn.len() as u8] + t4;
    let ghost y0 = p@;
    put_u32(&mut p, e.schema_version);
    proof { lemma_append(y0, spec_u32_to_le_bytes(ev.schema_version), t5); }
    let ghost y1 = p@;
    let txn_bytes = e.txn_id.as_str().as_bytes();
    put_u8(&mut p, #[verifier::truncate] (txn_bytes.len() as u8));
    proof { lemma_append(y1, seq![txn.len() as u8], t4); }
    let ghost y2 = p@;
    put_bytes(&mut p, txn_bytes);
    proof { lemma_append(y2, txn, t3); }
    let ghost y3 = p@;
    put_u64(&mut p, e.commit_version);
    proof { lemma_append(y3, spec_u64_to_le_bytes(ev.commit_version), t2); }
    let ghost y4 = p@;
    put_u64(&mut p, e.wal_seq);
    proof { lemma_append(y4, spec_u64_to_le_bytes(ev.wal_seq), t1); }
    let ghost y5 = p@;
    let flags: u8 = if e.deleted { 1 } else { 0 };
    put_u8(&mut p, flags);
    proof { lemma_append(y5, seq![entry_flags(ev)], nil); }
    assert(p@ + nil =~= p@);
    let crc = crc32_hash(p.as_slice());
    put_u32(&mut p, crc);
    put_bytes(buf, p.as_slice());
}

/// A field of bytes behind a 16-bit length.
pub open spec fn p_blob16(s: Seq<u8>) -> Option<(Seq<u8>, Seq<u8>)> {
    match p_u16(s) {
        Some((n, rest)) => p_bytes(rest, n as nat),
        None => None,
    }
}

/// A field of bytes behind a 32-bit length.
pub open spec fn p_blob32(s: Seq<u8>) -> Option<(Seq<u8>, Seq<u8>)> {
    match p_u32(s) {
        Some((n, rest)) => p_bytes(rest, n as nat),
        None => None,
    }
}

/// A text behind a one-byte length.
pub open spec fn p_text8(s: Seq<u8>) -> Option<(Seq<char>, Seq<u8>)> {
    match p_u8(s) {
        Some((n, rest)) => p_text(rest, n as nat),
        None => None,
    }
}

/// A text behind a 16-bit length.
pub open spec fn p_text16(s: Seq<u8>) -> Option<(Seq<char>, Seq<u8>)> {
    match p_u16(s) {
        Some((n, rest)) => p_text(rest, n as nat),
        None => None,
    }
}

/// `n` pairs of texts, appended to `acc`.
pub open spec fn p_meta(s: Seq<u8>, n: nat, acc: Seq<(Seq<char>, Seq<char>)>) -> Option<
    (Seq<(Seq<char>, Seq<char>)>, Seq<u8>),
>
    decreases n,
{
    if n == 0 {
        Some((acc, s))
    } else {
        match p_text8(s) {
            Some((k, s1)) => match p_text8(s1) {
                Some((v, s2)) => p_meta(s2, (n - 1) as nat, acc.push((k, v))),
                None => None,
            },
            None => None,
        }
    }
}

/// The three texts of a key.
pub open spec fn p_key(key: Seq<u8>) -> Option<(Seq<char>, Seq<char>, Seq<char>)> {
    let space = nul_head(key);
    let table = nul_head(nul_tail(key));
    let record_id = nul_head(nul_tail(nul_tail(key)));
    if valid_utf8(space) && valid_utf8(table) && valid_utf8(record_id) {
        Some((decode_utf8(space), decode_utf8(table), decode_utf8(record_id)))
    } else {
        None
    }
}

/// One body entry. The checksum field has to be there; its value is not
/// checked, since the footer covers the whole body.
pub open spec fn p_entry(s: Seq<u8>) -> Option<(ChunkEntryView, Seq<u8>)> {
    match p_entry_front(s) {
        Some(((key, value, ct, meta), s1)) => match p_key(key) {
            Some((space, table, record_id)) => match p_entry_back(s1) {
                Some(((schema_version, txn_id, commit_version, wal_seq, flags), rest)) => Some(
                    (
                        ChunkEntryView {
                            space,
                            table,
                            record_id,
                            value,
                            commit_version,
                            txn_id,
                            deleted: flags & 1 != 0,
                            content_type: if ct.len() > 0 {
                                Some(ct)
                            } else {
                                None
                            },
                            user_meta: meta,
                            schema_version,
                            wal_seq,
                        },
                        rest,
                    ),
                ),
                None => None,
            },
            None => None,
        },
        None => None,
    }
}

/// Key, value, content type and metadata of an entry.
pub open spec fn p_entry_front(s: Seq<u8>) -> Option<
    ((Seq<u8>, Seq<u8>, Seq<char>, Seq<(Seq<char>, Seq<char>)>), Seq<u8>),
> {
    match p_blob16(s) {
        Some((key, s1)) => match p_blob32(s1) {
            Some((value, s2)) => match p_text8(s2) {
                Some((ct, s3)) => match p_u8(s3) {
                    Some((n, s4)) => match p_meta(s4, n as nat, Seq::empty()) {
                        Some((meta, s5)) => Some(((key, value, ct, meta), s5)),
                        None => None,
                    },
                    None => None,
                },
                None => None,
            },
            None => None,
        },
        None => None,
    }
}

/// Schema version, transaction, versions and flags of an entry, and its
/// checksum field.
pub open spec fn p_entry_back(s: Seq<u8>) -> Option<
    ((u32, Seq<char>, u64, u64, u8), Seq<u8>),
> {
    match p_u32(s) {
        Some((schema_version, s1)) => match p_text8(s1) {
            Some((txn_id, s2)) => match p_u64(s2) {
                Some((commit_version, s3)) => match p_u64(s3) {
                    Some((wal_seq, s4)) => match p_u8(s4) {
                        Some((flags, s5)) => match p_u32(s5) {
                            Some((_crc, s6)) => Some(
                                ((schema_version, txn_id, commit_version, wal_seq, flags), s6),
                            ),
                            None => None,
                        },
                        None => None,
                    },
                    None => None,
                },
                None => None,
            },
            None => None,
        },
        None => None,
    }
}

/// Text of the error of bytes behind a 16-bit length. `s` is what is left of
/// `total` bytes, here and below.
pub open spec fn f_blob16(s: Seq<u8>, total: nat) -> Seq<char> {
    match p_u16(s) {
        Some((n, rest)) => f_bytes(rest, n as nat, total),
        None => f_bytes(s, 2, total),
    }
}

/// Text of the error of bytes behind a 32-bit length.
pub open spec fn f_blob32(s: Seq<u8>, total: nat) -> Seq<char> {
    match p_u32(s) {
        Some((n, rest)) => f_bytes(rest, n as nat, total),
        None => f_bytes(s, 4, total),
    }
}

/// Text of the error of a text behind a one-byte length.
pub open spec fn f_text8(s: Seq<u8>, field: Seq<char>, total: nat) -> Seq<char> {
    match p_u8(s) {
        Some((n, rest)) => f_text(rest, n as nat, field, total),
        None => f_bytes(s, 1, total),
    }
}

/// Text of the error of a text behind a 16-bit length.
pub open spec fn f_text16(s: Seq<u8>, field: Seq<char>, total: nat) -> Seq<char> {
    match p_u16(s) {
        Some((n, rest)) => f_text(rest, n as nat, field, total),
        None => f_bytes(s, 2, total),
    }
}

/// Text of the error of `n` pairs of texts.
pub open spec fn f_meta(s: Seq<u8>, n: nat, total: nat) -> Seq<char>
    decreases n,
{
    if n == 0 {
        Seq::empty()
    } else {
        match p_text8(s) {
            None => f_text8(s, "um k utf8: "@, total),
            Some((_, s1)) => match p_text8(s1) {
                None => f_text8(s1, "um v utf8: "@, total),
                Some((_, s2)) => f_meta(s2, (n - 1) as nat, total),
            },
        }
    }
}

/// Text of the error of a key with a part that is no UTF-8.
pub open spec fn f_key(key: Seq<u8>) -> Seq<char> {
    let space = nul_head(key);
    let table = nul_head(nul_tail(key));
    let record_id = nul_head(nul_tail(nul_tail(key)));
    if !valid_utf8(space) {
        "space utf8: "@ + utf8_failure(space)
    } else if !valid_utf8(table) {
        "table utf8: "@ + utf8_failure(table)
    } else {
        "record_id utf8: "@ + utf8_failure(record_id)
    }
}

/// Text of the error of an entry: that of its first field that fails.
pub open spec fn f_entry(s: Seq<u8>, total: nat) -> Seq<char> {
    match p_blob16(s) {
        None => f_blob16(s, total),
        Some((key, s1)) => if p_key(key) is None {
            f_key(key)
        } else {
            match p_blob32(s1) {
                None => f_blob32(s1, total),
                Some((_, s2)) => match p_text8(s2) {
                    None => f_text8(s2, "ct utf8: "@, total),
                    Some((_, s3)) => match p_u8(s3) {
                        None => f_bytes(s3, 1, total),
                        Some((n, s4)) => match p_meta(s4, n as nat, Seq::empty()) {
                            None => f_meta(s4, n as nat, total),
                            Some((_, s5)) => f_entry_back(s5, total),
                        },
                    },
                },
            }
        },
    }
}

/// Text of the error of an entry from its schema version on.
pub open spec fn f_entry_back(s: Seq<u8>, total: nat) -> Seq<char> {
    match p_u32(s) {
        None => f_bytes(s, 4, total),
        Some((_, s1)) => match p_text8(s1) {
            None => f_text8(s1, "txn utf8: "@, total),
            Some((_, s2)) => match p_u64(s2) {
                None => f_bytes(s2, 8, total),
                Some((_, s3)) => match p_u64(s3) {
                    None => f_bytes(s3, 8, total),
                    Some((_, s4)) => match p_u8(s4) {
                        None => f_bytes(s4, 1, total),
                        Some((_, s5)) => f_bytes(s5, 4, total),
                    },
                },
            },
        },
    }
}

/// Reads bytes behind a 16-bit length.
fn read_blob16(buf: &[u8], pos: usize) -> (r: Result<(Vec<u8>, usize), XtableError>)
    requires
        pos <= buf@.len(),
    ensures
        match r {
            Ok((v, next)) => pos < next <= buf@.len() && p_blob16(buf@.skip(pos as int)) == Some(
                (v@, buf@.skip(next as int)),
            ),
            Err(e) => p_blob16(buf@.skip(pos as int)) is None && e@ == (
                ErrorKind::Storage,
                f_blob16(buf@.skip(pos as int), buf@.len()),
            ),
        },
{
    let (n, p1) = read_u16(buf, pos)?;
    read_bytes(buf, p1, n as usize)
}

/// Reads bytes behind a 32-bit length.
fn read_blob32(buf: &[u8], pos: usize) -> (r: Result<(Vec<u8>, usize), XtableError>)
    requires
        pos <= buf@.len(),
    ensures
        match r {
            Ok((v, next)) => pos < next <= buf@.len() && p_blob32(buf@.skip(pos as int)) == Some(
                (v@, buf@.skip(next as int)),
            ),
            Err(e) => p_blob32(buf@.skip(pos as int)) is None && e@ == (
                ErrorKind::Storage,
                f_blob32(buf@.skip(pos as int), buf@.len()),
            ),
        },
{
    let (n, p1) = read_u32(buf, pos)?;
    read_bytes(buf, p1, n as usize)
}

/// Reads a text behind a one-byte length.
fn read_text8(buf: &[u8], pos: usize, field: &str) -> (r: Result<(String, usize), XtableError>)
    requires
        pos <= buf@.len(),
    ensures
        match r {
            Ok((t, next)) => pos < next <= buf@.len() && p_text8(buf@.skip(pos as int)) == Some(
                (t@, buf@.skip(next as int)),
            ),
            Err(e) => p_text8(buf@.skip(pos as int)) is None && e@ == (
                ErrorKind::Storage,
                f_text8(buf@.skip(pos as int), field@, buf@.len()),
            ),
        },
{
    let (n, p1) = read_u8(buf, pos)?;
    read_text(buf, p1, n as usize, field)
}

/// Reads a text behind a 16-bit length.
fn read_text16(buf: &[u8], pos: usize, field: &str) -> (r: Result<(String, usize), XtableError>)
    requires
        pos <= buf@.len(),
    ensures
        match r {
            Ok((t, next)) => pos < next <= buf@.len() && p_text16(buf@.skip(pos as int)) == Some(
                (t@, buf@.skip(next as int)),
            ),
            Err(e) => p_text16(buf@.skip(pos as int)) is None && e@ == (
                ErrorKind::Storage,
                f_text16(buf@.skip(pos as int), field@, buf@.len()),
            ),
        },
{
    let (n, p1) = read_u16(buf, pos)?;
    read_text(buf, p1, n as usize, field)
}

/// Reads `n` pairs of texts.
fn read_meta(buf: &[u8], pos: usize, n: u8) -> (r: Result<
    (Vec<(String, String)>, usize),
    XtableError,
>)
    requires
        pos <= buf@.len(),
    ensures
        match r {
            Ok((v, next)) => pos <= next <= buf@.len() && p_meta(
                buf@.skip(pos as int),
                n as nat,
                Seq::empty(),
            ) == Some((text_pairs(v@), buf@.skip(next as int))),
            Err(e) => p_meta(buf@.skip(pos as int), n as nat, Seq::empty()) is None && e@ == (
                ErrorKind::Storage,
                f_meta(buf@.skip(pos as int), n as nat, buf@.len()),
            ),
        },
{
    let mut out: Vec<(String, String)> = Vec::new();
    let mut at: usize = pos;
    let mut left: u8 = n;
    let ghost whole = p_meta(buf@.skip(pos as int), n as nat, Seq::empty());
    assert(text_pairs(out@) =~= Seq::empty());
    while left > 0
        invariant
            pos <= at <= buf@.len(),
            whole == p_meta(buf@.skip(at as int), left as nat, text_pairs(out@)),
            whole == p_meta(buf@.skip(pos as int), n as nat, Seq::empty()),
            f_meta(buf@.skip(pos as int), n as nat, buf@.len()) == f_meta(
                buf@.skip(at as int),
                left as nat,
                buf@.len(),
            ),
        decreases left,
    {
        let (k, p1) = read_text8(buf, at, "um k utf8: ")?;
        let (v, p2) = read_text8(buf, p1, "um v utf8: ")?;
        let ghost before = out@;
        out.push((k, v));
        assert(text_pairs(out@) =~= text_pairs(before).push((k@, v@)));
        at = p2;
        left -= 1;
    }
    Ok((out, at))
}

/// Splits a key into its three texts.
fn decode_key(key: &[u8]) -> (r: Result<(String, String, String), XtableError>)
    ensures
        match r {
            Ok((space, table, record_id)) => p_key(key@) == Some((space@, table@, record_id@)),
            Err(e) => p_key(key@) is None && e@ == (ErrorKind::Storage, f_key(key@)),
        },
{
    let (space_bytes, key_rest) = split_nul(key);
    let (table_bytes, key_end) = split_nul(key_rest.as_slice());
    let (record_bytes, _more) = split_nul(key_end.as_slice());
    let space = decode_text(space_bytes.as_slice(), "space utf8: ")?;
    let table = decode_text(table_bytes.as_slice(), "table utf8: ")?;
    let record_id = decode_text(record_bytes.as_slice(), "record_id utf8: ")?;
    Ok((space, table, record_id))
}

/// Reads schema version, transaction, versions and flags of an entry, and its
/// checksum field.
fn read_entry_back(buf: &[u8], pos: usize) -> (r: Result<
    ((u32, String, u64, u64, u8), usize),
    XtableError,
>)
    requires
        pos <= buf@.len(),
    ensures
        match r {
            Ok(((schema_version, txn_id, commit_version, wal_seq, flags), next)) => {
                &&& pos < next <= buf@.len()
                &&& p_entry_back(buf@.skip(pos as int)) == Some(
                    (
                        (schema_version, txn_id@, commit_version, wal_seq, flags),
                        buf@.skip(next as int),
                    ),
                )
            },
            Err(e) => p_entry_back(buf@.skip(pos as int)) is None && e@ == (
                ErrorKind::Storage,
                f_entry_back(buf@.skip(pos as int), buf@.len()),
            ),
        },
{
    let (schema_version, p1) = read_u32(buf, pos)?;
    let (txn_id, p2) = read_text8(buf, p1, "txn utf8: ")?;
    let (commit_version, p3) = read_u64(buf, p2)?;
    let (wal_seq, p4) = read_u64(buf, p3)?;
    let (flags, p5) = read_u8(buf, p4)?;
    let (_crc, p6) = read_u32(buf, p5)?;
    Ok(((schema_version, txn_id, commit_version, wal_seq, flags), p6))
}

/// Reads one entry at `pos`; returns it with the position behind it.
#[verifier::spinoff_prover]
pub fn decode_entry(buf: &[u8], pos: usize) -> (r: Result<(ChunkEntry, usize), XtableError>)
    ensures
        match r {
            Ok((e, next)) => pos < next <= buf@.len() && p_entry(buf@.skip(pos as int)) == Some(
                (e@, buf@.skip(next as int)),
            ),
            Err(e) => if pos <= buf@.len() {
                &&& p_entry(buf@.skip(pos as int)) is None
                &&& e@ == (ErrorKind::Storage, f_entry(buf@.skip(pos as int), buf@.len()))
            } else {
                e@ == truncated_error(2, pos as nat, buf@.len())
            },
        },
{
    if pos > buf.len() {
        return Err(truncated(2, pos, buf.len()));
    }
    let (key, p1) = read_blob16(buf, pos)?;
    let (space, table, record_id) = decode_key(key.as_slice())?;
    let (value, p2) = read_blob32(buf, p1)?;
    let (ct, p3) = read_text8(buf, p2, "ct utf8: ")?;
    let (um_count, p4) = read_u8(buf, p3)?;
    let (user_meta, p5) = read_meta(buf, p4, um_count)?;
    let ((schema_version, txn_id, commit_version, wal_seq, flags), p6) = read_entry_back(buf, p5)?;
    let content_type: Option<String> = if ct.as_str().is_empty() {
        None
    } else {
        Some(ct)
    };
    Ok(
        (
            ChunkEntry {
                space,
                table,
                record_id,
                value,
                commit_version,
                txn_id,
                deleted: flags & 1 != 0,
                content_type,
                user_meta,
                schema_version,
                wal_seq,
            },
            p6,
        ),
    )
}

/// All entries of a body, appended to `acc`.
pub open spec fn p_entries(s: Seq<u8>, acc: Seq<ChunkEntryView>) -> Option<Seq<ChunkEntryView>>
    decreases s.len(),
{
    if s.len() == 0 {
        Some(acc)
    } else {
        match p_entry(s) {
            Some((e, rest)) => if rest.len() < s.len() {
                p_entries(rest, acc.push(e))
            } else {
                None
            },
            None => None,
        }
    }
}

/// Text of the error of a body: that of its first entry that fails.
pub open spec fn f_entries(s: Seq<u8>, total: nat) -> Seq<char>
    decreases s.len(),
{
    match p_entry(s) {
        Some((_, rest)) => if rest.len() < s.len() {
            f_entries(rest, total)
        } else {
            Seq::empty()
        },
        None => f_entry(s, total),
    }
}

/// Decodes all entries of an uncompressed body, in stored order.
/// `expected_count` is informational: the body itself decides.
pub fn decode_body_entries(body: &[u8], expected_count: u64) -> (r: XtableResult<Vec<ChunkEntry>>)
    ensures
        match r {
            Ok(v) => p_entries(body@, Seq::empty()) == Some(entry_views(v@)),
            Err(e) => p_entries(body@, Seq::empty()) is None && e@ == (
                ErrorKind::Storage,
                f_entries(body@, body@.len()),
            ),
        },
{
    let mut out: Vec<ChunkEntry> = Vec::new();
    let mut pos: usize = 0;
    let ghost whole = p_entries(body@, Seq::empty());
    assert(entry_views(out@) =~= Seq::empty());
    assert(body@.skip(0) =~= body@);
    while pos < body.len()
        invariant
            pos <= body@.len(),
            whole == p_entries(body@, Seq::empty()),
            whole == p_entries(body@.skip(pos as int), entry_views(out@)),
            pos < body@.len() ==> f_entries(body@, body@.len()) == f_entries(
                body@.skip(pos as int),
                body@.len(),
            ),
        decreases body.len() - pos,
    {
        let (e, next) = decode_entry(body, pos)?;
        let ghost before = out@;
        out.push(e);
        assert(entry_views(out@) =~= entry_views(before).push(e@));
        pos = next;
    }
    Ok(out)
}

// ----- header -----

/// Bytes of a header, followed by `tail`.
pub open spec fn header_then(h: ChunkHeaderView, tail: Seq<u8>) -> Seq<u8> {
    let id = encode_utf8(h.chunk_id);
    let space = encode_utf8(h.space);
    let table = encode_utf8(h.table);
    chunk_magic() + (spec_u16_to_le_bytes(CHUNK_VERSION) + (spec_u16_to_le_bytes(id.len() as u16)
        + (id + (spec_u64_to_le_bytes(h.created_at_ms as u64) + (spec_u64_to_le_bytes(
        h.compressed_body_len,
    ) + (spec_u64_to_le_bytes(h.uncompressed_len) + (spec_u16_to_le_bytes(space.len() as u16) + (
    space + (spec_u16_to_le_bytes(table.len() as u16) + (table + (spec_u16_to_le_bytes(
        h.key_min.len() as u16,
    ) + (h.key_min + (spec_u16_to_le_bytes(h.key_max.len() as u16) + (h.key_max + (
    spec_u64_to_le_bytes(h.record_count) + tail)))))))))))))))
}

/// Bytes of a header.
pub open spec fn header_bytes(h: ChunkHeaderView) -> Seq<u8> {
    header_then(h, Seq::empty())
}

/// The header at the front of a chunk file, and what is behind it.
pub open spec fn p_header(s: Seq<u8>) -> Option<(ChunkHeaderView, Seq<u8>)> {
    match p_bytes(s, 4) {
        Some((magic, s1)) => if magic == chunk_magic() {
            match p_u16(s1) {
                Some((version, s2)) => if version == CHUNK_VERSION {
                    match p_header_front(s2) {
                        Some(((id, created, clen, ulen, space), s3)) => match p_header_back(s3) {
                            Some(((table, key_min, key_max, count), rest)) => Some(
                                (
                                    ChunkHeaderView {
                                        chunk_id: id,
                                        created_at_ms: created as i64,
                                        compressed_body_len: clen,
                                        uncompressed_len: ulen,
                                        space,
                                        table,
                                        key_min,
                                        key_max,
                                        record_count: count,
                                    },
                                    rest,
                                ),
                            ),
                            None => None,
                        },
                        None => None,
                    }
                } else {
                    None
                },
                None => None,
            }
        } else {
            None
        },
        None => None,
    }
}

/// The bytes are too few for a magic and a version, or begin with another
/// magic.
pub open spec fn lacks_magic(s: Seq<u8>) -> bool {
    s.len() < 6 || s.take(4) != chunk_magic()
}

/// Format version of a chunk file.
pub open spec fn file_version(s: Seq<u8>) -> u16 {
    spec_u16_from_le_bytes(s.skip(4).take(2))
}

/// Text of the error of a header: another magic or version, else that of its
/// first field that fails.
pub open spec fn f_header(s: Seq<u8>) -> Seq<char> {
    if lacks_magic(s) {
        "chunk magic mismatch"@
    } else if file_version(s) != CHUNK_VERSION {
        "chunk version "@ + decimal(file_version(s) as nat) + " unsupported"@
    } else {
        f_header_front(s.skip(6), s.len())
    }
}

/// Text of the error of a header from its chunk id on.
pub open spec fn f_header_front(s: Seq<u8>, total: nat) -> Seq<char> {
    match p_text16(s) {
        None => f_text16(s, "chunk_id utf8: "@, total),
        Some((_, s1)) => match p_u64(s1) {
            None => f_bytes(s1, 8, total),
            Some((_, s2)) => match p_u64(s2) {
                None => f_bytes(s2, 8, total),
                Some((_, s3)) => match p_u64(s3) {
                    None => f_bytes(s3, 8, total),
                    Some((_, s4)) => match p_text16(s4) {
                        None => f_text16(s4, "space utf8: "@, total),
                        Some((_, s5)) => f_header_back(s5, total),
                    },
                },
            },
        },
    }
}

/// Text of the error of a header from its table on.
pub open spec fn f_header_back(s: Seq<u8>, total: nat) -> Seq<char> {
    match p_text16(s) {
        None => f_text16(s, "table utf8: "@, total),
        Some((_, s1)) => match p_blob16(s1) {
            None => f_blob16(s1, total),
            Some((_, s2)) => match p_blob16(s2) {
                None => f_blob16(s2, total),
                Some((_, s3)) => f_bytes(s3, 8, total),
            },
        },
    }
}

/// Chunk id, creation time, lengths and space of a header.
pub open spec fn p_header_front(s: Seq<u8>) -> Option<
    ((Seq<char>, u64, u64, u64, Seq<char>), Seq<u8>),
> {
    match p_text16(s) {
        Some((id, s1)) => match p_u64(s1) {
            Some((created, s2)) => match p_u64(s2) {
                Some((clen, s3)) => match p_u64(s3) {
                    Some((ulen, s4)) => match p_text16(s4) {
                        Some((space, s5)) => Some(((id, created, clen, ulen, space), s5)),
                        None => None,
                    },
                    None => None,
                },
                None => None,
            },
            None => None,
        },
        None => None,
    }
}

/// Table, key range and record count of a header.
pub open spec fn p_header_back(s: Seq<u8>) -> Option<
    ((Seq<char>, Seq<u8>, Seq<u8>, u64), Seq<u8>),
> {
    match p_text16(s) {
        Some((table, s1)) => match p_blob16(s1) {
            Some((key_min, s2)) => match p_blob16(s2) {
                Some((key_max, s3)) => match p_u64(s3) {
                    Some((count, s4)) => Some(((table, key_min, key_max, count), s4)),
                    None => None,
                },
                None => None,
            },
            None => None,
        },
        None => None,
    }
}

/// Reads chunk id, creation time, lengths and space of a header.
fn read_header_front(buf: &[u8], pos: usize) -> (r: Result<
    ((String, u64, u64, u64, String), usize),
    XtableError,
>)
    requires
        pos <= buf@.len(),
    ensures
        match r {
            Ok(((id, created, clen, ulen, space), next)) => {
                &&& pos < next <= buf@.len()
                &&& p_header_front(buf@.skip(pos as int)) == Some(
                    ((id@, created, clen, ulen, space@), buf@.skip(next as int)),
                )
                &&& f_header_front(buf@.skip(pos as int), buf@.len()) == f_header_back(
                    buf@.skip(next as int),
                    buf@.len(),
                )
            },
            Err(e) => p_header_front(buf@.skip(pos as int)) is None && e@ == (
                ErrorKind::Storage,
                f_header_front(buf@.skip(pos as int), buf@.len()),
            ),
        },
{
    let (chunk_id, p1) = read_text16(buf, pos, "chunk_id utf8: ")?;
    let (created, p2) = read_u64(buf, p1)?;
    let (compressed_body_len, p3) = read_u64(buf, p2)?;
    let (uncompressed_len, p4) = read_u64(buf, p3)?;
    let (space, p5) = read_text16(buf, p4, "space utf8: ")?;
    Ok(((chunk_id, created, compressed_body_len, uncompressed_len, space), p5))
}

/// Reads table, key range and record count of a header.
fn read_header_back(buf: &[u8], pos: usize) -> (r: Result<
    ((String, Vec<u8>, Vec<u8>, u64), usize),
    XtableError,
>)
    requires
        pos <= buf@.len(),
    ensures
        match r {
            Ok(((table, key_min, key_max, count), next)) => {
                &&& pos < next <= buf@.len()
                &&& p_header_back(buf@.skip(pos as int)) == Some(
                    ((table@, key_min@, key_max@, count), buf@.skip(next as int)),
                )
            },
            Err(e) => p_header_back(buf@.skip(pos as int)) is None && e@ == (
                ErrorKind::Storage,
                f_header_back(buf@.skip(pos as int), buf@.len()),
            ),
        },
{
    let (table, p1) = read_text16(buf, pos, "table utf8: ")?;
    let (key_min, p2) = read_blob16(buf, p1)?;
    let (key_max, p3) = read_blob16(buf, p2)?;
    let (record_count, p4) = read_u64(buf, p3)?;
    Ok(((table, key_min, key_max, record_count), p4))
}

impl ChunkHeader {
    /// Bytes of the header.
    pub fn encode(&self) -> (r: XtableResult<Vec<u8>>)
        ensures
            r is Ok,
            r matches Ok(v) ==> v@ == header_bytes(self@),
    {
        let ghost h = self@;
        let ghost nil = Seq::<u8>::empty();
        let ghost id = encode_utf8(h.chunk_id);
        let ghost space = encode_utf8(h.space);
        let ghost table = encode_utf8(h.table);
        let ghost t1 = spec_u64_to_le_bytes(h.record_count) + nil;
        let ghost t2 = h.key_max + t1;
        let ghost t3 = spec_u16_to_le_bytes(h.key_max.len() as u16) + t2;
        let ghost t4 = h.key_min + t3;
        let ghost t5 = spec_u16_to_le_bytes(h.key_min.len() as u16) + t4;
        let ghost t6 = table + t5;
        let ghost t7 = spec_u16_to_le_bytes(table.len() as u16) + t6;
        let ghost t8 = space + t7;
        let ghost t9 = spec_u16_to_le_bytes(space.len() as u16) + t8;
        let ghost t10 = spec_u64_to_le_bytes(h.uncompressed_len) + t9;
        let ghost t11 = spec_u64_to_le_bytes(h.compressed_body_len) + t10;
        let ghost t12 = spec_u64_to_le_bytes(h.created_at_ms as u64) + t11;
        let ghost t13 = id + t12;
        let ghost t14 = spec_u16_to_le_bytes(id.len() as u16) + t13;
        let ghost t15 = spec_u16_to_le_bytes(CHUNK_VERSION) + t14;
        let mut buf: Vec<u8> = Vec::new();
        let magic: [u8; 4] = CHUNK_MAGIC;
        put_bytes(&mut buf, magic.as_slice());
        assert(buf@ =~= chunk_magic());
        let ghost w = buf@;
        put_u16(&mut buf, CHUNK_VERSION);
        proof { lemma_append(w, spec_u16_to_le_bytes(CHUNK_VERSION), t14); }
        let id_bytes = self.chunk_id.as_str().as_bytes();
        let ghost w = buf@;
        put_u16(&mut buf, #[verifier::truncate] (id_bytes.len() as u16));
        proof { lemma_append(w, spec_u16_to_le_bytes(id.len() as u16), t13); }
        let ghost w = buf@;
        put_bytes(&mut buf, id_bytes);
        proof { lemma_append(w, id, t12); }
        let ghost w = buf@;
        put_u64(&mut buf, #[verifier::truncate] (self.created_at_ms as u64));
        proof { lemma_append(w, spec_u64_to_le_bytes(h.created_at_ms as u64), t11); }
        let ghost w = buf@;
        put_u64(&mut buf, self.compressed_body_len);
        proof { lemma_append(w, spec_u64_to_le_bytes(h.compressed_body_len), t10); }
        let ghost w = buf@;
        put_u64(&mut buf, self.uncompressed_len);
        proof { lemma_append(w, spec_u64_to_le_bytes(h.uncompressed_len), t9); }
        let space_bytes = self.space.as_str().as_bytes();
        let ghost w = buf@;
        put_u16(&mut buf, #[verifier::truncate] (space_bytes.len() as u16));
        proof { lemma_append(w, spec_u16_to_le_bytes(space.len() as u16), t8); }
        let ghost w = buf@;
        put_bytes(&mut buf, space_bytes);
        proof { lemma_append(w, space, t7); }
        let table_bytes = self.table.as_str().as_bytes();
        let ghost w = buf@;
        put_u16(&mut buf, #[verifier::truncate] (table_bytes.len() as u16));
        proof { lemma_append(w, spec_u16_to_le_bytes(table.len() as u16), t6); }
        let ghost w = buf@;
        put_bytes(&mut buf, table_bytes);
        proof { lemma_append(w, table, t5); }
        let ghost w = buf@;
        put_u16(&mut buf, #[verifier::truncate] (self.key_min.len() as u16));
        proof { lemma_append(w, spec_u16_to_le_bytes(h.key_min.len() as u16), t4); }
        let ghost w = buf@;
        put_bytes(&mut buf, self.key_min.as_slice());
        proof { lemma_append(w, h.key_min, t3); }
        let ghost w = buf@;
        put_u16(&mut buf, #[verifier::truncate] (self.key_max.len() as u16));
        proof { lemma_append(w, spec_u16_to_le_bytes(h.key_max.len() as u16), t2); }
        let ghost w = buf@;
        put_bytes(&mut buf, self.key_max.as_slice());
        proof { lemma_append(w, h.key_max, t1); }
        let ghost w = buf@;
        put_u64(&mut buf, self.record_count);
        proof { lemma_append(w, spec_u64_to_le_bytes(h.record_count), nil); }
        assert(buf@ + nil =~= buf@);
        Ok(buf)
    }

    /// Parses a header from the start of `buf`. Returns it with the offset of
    /// the body.
    pub fn decode(buf: &[u8]) -> (r: XtableResult<(Self, usize)>)
        ensures
            match r {
                Ok((h, body)) => body <= buf@.len() && p_header(buf@) == Some(
                    (h@, buf@.skip(body as int)),
                ),
                Err(e) => p_header(buf@) is None && e@ == (
                    ErrorKind::Storage,
                    f_header(buf@),
                ),
            },
    {
        assert(buf@.skip(0) =~= buf@);
        let mismatch = XtableError::Storage("chunk magic mismatch".to_owned());
        if buf.len() < 6 {
            return Err(mismatch);
        }
        let (magic, p1) = match read_bytes(buf, 0, 4) {
            Ok(x) => x,
            Err(_) => return Err(mismatch),
        };
        let expected: [u8; 4] = CHUNK_MAGIC;
        assert(expected@ =~= chunk_magic());
        if !same_bytes(magic.as_slice(), expected.as_slice()) {
            return Err(mismatch);
        }
        let (version, p2) = read_u16(buf, p1)?;
        if version != CHUNK_VERSION {
            let mut m = "chunk version ".to_owned();
            m.append(decimal_text(version as u64).as_str());
            m.append(" unsupported");
            return Err(XtableError::Storage(m));
        }
        assert(buf@.skip(4).skip(2) =~= buf@.skip(6));
        let ((chunk_id, created, compressed_body_len, uncompressed_len, space), p3) =
            read_header_front(buf, p2)?;
        let ((table, key_min, key_max, record_count), p4) = read_header_back(buf, p3)?;
        Ok(
            (
                ChunkHeader {
                    chunk_id,
                    created_at_ms: #[verifier::truncate] (created as i64),
                    compressed_body_len,
                    uncompressed_len,
                    space,
                    table,
                    key_min,
                    key_max,
                    record_count,
                },
                p4,
            ),
        )
    }
}

// ----- footer -----

/// Rows of a key index, as they are serialised.
pub open spec fn key_index_rows(index: Seq<KeyIndexEntryView>) -> Seq<(Seq<u8>, u64, u64)> {
    index.map_values(|k: KeyIndexEntryView| (k.key_bytes, k.body_offset, k.commit_version))
}

/// Bytes of a serialised key index.
pub open spec fn key_index_bytes(index: Seq<KeyIndexEntryView>) -> Seq<u8> {
    spec_u64_to_le_bytes(index.len() as u64) + row_bytes(key_index_rows(index))
}

/// Bytes of a footer, followed by `tail`.
pub open spec fn footer_then(f: ChunkFooterView, tail: Seq<u8>) -> Seq<u8> {
    let ki = key_index_bytes(f.key_index);
    spec_u32_to_le_bytes(f.bloom.len() as u32) + (f.bloom + (spec_u32_to_le_bytes(ki.len() as u32)
        + (ki + (spec_u32_to_le_bytes(f.body_crc32c) + (footer_magic() + tail)))))
}

/// Bytes of a footer.
pub open spec fn footer_bytes(f: ChunkFooterView) -> Seq<u8> {
    footer_then(f, Seq::empty())
}

/// The key index that rows stand for.
pub open spec fn key_index_of(rows: Seq<(Seq<u8>, u64, u64)>) -> Seq<KeyIndexEntryView> {
    rows.map_values(
        |r: (Seq<u8>, u64, u64)|
            KeyIndexEntryView { key_bytes: r.0, body_offset: r.1, commit_version: r.2 },
    )
}

/// The footer in front of `s`: bloom filter, key index and checksum.
pub open spec fn p_footer_fields(s: Seq<u8>) -> Option<ChunkFooterView> {
    match p_blob32(s) {
        Some((bloom, s1)) => match p_blob32(s1) {
            Some((ki, s2)) => match bincode_rows(ki) {
                Ok(rows) => match p_u32(s2) {
                    Some((crc, _)) => Some(
                        ChunkFooterView {
                            bloom,
                            key_index: key_index_of(rows),
                            body_crc32c: crc,
                        },
                    ),
                    None => None,
                },
                Err(_) => None,
            },
            None => None,
        },
        None => None,
    }
}

/// A footer: the bytes end in the footer magic and begin with its fields.
pub open spec fn p_footer(s: Seq<u8>) -> Option<ChunkFooterView> {
    if s.len() >= 8 && s.skip(s.len() - 4) == footer_magic() {
        p_footer_fields(s)
    } else {
        None
    }
}

/// Text of the error of a footer: another magic, else that of its first field
/// that fails.
pub open spec fn f_footer(s: Seq<u8>) -> Seq<char> {
    if s.len() < 8 || s.skip(s.len() - 4) != footer_magic() {
        "chunk footer magic mismatch"@
    } else {
        match p_blob32(s) {
            None => f_blob32(s, s.len()),
            Some((_, s1)) => match p_blob32(s1) {
                None => f_blob32(s1, s.len()),
                Some((ki, s2)) => match bincode_rows(ki) {
                    Err(m) => "bincode: "@ + m,
                    Ok(_) => f_bytes(s2, 4, s.len()),
                },
            },
        }
    }
}

impl ChunkFooter {
    /// Bytes of the footer.
    pub fn encode(&self) -> (r: XtableResult<Vec<u8>>)
        ensures
            r is Ok,
            r matches Ok(v) ==> v@ == footer_bytes(self@) && (footer_fits(self@) ==> p_footer(v@)
                == Some(self@)),
    {
        let ghost f = self@;
        let mut rows: Vec<IndexRow> = Vec::new();
        let mut i: usize = 0;
        assert(index_rows(rows@) =~= key_index_rows(f.key_index).take(0));
        while i < self.key_index.len()
            invariant
                i <= self.key_index.len(),
                f == self@,
                rows@.len() == i,
                index_rows(rows@) == key_index_rows(f.key_index).take(i as int),
            decreases self.key_index.len() - i,
        {
            let ghost before = rows@;
            let k = &self.key_index[i];
            rows.push((copy_bytes(k.key_bytes.as_slice()), k.body_offset, k.commit_version));
            proof {
                let row = (k.key_bytes@, k.body_offset, k.commit_version);
                assert(index_rows(rows@) =~= index_rows(before).push(row));
                assert(f.key_index[i as int] == k@);
                assert(key_index_rows(f.key_index).take(i + 1) =~= key_index_rows(
                    f.key_index,
                ).take(i as int).push(row));
            }
            i += 1;
        }
        assert(key_index_rows(f.key_index).take(i as int) =~= key_index_rows(f.key_index));
        let ki_bytes = match bincode_write_rows(&rows) {
            Ok(v) => v,
            Err(m) => return Err(storage_error("bincode: ", m.as_str())),
        };
        let ghost ki = ki_bytes@;
        assert(ki == key_index_bytes(f.key_index));
        let ghost nil = Seq::<u8>::empty();
        let ghost t1 = footer_magic() + nil;
        let ghost t2 = spec_u32_to_le_bytes(f.body_crc32c) + t1;
        let ghost t3 = ki + t2;
        let ghost t4 = spec_u32_to_le_bytes(ki.len() as u32) + t3;
        let ghost t5 = f.bloom + t4;
        let mut buf: Vec<u8> = Vec::new();
        let ghost w = buf@;
        put_u32(&mut buf, #[verifier::truncate] (self.bloom.len() as u32));
        proof {
            lemma_append(w, spec_u32_to_le_bytes(f.bloom.len() as u32), t5);
            assert(w + footer_bytes(f) =~= footer_bytes(f));
        }
        let ghost w = buf@;
        put_bytes(&mut buf, self.bloom.as_slice());
        proof { lemma_append(w, f.bloom, t4); }
        let ghost w = buf@;
        put_u32(&mut buf, #[verifier::truncate] (ki_bytes.len() as u32));
        proof { lemma_append(w, spec_u32_to_le_bytes(ki.len() as u32), t3); }
        let ghost w = buf@;
        put_bytes(&mut buf, ki_bytes.as_slice());
        proof { lemma_append(w, ki, t2); }
        let ghost w = buf@;
        put_u32(&mut buf, self.body_crc32c);
        proof { lemma_append(w, spec_u32_to_le_bytes(f.body_crc32c), t1); }
        let ghost w = buf@;
        let magic: [u8; 4] = FOOTER_MAGIC;
        assert(magic@ =~= footer_magic());
        put_bytes(&mut buf, magic.as_slice());
        proof {
            lemma_append(w, footer_magic(), nil);
            assert(buf@ + nil =~= buf@);
            if footer_fits(f) {
                lemma_footer_fields(f, nil);
                assert(key_index_of(key_index_rows(f.key_index)) =~= f.key_index);
            }
        }
        Ok(buf)
    }

    /// Parses a footer; `buf` ends with the footer magic.
    pub fn decode(buf: &[u8]) -> (r: XtableResult<Self>)
        ensures
            match r {
                Ok(f) => p_footer(buf@) == Some(f@),
                Err(e) => p_footer(buf@) is None && e@ == (ErrorKind::Storage, f_footer(buf@)),
            },
    {
        let expected: [u8; 4] = FOOTER_MAGIC;
        assert(expected@ =~= footer_magic());
        if buf.len() < 8 {
            return Err(XtableError::Storage("chunk footer magic mismatch".to_owned()));
        }
        let end = slice_subrange(buf, buf.len() - 4, buf.len());
        assert(end@ =~= buf@.skip(buf@.len() - 4));
        if !same_bytes(end, expected.as_slice()) {
            return Err(XtableError::Storage("chunk footer magic mismatch".to_owned()));
        }
        assert(buf@.skip(0) =~= buf@);
        let (bloom, p1) = read_blob32(buf, 0)?;
        let (ki, p2) = read_blob32(buf, p1)?;
        let rows = match bincode_read_rows(ki.as_slice()) {
            Ok(rows) => rows,
            Err(m) => return Err(storage_error("bincode: ", m.as_str())),
        };
        let (body_crc32c, _p3) = read_u32(buf, p2)?;
        let mut key_index: Vec<KeyIndexEntry> = Vec::new();
        let mut i: usize = 0;
        assert(key_index_views(key_index@) =~= key_index_of(index_rows(rows@)).take(0));
        while i < rows.len()
            invariant
                i <= rows.len(),
                key_index_views(key_index@) == key_index_of(index_rows(rows@)).take(i as int),
            decreases rows.len() - i,
        {
            let ghost before = key_index@;
            let row = &rows[i];
            key_index.push(
                KeyIndexEntry {
                    key_bytes: copy_bytes(row.0.as_slice()),
                    body_offset: row.1,
                    commit_version: row.2,
                },
            );
            proof {
                let k = KeyIndexEntryView {
                    key_bytes: row.0@,
                    body_offset: row.1,
                    commit_version: row.2,
                };
                assert(key_index_views(key_index@) =~= key_index_views(before).push(k));
                assert(key_index_of(index_rows(rows@)).take(i + 1) =~= key_index_of(
                    index_rows(rows@),
                ).take(i as int).push(k));
            }
            i += 1;
        }
        assert(key_index_of(index_rows(rows@)).take(i as int) =~= key_index_of(index_rows(rows@)));
        Ok(ChunkFooter { bloom, key_index, body_crc32c })
    }
}

// ----- bloom filter -----

/// Bit `pos` of a filter.
pub open spec fn bloom_bit(bloom: Seq<u8>, pos: int) -> bool {
    bloom[pos / 8] & (1u8 << ((pos % 8) as u8)) != 0
}

/// Bit of a filter of `len` bytes that a hash stands for.
pub open spec fn bloom_position(hash: u64, len: nat) -> int {
    (hash as usize) as int % (len * 8) as int
}

/// First hash of a key.
pub open spec fn first_hash(key: Seq<u8>) -> u64 {
    xxh3(key)
}

/// Second hash of a key: that of the first one's bytes.
pub open spec fn second_hash(key: Seq<u8>) -> u64 {
    xxh3(spec_u64_to_le_bytes(xxh3(key)))
}

/// Both bits of `key` are set; an empty filter rules nothing out.
pub open spec fn bloom_admits(bloom: Seq<u8>, key: Seq<u8>) -> bool {
    bloom.len() == 0 || (bloom_bit(bloom, bloom_position(first_hash(key), bloom.len()))
        && bloom_bit(bloom, bloom_position(second_hash(key), bloom.len())))
}

/// Number of bytes of a filter for `n` keys.
pub open spec fn bloom_len(n: nat, bits_per_key: nat) -> nat {
    let keys = if n == 0 {
        1
    } else {
        n
    };
    let bits = if keys * bits_per_key < 64 {
        64
    } else {
        keys * bits_per_key
    };
    (bits + 7) / 8
}

/// Bit `pos` is one of those of the first `n` keys.
pub open spec fn bit_of_keys(keys: Seq<Seq<u8>>, n: int, len: nat, pos: int) -> bool {
    exists|i: int|
        0 <= i < n && (bloom_position(first_hash(#[trigger] keys[i]), len) == pos || bloom_position(
            second_hash(keys[i]),
            len,
        ) == pos)
}

/// `bloom` is the filter of `keys`: it has the right size, and exactly the
/// bits of the keys are set.
pub open spec fn is_bloom_of(bloom: Seq<u8>, keys: Seq<Seq<u8>>, bits_per_key: nat) -> bool {
    &&& bloom.len() == bloom_len(keys.len(), bits_per_key)
    &&& forall|pos: int|
        0 <= pos < bloom.len() * 8 ==> (#[trigger] bloom_bit(bloom, pos) <==> bit_of_keys(
            keys,
            keys.len() as int,
            bloom.len(),
            pos,
        ))
}

/// A filter never rejects a key that it was built from.
pub proof fn law_bloom_has_no_false_negatives(
    bloom: Seq<u8>,
    keys: Seq<Seq<u8>>,
    bits_per_key: nat,
    i: int,
)
    requires
        is_bloom_of(bloom, keys, bits_per_key),
        0 <= i < keys.len(),
    ensures
        bloom_admits(bloom, keys[i]),
{
    let len = bloom.len();
    let k = keys[i];
    assert(len >= 8);
    let p1 = bloom_position(first_hash(k), len);
    let p2 = bloom_position(second_hash(k), len);
    assert(bit_of_keys(keys, keys.len() as int, len, p1));
    assert(bit_of_keys(keys, keys.len() as int, len, p2));
    assert(bloom_bit(bloom, p1));
    assert(bloom_bit(bloom, p2));
}

/// Keys as sequences of bytes.
pub open spec fn key_views(keys: Seq<Vec<u8>>) -> Seq<Seq<u8>> {
    keys.map_values(|k: Vec<u8>| k@)
}

/// Sets bit `pos`.
fn set_bloom_bit(bits: &mut Vec<u8>, pos: usize)
    requires
        pos < old(bits)@.len() * 8,
    ensures
        final(bits)@.len() == old(bits)@.len(),
        forall|p: int|
            0 <= p < old(bits)@.len() * 8 ==> (#[trigger] bloom_bit(final(bits)@, p) <==> (p == pos
                || bloom_bit(old(bits)@, p))),
{
    let ghost before = bits@;
    let byte: usize = pos / 8;
    let shift: u8 = (pos % 8) as u8;
    let value: u8 = bits[byte] | (1u8 << shift);
    bits[byte] = value;
    proof {
        assert forall|p: int| 0 <= p < before.len() * 8 implies (#[trigger] bloom_bit(bits@, p)
            <==> (p == pos || bloom_bit(before, p))) by {
            let b = before[byte as int];
            let j = (p % 8) as u8;
            assert(shift < 8 && j < 8 ==> (((b | (1u8 << shift)) & (1u8 << j) != 0) <==> (shift == j
                || b & (1u8 << j) != 0))) by (bit_vector);
            if p / 8 == byte {
                assert(bits@[p / 8] == b | (1u8 << shift));
                assert(p == pos <==> j == shift);
            } else {
                assert(bits@[p / 8] == before[p / 8]);
            }
        }
    }
}

/// Builds the filter of `keys`.
pub fn build_bloom(keys: &[Vec<u8>], bits_per_key: usize) -> (r: Vec<u8>)
    requires
        keys@.len() * bits_per_key + 7 <= usize::MAX,
        bits_per_key + 7 <= usize::MAX,
    ensures
        is_bloom_of(r@, key_views(keys@), bits_per_key as nat),
{
    let n: usize = if keys.len() == 0 {
        1
    } else {
        keys.len()
    };
    proof {
        if keys@.len() == 0 {
            assert(1 * bits_per_key == bits_per_key) by (nonlinear_arith);
        }
        assert(0 <= n * bits_per_key) by (nonlinear_arith)
            requires
                0 <= n,
                0 <= bits_per_key,
        ;
    }
    let wanted: usize = n * bits_per_key;
    let total_bits: usize = if wanted < 64 {
        64
    } else {
        wanted
    };
    let total_bytes: usize = (total_bits + 7) / 8;
    let ghost kv = key_views(keys@);
    let mut bits: Vec<u8> = Vec::new();
    let mut z: usize = 0;
    while z < total_bytes
        invariant
            z <= total_bytes,
            bits@.len() == z,
            forall|i: int| 0 <= i < z ==> #[trigger] bits@[i] == 0,
        decreases total_bytes - z,
    {
        bits.push(0);
        z += 1;
    }
    proof {
        assert(total_bytes == bloom_len(kv.len(), bits_per_key as nat));
        assert forall|pos: int| 0 <= pos < bits@.len() * 8 implies (#[trigger] bloom_bit(bits@, pos)
            <==> bit_of_keys(kv, 0, total_bytes as nat, pos)) by {
            let j = (pos % 8) as u8;
            assert(0u8 & (1u8 << j) == 0) by (bit_vector);
        }
    }
    let mut i: usize = 0;
    while i < keys.len()
        invariant
            i <= keys@.len(),
            kv == key_views(keys@),
            bits@.len() == total_bytes,
            8 <= total_bytes,
            total_bytes * 8 <= usize::MAX,
            forall|pos: int|
                0 <= pos < total_bytes * 8 ==> (#[trigger] bloom_bit(bits@, pos) <==> bit_of_keys(
                    kv,
                    i as int,
                    total_bytes as nat,
                    pos,
                )),
        decreases keys.len() - i,
    {
        let ghost before = bits@;
        let h1 = xxh3_hash(keys[i].as_slice());
        let h2 = xxh3_hash(u64_to_le_bytes(h1).as_slice());
        let p1: usize = (#[verifier::truncate] (h1 as usize)) % (total_bytes * 8);
        let p2: usize = (#[verifier::truncate] (h2 as usize)) % (total_bytes * 8);
        set_bloom_bit(&mut bits, p1);
        set_bloom_bit(&mut bits, p2);
        proof {
            let len = total_bytes as nat;
            assert(kv[i as int] == keys@[i as int]@);
            assert(p1 == bloom_position(first_hash(kv[i as int]), len));
            assert(p2 == bloom_position(second_hash(kv[i as int]), len));
            assert forall|pos: int| 0 <= pos < total_bytes * 8 implies (#[trigger] bloom_bit(
                bits@,
                pos,
            ) <==> bit_of_keys(kv, i + 1, len, pos)) by {
                assert(bloom_bit(bits@, pos) <==> (pos == p1 || pos == p2 || bloom_bit(
                    before,
                    pos,
                )));
                if bit_of_keys(kv, i as int, len, pos) {
                    let w = choose|w: int|
                        0 <= w < i && (bloom_position(first_hash(#[trigger] kv[w]), len) == pos
                            || bloom_position(second_hash(kv[w]), len) == pos);
                    assert(0 <= w < i + 1);
                }
                if pos == p1 || pos == p2 {
                    assert(bit_of_keys(kv, i + 1, len, pos));
                }
            }
        }
        i += 1;
    }
    bits
}

/// Whether `key` may be in the filter.
pub fn bloom_may_contain(bloom: &[u8], key: &[u8]) -> (r: bool)
    ensures
        r == bloom_admits(bloom@, key@),
{
    if bloom.len() == 0 {
        return true;
    }
    let h1 = xxh3_hash(key);
    let h2 = xxh3_hash(u64_to_le_bytes(h1).as_slice());
    let bits: u128 = bloom.len() as u128 * 8;
    let x1: usize = #[verifier::truncate] (h1 as usize);
    let x2: usize = #[verifier::truncate] (h2 as usize);
    proof {
        vstd::arithmetic::div_mod::lemma_mod_decreases(x1 as nat, bits as nat);
        vstd::arithmetic::div_mod::lemma_mod_decreases(x2 as nat, bits as nat);
    }
    let p1: usize = (x1 as u128 % bits) as usize;
    let p2: usize = (x2 as u128 % bits) as usize;
    let s1: u8 = (p1 % 8) as u8;
    let s2: u8 = (p2 % 8) as u8;
    if bloom[p1 / 8] & (1u8 << s1) == 0 {
        return false;
    }
    bloom[p2 / 8] & (1u8 << s2) != 0
}

// ----- writer -----

/// Inserts an entry behind all entries whose key does not sort after its own.
pub open spec fn sorted_insert(s: Seq<ChunkEntryView>, e: ChunkEntryView) -> Seq<ChunkEntryView>
    decreases s.len(),
{
    if s.len() > 0 && bytes_before(entry_key(e), entry_key(s.last())) {
        sorted_insert(s.drop_last(), e).push(s.last())
    } else {
        s.push(e)
    }
}

/// Entries in ascending key order; entries with the same key may repeat.
pub open spec fn key_sorted(s: Seq<ChunkEntryView>) -> bool {
    forall|i: int, j: int|
        0 <= i < j < s.len() ==> !bytes_before(
            entry_key(#[trigger] s[j]),
            entry_key(#[trigger] s[i]),
        )
}

/// Number of trailing entries of the first `n` that sort after `key`.
spec fn insert_at(s: Seq<ChunkEntryView>, key: Seq<u8>, n: nat) -> nat
    decreases n,
{
    if n > 0 && bytes_before(key, entry_key(s[n - 1])) {
        insert_at(s, key, (n - 1) as nat)
    } else {
        n
    }
}

proof fn lemma_sorted_insert_at(s: Seq<ChunkEntryView>, e: ChunkEntryView, n: nat)
    requires
        n <= s.len(),
    ensures
        insert_at(s, entry_key(e), n) <= n,
        sorted_insert(s.take(n as int), e) == s.take(n as int).insert(
            insert_at(s, entry_key(e), n) as int,
            e,
        ),
    decreases n,
{
    let t = s.take(n as int);
    if n > 0 && bytes_before(entry_key(e), entry_key(s[n - 1])) {
        lemma_sorted_insert_at(s, e, (n - 1) as nat);
        assert(t.drop_last() =~= s.take(n - 1));
        let k = insert_at(s, entry_key(e), n) as int;
        assert(s.take(n - 1).insert(k, e).push(t.last()) =~= t.insert(k, e));
    } else {
        assert(t.push(e) =~= t.insert(n as int, e));
        if n > 0 {
            assert(t.last() == s[n - 1]);
        }
    }
}

/// Inserting keeps the entries in key order and adds just the one entry.
pub proof fn law_sorted_insert(s: Seq<ChunkEntryView>, e: ChunkEntryView)
    requires
        key_sorted(s),
    ensures
        key_sorted(sorted_insert(s, e)),
        sorted_insert(s, e).to_multiset() == s.to_multiset().insert(e),
    decreases s.len(),
{
    broadcast use vstd::seq_lib::group_to_multiset_ensures;

    if s.len() > 0 && bytes_before(entry_key(e), entry_key(s.last())) {
        let p = s.drop_last();
        assert(key_sorted(p));
        law_sorted_insert(p, e);
        let q = sorted_insert(p, e);
        let r = q.push(s.last());
        assert(s =~= p.push(s.last()));
        assert(r.to_multiset() =~= s.to_multiset().insert(e));
        assert forall|i: int, j: int| 0 <= i < j < r.len() implies !bytes_before(
            entry_key(#[trigger] r[j]),
            entry_key(#[trigger] r[i]),
        ) by {
            if j == q.len() {
                assert(q.to_multiset().count(q[i]) > 0);
                assert(q.contains(q[i]));
                if q[i] != e {
                    assert(p.to_multiset().count(q[i]) > 0);
                    assert(p.contains(q[i]));
                    let w = choose|w: int| 0 <= w < p.len() && p[w] == q[i];
                    assert(s[w] == q[i]);
                } else if bytes_before(entry_key(s.last()), entry_key(e)) {
                    lemma_bytes_transitive(
                        entry_key(e),
                        entry_key(s.last()),
                        entry_key(e),
                    );
                    lemma_bytes_irreflexive(entry_key(e));
                }
            }
        }
    } else {
        let r = s.push(e);
        assert forall|i: int, j: int| 0 <= i < j < r.len() implies !bytes_before(
            entry_key(#[trigger] r[j]),
            entry_key(#[trigger] r[i]),
        ) by {
            if j == s.len() && bytes_before(entry_key(e), entry_key(s[i])) {
                lemma_bytes_total(entry_key(s[i]), entry_key(s.last()));
                if bytes_before(entry_key(s[i]), entry_key(s.last())) {
                    lemma_bytes_transitive(
                        entry_key(e),
                        entry_key(s[i]),
                        entry_key(s.last()),
                    );
                } else if i < s.len() - 1 {
                    assert(!bytes_before(entry_key(s[s.len() - 1]), entry_key(s[i])));
                }
            }
        }
    }
}

/// Bytes of entries in a row.
pub open spec fn body_bytes(s: Seq<ChunkEntryView>) -> Seq<u8>
    decreases s.len(),
{
    if s.len() == 0 {
        Seq::empty()
    } else {
        body_bytes(s.drop_last()) + entry_bytes(s.last())
    }
}

/// Keys of entries.
pub open spec fn entry_keys(s: Seq<ChunkEntryView>) -> Seq<Seq<u8>> {
    s.map_values(|e: ChunkEntryView| entry_key(e))
}

/// Every `KEY_INDEX_SAMPLE_EVERY`th entry, with its offset in the body.
pub open spec fn key_samples(s: Seq<ChunkEntryView>) -> Seq<KeyIndexEntryView>
    decreases s.len(),
{
    if s.len() == 0 {
        Seq::empty()
    } else {
        let before = s.drop_last();
        if before.len() % KEY_INDEX_SAMPLE_EVERY as nat == 0 {
            key_samples(before).push(
                KeyIndexEntryView {
                    key_bytes: entry_key(s.last()),
                    body_offset: body_bytes(before).len() as u64,
                    commit_version: s.last().commit_version,
                },
            )
        } else {
            key_samples(before)
        }
    }
}

/// Mathematical view of a [`ChunkWriter`].
pub ghost struct ChunkWriterView {
    pub chunk_id: Seq<char>,
    pub space: Seq<char>,
    pub table: Seq<char>,
    /// Entries in the order in which they will be written.
    pub entries: Seq<ChunkEntryView>,
}

/// Header of the chunk that a writer makes.
pub open spec fn chunk_header(
    w: ChunkWriterView,
    compressed_len: nat,
    created_at_ms: i64,
) -> ChunkHeaderView {
    ChunkHeaderView {
        chunk_id: w.chunk_id,
        created_at_ms,
        compressed_body_len: compressed_len as u64,
        uncompressed_len: body_bytes(w.entries).len() as u64,
        space: w.space,
        table: w.table,
        key_min: if w.entries.len() == 0 {
            Seq::empty()
        } else {
            entry_key(w.entries.first())
        },
        key_max: if w.entries.len() == 0 {
            Seq::empty()
        } else {
            entry_key(w.entries.last())
        },
        record_count: w.entries.len() as u64,
    }
}

/// `f` is the footer of the chunk that a writer makes.
pub open spec fn is_chunk_footer(w: ChunkWriterView, f: ChunkFooterView) -> bool {
    &&& is_bloom_of(f.bloom, entry_keys(w.entries), BLOOM_BITS_PER_KEY as nat)
    &&& f.key_index == key_samples(w.entries)
    &&& f.body_crc32c == crc32(body_bytes(w.entries))
}

/// Bytes of a chunk file.
pub open spec fn chunk_file(h: ChunkHeaderView, compressed: Seq<u8>, f: ChunkFooterView) -> Seq<
    u8,
> {
    header_bytes(h) + compressed + footer_bytes(f) + spec_u32_to_le_bytes(
        footer_bytes(f).len() as u32,
    )
}

/// What decompressing gives where it gives `body`.
pub open spec fn unpacked(body: Seq<u8>) -> Result<Seq<u8>, Seq<char>> {
    Ok(body)
}

/// Collects entries and produces a complete chunk file.
pub struct ChunkWriter {
    chunk_id: String,
    space: String,
    table: String,
    entries: Vec<ChunkEntry>,
}

impl View for ChunkWriter {
    type V = ChunkWriterView;

    closed spec fn view(&self) -> ChunkWriterView {
        ChunkWriterView {
            chunk_id: self.chunk_id@,
            space: self.space@,
            table: self.table@,
            entries: entry_views(self.entries@),
        }
    }
}

impl ChunkWriter {
    /// A writer without entries.
    pub fn new(chunk_id: String, space: String, table: String) -> (r: Self)
        ensures
            r@ == (ChunkWriterView {
                chunk_id: chunk_id@,
                space: space@,
                table: table@,
                entries: Seq::empty(),
            }),
    {
        let r = ChunkWriter { chunk_id, space, table, entries: Vec::new() };
        assert(r@.entries =~= Seq::empty());
        r
    }

    /// Adds an entry at its place in key order.
    pub fn append(&mut self, e: ChunkEntry) -> (r: XtableResult<()>)
        ensures
            r is Ok,
            final(self)@ == (ChunkWriterView {
                entries: sorted_insert(old(self)@.entries, e@),
                ..old(self)@
            }),
    {
        let ghost s = self@.entries;
        let key = compose_key_bytes(e.space.as_str(), e.table.as_str(), e.record_id.as_str());
        let ghost ev = e@;
        let mut n: usize = self.entries.len();
        let mut searching: bool = true;
        while searching && n > 0
            invariant
                n <= self.entries.len(),
                *self == *old(self),
                s == entry_views(self.entries@),
                key@ == entry_key(ev),
                insert_at(s, entry_key(ev), s.len()) == insert_at(s, entry_key(ev), n as nat),
                !searching ==> insert_at(s, entry_key(ev), n as nat) == n,
            decreases n + if searching { 1int } else { 0int },
        {
            let last = &self.entries[n - 1];
            let last_key = compose_key_bytes(
                last.space.as_str(),
                last.table.as_str(),
                last.record_id.as_str(),
            );
            assert(last_key@ == entry_key(s[n - 1]));
            match compare_bytes(key.as_slice(), last_key.as_slice()) {
                KeyOrder::Less => {
                    n -= 1;
                },
                KeyOrder::Equal => {
                    proof { lemma_bytes_irreflexive(key@); }
                    searching = false;
                },
                KeyOrder::Greater => {
                    proof {
                        if bytes_before(key@, last_key@) {
                            lemma_bytes_transitive(key@, last_key@, key@);
                            lemma_bytes_irreflexive(key@);
                        }
                    }
                    searching = false;
                },
            }
        }
        proof {
            lemma_sorted_insert_at(s, ev, s.len());
            assert(s.take(s.len() as int) =~= s);
        }
        self.entries.insert(n, e);
        assert(self@.entries =~= s.insert(n as int, ev));
        Ok(())
    }

    /// Number of entries.
    pub fn len(&self) -> (n: usize)
        ensures
            n == self@.entries.len(),
    {
        self.entries.len()
    }

    /// Bytes of all entries, before compression.
    pub fn encode_body(&self) -> (r: Vec<u8>)
        ensures
            r@ == body_bytes(self@.entries),
    {
        let ghost s = self@.entries;
        let mut body: Vec<u8> = Vec::new();
        let mut i: usize = 0;
        assert(s.take(0) =~= Seq::empty());
        while i < self.entries.len()
            invariant
                i <= self.entries.len(),
                s == entry_views(self.entries@),
                body@ == body_bytes(s.take(i as int)),
            decreases self.entries.len() - i,
        {
            encode_entry_into(&mut body, &self.entries[i]);
            proof {
                assert(s.take(i + 1).drop_last() =~= s.take(i as int));
                assert(s.take(i + 1).last() == self.entries@[i as int]@);
            }
            i += 1;
        }
        assert(s.take(i as int) =~= s);
        body
    }

    /// Samples of the key index.
    fn sample_keys(&self) -> (r: Vec<KeyIndexEntry>)
        ensures
            key_index_views(r@) == key_samples(self@.entries),
    {
        let ghost s = self@.entries;
        let mut out: Vec<KeyIndexEntry> = Vec::new();
        let mut body: Vec<u8> = Vec::new();
        let mut i: usize = 0;
        assert(s.take(0) =~= Seq::empty());
        assert(key_index_views(out@) =~= key_samples(s.take(0)));
        while i < self.entries.len()
            invariant
                i <= self.entries.len(),
                s == entry_views(self.entries@),
                body@ == body_bytes(s.take(i as int)),
                key_index_views(out@) == key_samples(s.take(i as int)),
            decreases self.entries.len() - i,
        {
            let e = &self.entries[i];
            let ghost before = out@;
            proof {
                assert(s.take(i + 1).drop_last() =~= s.take(i as int));
                assert(s.take(i + 1).last() == e@);
            }
            if i % KEY_INDEX_SAMPLE_EVERY == 0 {
                let k = KeyIndexEntry {
                    key_bytes: compose_key_bytes(
                        e.space.as_str(),
                        e.table.as_str(),
                        e.record_id.as_str(),
                    ),
                    body_offset: body.len() as u64,
                    commit_version: e.commit_version,
                };
                let ghost kv = k@;
                out.push(k);
                assert(key_index_views(out@) =~= key_index_views(before).push(kv));
            }
            encode_entry_into(&mut body, e);
            i += 1;
        }
        assert(s.take(i as int) =~= s);
        out
    }

    /// Keys of all entries.
    fn keys(&self) -> (r: Vec<Vec<u8>>)
        ensures
            key_views(r@) == entry_keys(self@.entries),
    {
        let ghost s = self@.entries;
        let mut out: Vec<Vec<u8>> = Vec::new();
        let mut i: usize = 0;
        assert(key_views(out@) =~= entry_keys(s).take(0));
        while i < self.entries.len()
            invariant
                i <= self.entries.len(),
                s == entry_views(self.entries@),
                key_views(out@) == entry_keys(s).take(i as int),
            decreases self.entries.len() - i,
        {
            let e = &self.entries[i];
            let ghost before = out@;
            out.push(compose_key_bytes(e.space.as_str(), e.table.as_str(), e.record_id.as_str()));
            proof {
                assert(s[i as int] == e@);
                assert(key_views(out@) =~= key_views(before).push(entry_key(e@)));
                assert(entry_keys(s).take(i + 1) =~= entry_keys(s).take(i as int).push(
                    entry_key(e@),
                ));
            }
            i += 1;
        }
        assert(entry_keys(s).take(i as int) =~= entry_keys(s));
        out
    }

    /// Assembles the chunk file around a compressed body: the file, its header
    /// and its footer.
    pub fn assemble(self, compressed: Vec<u8>, created_at_ms: i64) -> (r: XtableResult<
        (Vec<u8>, ChunkHeader, ChunkFooter),
    >)
        requires
            self@.entries.len() * BLOOM_BITS_PER_KEY + 7 <= usize::MAX,
        ensures
            r is Ok,
            r matches Ok((file, header, footer)) ==> header@ == chunk_header(
                self@,
                compressed@.len(),
                created_at_ms,
            ) && is_chunk_footer(self@, footer@) && file@ == chunk_file(
                header@,
                compressed@,
                footer@,
            ) && (footer_fits(footer@) ==> p_footer(footer_bytes(footer@)) == Some(footer@)),
    {
        let ghost w = self@;
        let body = self.encode_body();
        let keys = self.keys();
        let key_index = self.sample_keys();
        proof {
            assert(keys@.len() == key_views(keys@).len());
        }
        let bloom = build_bloom(keys.as_slice(), BLOOM_BITS_PER_KEY);
        let n: usize = self.entries.len();
        let empty: Vec<u8> = Vec::new();
        let key_min: Vec<u8> = if n == 0 {
            empty
        } else {
            let e = &self.entries[0];
            compose_key_bytes(e.space.as_str(), e.table.as_str(), e.record_id.as_str())
        };
        let empty: Vec<u8> = Vec::new();
        let key_max: Vec<u8> = if n == 0 {
            empty
        } else {
            let e = &self.entries[n - 1];
            compose_key_bytes(e.space.as_str(), e.table.as_str(), e.record_id.as_str())
        };
        let header = ChunkHeader {
            chunk_id: self.chunk_id,
            created_at_ms,
            compressed_body_len: compressed.len() as u64,
            uncompressed_len: body.len() as u64,
            space: self.space,
            table: self.table,
            key_min,
            key_max,
            record_count: n as u64,
        };
        let footer = ChunkFooter { bloom, key_index, body_crc32c: crc32_hash(body.as_slice()) };
        let mut file = header.encode()?;
        put_bytes(&mut file, compressed.as_slice());
        let footer_part = footer.encode()?;
        put_bytes(&mut file, footer_part.as_slice());
        put_u32(&mut file, #[verifier::truncate] (footer_part.len() as u32));
        Ok((file, header, footer))
    }

    /// Compresses the body and assembles the chunk file.
    pub fn finalize(self) -> (r: XtableResult<(Vec<u8>, ChunkHeader, ChunkFooter)>)
        requires
            self@.entries.len() * BLOOM_BITS_PER_KEY + 7 <= usize::MAX,
        ensures
            r is Ok,
            r matches Ok((file, header, footer)) ==> {
                let frame = zstd_frame(body_bytes(self@.entries), BODY_COMPRESSION_LEVEL);
                &&& chunk_fits(self@, footer@) ==> reads_back(
                    file@,
                    header@,
                    self@.entries,
                    footer@,
                )
                &&& zstd_content(frame) == unpacked(body_bytes(self@.entries))
                &&& header@ == chunk_header(self@, frame.len(), header.created_at_ms)
                &&& is_chunk_footer(self@, footer@)
                &&& file@ == chunk_file(header@, frame, footer@)
            },
    {
        let body = self.encode_body();
        match zstd_compress(body.as_slice(), BODY_COMPRESSION_LEVEL) {
            Ok(compressed) => {
                let ghost w = self@;
                let (file, header, footer) = self.assemble(compressed, now_ms())?;
                proof {
                    if chunk_fits(w, footer@) {
                        lemma_chunk_reads_back(w, header.created_at_ms, compressed@, footer@);
                    }
                }
                Ok((file, header, footer))
            },
            Err(m) => Err(storage_error("zstd encode: ", m.as_str())),
        }
    }
}

/// The compressed body inside a chunk file.
pub open spec fn p_frame(file: Seq<u8>) -> Option<Seq<u8>> {
    match p_header(file) {
        Some((_, rest)) => {
            let body_offset = file.len() - rest.len();
            if rest.len() < 4 {
                None
            } else {
                let footer_len = spec_u32_from_le_bytes(file.skip(file.len() - 4)) as int;
                let end = file.len() - 4 - footer_len;
                if body_offset <= end {
                    Some(file.subrange(body_offset, end))
                } else {
                    None
                }
            }
        },
        None => None,
    }
}

/// The uncompressed body of a chunk file.
pub open spec fn p_body(file: Seq<u8>) -> Option<Seq<u8>> {
    match p_frame(file) {
        Some(frame) => match zstd_content(frame) {
            Ok(body) => Some(body),
            Err(_) => None,
        },
        None => None,
    }
}

/// Text of the error of a chunk file whose body cannot be read.
pub open spec fn f_body(file: Seq<u8>) -> Seq<char> {
    match p_header(file) {
        None => f_header(file),
        Some((_, rest)) => if rest.len() < 4 {
            "chunk too short for footer (len="@ + decimal(file.len()) + ", body_offset="@ + decimal(
                (file.len() - rest.len()) as nat,
            ) + ")"@
        } else {
            match p_frame(file) {
                None => "chunk footer overlaps its header"@,
                Some(frame) => match zstd_content(frame) {
                    Err(m) => "zstd decode: "@ + m,
                    Ok(_) => Seq::empty(),
                },
            }
        },
    }
}

/// Decompresses the body of a chunk file.
pub fn decompress_body(file: &[u8]) -> (r: XtableResult<Vec<u8>>)
    ensures
        match r {
            Ok(body) => p_body(file@) == Some(body@),
            Err(e) => p_body(file@) is None && e@ == (ErrorKind::Storage, f_body(file@)),
        },
{
    let (_header, body_offset) = ChunkHeader::decode(file)?;
    if file.len() - body_offset < 4 {
        let len = decimal_text(file.len() as u64);
        let offset = decimal_text(body_offset as u64);
        let a = join3("chunk too short for footer (len=", len.as_str(), ", body_offset=");
        return Err(XtableError::Storage(join3(a.as_str(), offset.as_str(), ")")));
    }
    let footer_len_pos: usize = file.len() - 4;
    assert(file@.skip(footer_len_pos as int).take(4) =~= file@.skip(footer_len_pos as int));
    let (footer_len, _end) = read_u32(file, footer_len_pos)?;
    if footer_len as usize > footer_len_pos || footer_len_pos - (footer_len as usize)
        < body_offset {
        return Err(XtableError::Storage("chunk footer overlaps its header".to_owned()));
    }
    let body_end: usize = footer_len_pos - footer_len as usize;
    let frame = slice_subrange(file, body_offset, body_end);
    match zstd_decompress(frame) {
        Ok(body) => Ok(body),
        Err(m) => Err(storage_error("zstd decode: ", m.as_str())),
    }
}

/// Footer of a chunk file: what stands between the compressed body and the
/// footer's length.
pub open spec fn p_file_footer(file: Seq<u8>) -> Option<ChunkFooterView> {
    if file.len() < 4 {
        None
    } else {
        let footer_len = spec_u32_from_le_bytes(file.skip(file.len() - 4)) as int;
        let end = file.len() - 4;
        if footer_len <= end {
            p_footer(file.subrange(end - footer_len, end))
        } else {
            None
        }
    }
}

/// Text of the error of a chunk file whose footer cannot be read.
pub open spec fn f_file_footer(file: Seq<u8>) -> Seq<char> {
    if file.len() < 4 {
        "chunk too short for footer"@
    } else {
        let footer_len = spec_u32_from_le_bytes(file.skip(file.len() - 4)) as int;
        let end = file.len() - 4;
        if footer_len <= end {
            f_footer(file.subrange(end - footer_len, end))
        } else {
            "chunk footer longer than the file"@
        }
    }
}

/// Reads the footer of a chunk file.
pub fn read_footer(file: &[u8]) -> (r: XtableResult<ChunkFooter>)
    ensures
        match r {
            Ok(f) => p_file_footer(file@) == Some(f@),
            Err(e) => p_file_footer(file@) is None && e@ == (
                ErrorKind::Storage,
                f_file_footer(file@),
            ),
        },
{
    if file.len() < 4 {
        return Err(XtableError::Storage("chunk too short for footer".to_owned()));
    }
    let end: usize = file.len() - 4;
    assert(file@.skip(end as int).take(4) =~= file@.skip(end as int));
    let (footer_len, _end) = read_u32(file, end)?;
    if footer_len as usize > end {
        return Err(XtableError::Storage("chunk footer longer than the file".to_owned()));
    }
    ChunkFooter::decode(slice_subrange(file, end - footer_len as usize, end))
}

// ----- what is written reads back -----

/// No byte of the text is zero.
pub open spec fn nul_free(t: Seq<char>) -> bool {
    forall|i: int| 0 <= i < encode_utf8(t).len() ==> #[trigger] encode_utf8(t)[i] != 0
}

/// A text that fits a one-byte length.
pub open spec fn fits8(t: Seq<char>) -> bool {
    encode_utf8(t).len() <= u8::MAX
}

/// All fields of the entry fit their lengths, its key parts are free of zero
/// bytes, and its content type is not the empty text.
pub open spec fn entry_fits(e: ChunkEntryView) -> bool {
    &&& nul_free(e.space)
    &&& nul_free(e.table)
    &&& nul_free(e.record_id)
    &&& entry_key(e).len() <= u16::MAX
    &&& e.value.len() <= u32::MAX
    &&& (e.content_type matches Some(t) ==> t.len() > 0 && fits8(t))
    &&& e.user_meta.len() <= u8::MAX
    &&& forall|i: int|
        0 <= i < e.user_meta.len() ==> fits8((#[trigger] e.user_meta[i]).0) && fits8(
            e.user_meta[i].1,
        )
    &&& fits8(e.txn_id)
}

/// All fields of the header fit their lengths.
pub open spec fn header_fits(h: ChunkHeaderView) -> bool {
    &&& encode_utf8(h.chunk_id).len() <= u16::MAX
    &&& encode_utf8(h.space).len() <= u16::MAX
    &&& encode_utf8(h.table).len() <= u16::MAX
    &&& h.key_min.len() <= u16::MAX
    &&& h.key_max.len() <= u16::MAX
}

/// All fields of the footer fit their lengths.
pub open spec fn footer_fits(f: ChunkFooterView) -> bool {
    &&& f.bloom.len() <= u32::MAX
    &&& key_index_bytes(f.key_index).len() <= u32::MAX
}

/// All parts of the chunk fit their lengths.
pub open spec fn chunk_fits(w: ChunkWriterView, f: ChunkFooterView) -> bool {
    &&& encode_utf8(w.chunk_id).len() <= u16::MAX
    &&& encode_utf8(w.space).len() <= u16::MAX
    &&& encode_utf8(w.table).len() <= u16::MAX
    &&& forall|i: int| 0 <= i < w.entries.len() ==> entry_fits(#[trigger] w.entries[i])
    &&& footer_bytes(f).len() <= u32::MAX
}

/// The file yields the header and the footer, and its body yields the entries.
pub open spec fn reads_back(
    file: Seq<u8>,
    h: ChunkHeaderView,
    entries: Seq<ChunkEntryView>,
    f: ChunkFooterView,
) -> bool {
    &&& p_header(file) matches Some((g, _)) && g == h
    &&& p_body(file) matches Some(body) && p_entries(body, Seq::empty()) == Some(entries)
    &&& p_file_footer(file) == Some(f)
}

proof fn lemma_p_key(e: ChunkEntryView)
    requires
        nul_free(e.space),
        nul_free(e.table),
        nul_free(e.record_id),
    ensures
        p_key(entry_key(e)) == Some((e.space, e.table, e.record_id)),
{
    let a = encode_utf8(e.space);
    let b = encode_utf8(e.table);
    let c = encode_utf8(e.record_id);
    let key = entry_key(e);
    let rest = b + seq![0u8] + c;
    assert(key =~= a + seq![0u8] + rest);
    lemma_first_nul_of_join(a, rest, 0);
    assert(nul_head(key) =~= a);
    assert(nul_tail(key) =~= rest);
    lemma_first_nul_of_join(b, c, 0);
    assert(nul_head(rest) =~= b);
    assert(nul_tail(rest) =~= c);
    lemma_first_nul_of_clean(c, 0);
    assert(nul_head(c) =~= c);
    encode_utf8_valid_utf8(e.space);
    encode_utf8_valid_utf8(e.table);
    encode_utf8_valid_utf8(e.record_id);
    encode_utf8_decode_utf8(e.space);
    encode_utf8_decode_utf8(e.table);
    encode_utf8_decode_utf8(e.record_id);
}

proof fn lemma_p_text8(t: Seq<char>, rest: Seq<u8>)
    requires
        fits8(t),
    ensures
        p_text8(seq![encode_utf8(t).len() as u8] + (encode_utf8(t) + rest)) == Some((t, rest)),
{
    lemma_p_u8(encode_utf8(t).len() as u8, encode_utf8(t) + rest);
    lemma_p_text(t, rest);
}

proof fn lemma_p_text16(t: Seq<char>, rest: Seq<u8>)
    requires
        encode_utf8(t).len() <= u16::MAX,
    ensures
        p_text16(spec_u16_to_le_bytes(encode_utf8(t).len() as u16) + (encode_utf8(t) + rest))
            == Some((t, rest)),
{
    lemma_p_u16(encode_utf8(t).len() as u16, encode_utf8(t) + rest);
    lemma_p_text(t, rest);
}

proof fn lemma_p_blob16(b: Seq<u8>, rest: Seq<u8>)
    requires
        b.len() <= u16::MAX,
    ensures
        p_blob16(spec_u16_to_le_bytes(b.len() as u16) + (b + rest)) == Some((b, rest)),
{
    lemma_p_u16(b.len() as u16, b + rest);
    lemma_p_bytes(b, rest);
}

proof fn lemma_p_blob32(b: Seq<u8>, rest: Seq<u8>)
    requires
        b.len() <= u32::MAX,
    ensures
        p_blob32(spec_u32_to_le_bytes(b.len() as u32) + (b + rest)) == Some((b, rest)),
{
    lemma_p_u32(b.len() as u32, b + rest);
    lemma_p_bytes(b, rest);
}

#[verifier::spinoff_prover]
proof fn lemma_p_meta(
    meta: Seq<(Seq<char>, Seq<char>)>,
    rest: Seq<u8>,
    acc: Seq<(Seq<char>, Seq<char>)>,
)
    requires
        forall|i: int|
            0 <= i < meta.len() ==> fits8((#[trigger] meta[i]).0) && fits8(meta[i].1),
    ensures
        p_meta(meta_then(meta, rest), meta.len(), acc) == Some((acc + meta, rest)),
    decreases meta.len(),
{
    if meta.len() == 0 {
        assert(acc + meta =~= acc);
    } else {
        let tail = meta.drop_first();
        let k = encode_utf8(meta[0].0);
        let v = encode_utf8(meta[0].1);
        let m = meta_then(tail, rest);
        let s1 = seq![v.len() as u8] + (v + m);
        let s = seq![k.len() as u8] + (k + s1);
        assert(meta_then(meta, rest) == s);
        lemma_p_text8(meta[0].0, s1);
        lemma_p_text8(meta[0].1, m);
        assert(p_meta(s, meta.len(), acc) == p_meta(m, tail.len(), acc.push(meta[0])));
        assert forall|i: int| 0 <= i < tail.len() implies fits8((#[trigger] tail[i]).0) && fits8(
            tail[i].1,
        ) by {
            assert(tail[i] == meta[i + 1]);
        }
        lemma_p_meta(tail, rest, acc.push(meta[0]));
        assert(acc.push(meta[0]) + tail =~= acc + meta);
    }
}

/// A written entry reads back as it was.
pub proof fn law_entry_roundtrip(e: ChunkEntryView, rest: Seq<u8>)
    requires
        entry_fits(e),
    ensures
        p_entry(entry_bytes(e) + rest) == Some((e, rest)),
{
    let crc = spec_u32_to_le_bytes(crc32(entry_payload(e)));
    let tail = crc + rest;
    lemma_append(entry_payload(e), crc, rest);
    lemma_entry_then(e, tail);
    let s = entry_then(e, tail);
    assert(entry_bytes(e) + rest == s);
    let key = entry_key(e);
    let ct = stored_content_type(e);
    let ctb = encode_utf8(ct);
    let end = entry_end_then(e, tail);
    let m = meta_then(e.user_meta, end);
    let u2 = seq![e.user_meta.len() as u8] + m;
    let u4 = seq![ctb.len() as u8] + (ctb + u2);
    let u6 = spec_u32_to_le_bytes(e.value.len() as u32) + (e.value + u4);
    lemma_p_blob16(key, u6);
    lemma_p_blob32(e.value, u4);
    if e.content_type is None {
        assert(ctb =~= Seq::<u8>::empty());
    }
    lemma_p_text8(ct, u2);
    lemma_p_u8(e.user_meta.len() as u8, m);
    lemma_p_meta(e.user_meta, end, Seq::empty());
    assert(Seq::<(Seq<char>, Seq<char>)>::empty() + e.user_meta =~= e.user_meta);
    assert(p_entry_front(s) == Some(((key, e.value, ct, e.user_meta), end)));
    lemma_p_key(e);
    let txn = encode_utf8(e.txn_id);
    let t1 = seq![entry_flags(e)] + tail;
    let t2 = spec_u64_to_le_bytes(e.wal_seq) + t1;
    let t3 = spec_u64_to_le_bytes(e.commit_version) + t2;
    lemma_p_u32(e.schema_version, seq![txn.len() as u8] + (txn + t3));
    lemma_p_text8(e.txn_id, t3);
    lemma_p_u64(e.commit_version, t2);
    lemma_p_u64(e.wal_seq, t1);
    lemma_p_u8(entry_flags(e), tail);
    lemma_p_u32(crc32(entry_payload(e)), rest);
    assert(0u8 & 1 == 0 && 1u8 & 1 == 1) by (bit_vector);
    assert(ct.len() > 0 <==> e.content_type is Some);
}

/// A written body reads back as the entries that went into it.
pub proof fn law_body_roundtrip(es: Seq<ChunkEntryView>)
    requires
        forall|i: int| 0 <= i < es.len() ==> entry_fits(#[trigger] es[i]),
    ensures
        p_entries(body_bytes(es), Seq::empty()) == Some(es),
{
    lemma_body_then(es, Seq::empty(), Seq::empty());
    assert(body_bytes(es) + Seq::<u8>::empty() =~= body_bytes(es));
    assert(Seq::<ChunkEntryView>::empty() + es =~= es);
}

#[verifier::spinoff_prover]
proof fn lemma_body_then(es: Seq<ChunkEntryView>, rest: Seq<u8>, acc: Seq<ChunkEntryView>)
    requires
        forall|i: int| 0 <= i < es.len() ==> entry_fits(#[trigger] es[i]),
    ensures
        p_entries(body_bytes(es) + rest, acc) == p_entries(rest, acc + es),
    decreases es.len(),
{
    if es.len() == 0 {
        assert(body_bytes(es) + rest =~= rest);
        assert(acc + es =~= acc);
    } else {
        let front = es.drop_last();
        let e = es.last();
        let tail = entry_bytes(e) + rest;
        lemma_append(body_bytes(front), entry_bytes(e), rest);
        assert forall|i: int| 0 <= i < front.len() implies entry_fits(#[trigger] front[i]) by {
            assert(front[i] == es[i]);
        }
        lemma_body_then(front, tail, acc);
        law_entry_roundtrip(e, rest);
        lemma_auto_spec_u32_to_from_le_bytes();
        assert((acc + front).push(e) =~= acc + es);
    }
}

proof fn lemma_header_then(h: ChunkHeaderView, b: Seq<u8>)
    ensures
        header_bytes(h) + b == header_then(h, b),
{
    let nil = Seq::<u8>::empty();
    let id = encode_utf8(h.chunk_id);
    let space = encode_utf8(h.space);
    let table = encode_utf8(h.table);
    assert(nil + b =~= b);
    let t1 = spec_u64_to_le_bytes(h.record_count) + nil;
    lemma_append(spec_u64_to_le_bytes(h.record_count), nil, b);
    let t2 = h.key_max + t1;
    lemma_append(h.key_max, t1, b);
    let t3 = spec_u16_to_le_bytes(h.key_max.len() as u16) + t2;
    lemma_append(spec_u16_to_le_bytes(h.key_max.len() as u16), t2, b);
    let t4 = h.key_min + t3;
    lemma_append(h.key_min, t3, b);
    let t5 = spec_u16_to_le_bytes(h.key_min.len() as u16) + t4;
    lemma_append(spec_u16_to_le_bytes(h.key_min.len() as u16), t4, b);
    let t6 = table + t5;
    lemma_append(table, t5, b);
    let t7 = spec_u16_to_le_bytes(table.len() as u16) + t6;
    lemma_append(spec_u16_to_le_bytes(table.len() as u16), t6, b);
    let t8 = space + t7;
    lemma_append(space, t7, b);
    let t9 = spec_u16_to_le_bytes(space.len() as u16) + t8;
    lemma_append(spec_u16_to_le_bytes(space.len() as u16), t8, b);
    let t10 = spec_u64_to_le_bytes(h.uncompressed_len) + t9;
    lemma_append(spec_u64_to_le_bytes(h.uncompressed_len), t9, b);
    let t11 = spec_u64_to_le_bytes(h.compressed_body_len) + t10;
    lemma_append(spec_u64_to_le_bytes(h.compressed_body_len), t10, b);
    let t12 = spec_u64_to_le_bytes(h.created_at_ms as u64) + t11;
    lemma_append(spec_u64_to_le_bytes(h.created_at_ms as u64), t11, b);
    let t13 = id + t12;
    lemma_append(id, t12, b);
    let t14 = spec_u16_to_le_bytes(id.len() as u16) + t13;
    lemma_append(spec_u16_to_le_bytes(id.len() as u16), t13, b);
    let t15 = spec_u16_to_le_bytes(CHUNK_VERSION) + t14;
    lemma_append(spec_u16_to_le_bytes(CHUNK_VERSION), t14, b);
    lemma_append(chunk_magic(), t15, b);
}

/// A written header reads back as it was.
pub proof fn law_header_roundtrip(h: ChunkHeaderView, rest: Seq<u8>)
    requires
        header_fits(h),
    ensures
        p_header(header_bytes(h) + rest) == Some((h, rest)),
{
    lemma_header_then(h, rest);
    let id = encode_utf8(h.chunk_id);
    let space = encode_utf8(h.space);
    let table = encode_utf8(h.table);
    let t1 = spec_u64_to_le_bytes(h.record_count) + rest;
    let t3 = spec_u16_to_le_bytes(h.key_max.len() as u16) + (h.key_max + t1);
    let t5 = spec_u16_to_le_bytes(h.key_min.len() as u16) + (h.key_min + t3);
    let t7 = spec_u16_to_le_bytes(table.len() as u16) + (table + t5);
    let t9 = spec_u16_to_le_bytes(space.len() as u16) + (space + t7);
    let t10 = spec_u64_to_le_bytes(h.uncompressed_len) + t9;
    let t11 = spec_u64_to_le_bytes(h.compressed_body_len) + t10;
    let t12 = spec_u64_to_le_bytes(h.created_at_ms as u64) + t11;
    let t14 = spec_u16_to_le_bytes(id.len() as u16) + (id + t12);
    lemma_p_bytes(chunk_magic(), spec_u16_to_le_bytes(CHUNK_VERSION) + t14);
    lemma_p_u16(CHUNK_VERSION, t14);
    lemma_p_text16(h.chunk_id, t12);
    lemma_p_u64(h.created_at_ms as u64, t11);
    lemma_p_u64(h.compressed_body_len, t10);
    lemma_p_u64(h.uncompressed_len, t9);
    lemma_p_text16(h.space, t7);
    assert(p_header_front(t14) == Some(
        (
            (
                h.chunk_id,
                h.created_at_ms as u64,
                h.compressed_body_len,
                h.uncompressed_len,
                h.space,
            ),
            t7,
        ),
    ));
    lemma_p_text16(h.table, t5);
    lemma_p_blob16(h.key_min, t3);
    lemma_p_blob16(h.key_max, t1);
    lemma_p_u64(h.record_count, rest);
    let c = h.created_at_ms;
    assert((c as u64) as i64 == c) by (bit_vector);
}

proof fn lemma_text16_extend(s: Seq<u8>, t: Seq<u8>)
    requires
        p_text16(s) is Some,
    ensures
        p_text16(s + t) == Some(((p_text16(s)->0).0, (p_text16(s)->0).1 + t)),
{
    lemma_p_bytes_extend(s, 2, t);
    let (n, rest) = p_u16(s)->0;
    lemma_p_bytes_extend(rest, n as nat, t);
}

proof fn lemma_blob16_extend(s: Seq<u8>, t: Seq<u8>)
    requires
        p_blob16(s) is Some,
    ensures
        p_blob16(s + t) == Some(((p_blob16(s)->0).0, (p_blob16(s)->0).1 + t)),
{
    lemma_p_bytes_extend(s, 2, t);
    let (n, rest) = p_u16(s)->0;
    lemma_p_bytes_extend(rest, n as nat, t);
}

proof fn lemma_header_front_extend(s: Seq<u8>, t: Seq<u8>)
    requires
        p_header_front(s) is Some,
    ensures
        p_header_front(s + t) == Some(((p_header_front(s)->0).0, (p_header_front(s)->0).1 + t)),
{
    lemma_text16_extend(s, t);
    let s1 = (p_text16(s)->0).1;
    lemma_p_bytes_extend(s1, 8, t);
    let s2 = (p_u64(s1)->0).1;
    lemma_p_bytes_extend(s2, 8, t);
    let s3 = (p_u64(s2)->0).1;
    lemma_p_bytes_extend(s3, 8, t);
    let s4 = (p_u64(s3)->0).1;
    lemma_text16_extend(s4, t);
}

proof fn lemma_header_back_extend(s: Seq<u8>, t: Seq<u8>)
    requires
        p_header_back(s) is Some,
    ensures
        p_header_back(s + t) == Some(((p_header_back(s)->0).0, (p_header_back(s)->0).1 + t)),
{
    lemma_text16_extend(s, t);
    let s1 = (p_text16(s)->0).1;
    lemma_blob16_extend(s1, t);
    let s2 = (p_blob16(s1)->0).1;
    lemma_blob16_extend(s2, t);
    let s3 = (p_blob16(s2)->0).1;
    lemma_p_bytes_extend(s3, 8, t);
}

/// Bytes behind a header do not change what it reads as.
pub proof fn law_header_extends(s: Seq<u8>, t: Seq<u8>)
    requires
        p_header(s) is Some,
    ensures
        p_header(s + t) == Some(((p_header(s)->0).0, (p_header(s)->0).1 + t)),
{
    lemma_p_bytes_extend(s, 4, t);
    let s1 = s.skip(4);
    lemma_p_bytes_extend(s1, 2, t);
    let s2 = s1.skip(2);
    lemma_header_front_extend(s2, t);
    lemma_header_back_extend((p_header_front(s2)->0).1, t);
}

/// A header that was cut off anywhere is refused.
pub proof fn law_header_prefix_is_refused(h: ChunkHeaderView, n: int)
    requires
        header_fits(h),
        0 <= n < header_bytes(h).len(),
    ensures
        p_header(header_bytes(h).take(n)) is None,
{
    let whole = header_bytes(h);
    let s = whole.take(n);
    let t = whole.skip(n);
    if p_header(s) is Some {
        law_header_extends(s, t);
        assert(s + t =~= whole);
        law_header_roundtrip(h, Seq::empty());
        assert(whole + Seq::<u8>::empty() =~= whole);
        assert(((p_header(s)->0).1 + t).len() >= t.len());
    }
}

proof fn lemma_footer_fields(f: ChunkFooterView, tail: Seq<u8>)
    requires
        footer_fits(f),
        bincode_rows(key_index_bytes(f.key_index)) matches Ok(x) && x == key_index_rows(
            f.key_index,
        ),
        tail.len() == 0,
    ensures
        p_footer(footer_then(f, tail)) == Some(
            ChunkFooterView { key_index: key_index_of(key_index_rows(f.key_index)), ..f },
        ),
{
    let ki = key_index_bytes(f.key_index);
    let t1 = footer_magic() + tail;
    let t2 = spec_u32_to_le_bytes(f.body_crc32c) + t1;
    let t4 = spec_u32_to_le_bytes(ki.len() as u32) + (ki + t2);
    let s = footer_then(f, tail);
    lemma_p_blob32(f.bloom, t4);
    lemma_p_blob32(ki, t2);
    lemma_p_u32(f.body_crc32c, t1);
    lemma_auto_spec_u32_to_from_le_bytes();
    assert(s.skip(s.len() - 4) =~= footer_magic());
}

#[verifier::spinoff_prover]
#[verifier::rlimit(30)]
proof fn lemma_chunk_reads_back(
    w: ChunkWriterView,
    created_at_ms: i64,
    frame: Seq<u8>,
    f: ChunkFooterView,
)
    requires
        chunk_fits(w, f),
        zstd_content(frame) == unpacked(body_bytes(w.entries)),
        footer_fits(f) ==> p_footer(footer_bytes(f)) == Some(f),
    ensures
        reads_back(
            chunk_file(chunk_header(w, frame.len(), created_at_ms), frame, f),
            chunk_header(w, frame.len(), created_at_ms),
            w.entries,
            f,
        ),
{
    let h = chunk_header(w, frame.len(), created_at_ms);
    let fb = footer_bytes(f);
    let len_field = spec_u32_to_le_bytes(fb.len() as u32);
    let hb = header_bytes(h);
    let file = chunk_file(h, frame, f);
    let rest = frame + fb + len_field;
    assert(len_field.len() == 4 && spec_u32_from_le_bytes(len_field) == fb.len()) by {
        lemma_auto_spec_u32_to_from_le_bytes();
    }
    lemma_file_parts(hb, frame, fb, len_field);
    assert(header_fits(h)) by {
        if w.entries.len() > 0 {
            assert(entry_fits(w.entries[0]));
            assert(entry_fits(w.entries[w.entries.len() - 1]));
        }
    }
    assert(p_header(file) == Some((h, rest))) by {
        law_header_roundtrip(h, rest);
    }
    assert(p_frame(file) == Some(frame));
    law_body_roundtrip(w.entries);
    assert(footer_fits(f)) by {
        lemma_auto_spec_u32_to_from_le_bytes();
    }
    assert(p_file_footer(file) == p_footer(fb));
}

proof fn lemma_file_parts(hb: Seq<u8>, frame: Seq<u8>, fb: Seq<u8>, len_field: Seq<u8>)
    requires
        len_field.len() == 4,
    ensures
        hb + frame + fb + len_field == hb + (frame + fb + len_field),
        (hb + frame + fb + len_field).skip((hb + frame + fb + len_field).len() - 4) == len_field,
        (hb + frame + fb + len_field).subrange(hb.len() as int, (hb.len() + frame.len()) as int)
            == frame,
        (hb + frame + fb + len_field).subrange(
            (hb.len() + frame.len()) as int,
            (hb + frame + fb + len_field).len() - 4,
        ) == fb,
{
    let file = hb + frame + fb + len_field;
    assert(file =~= hb + (frame + fb + len_field));
    assert(file.skip(file.len() - 4) =~= len_field);
    assert(file.subrange(hb.len() as int, (hb.len() + frame.len()) as int) =~= frame);
    assert(file.subrange((hb.len() + frame.len()) as int, file.len() - 4) =~= fb);
}

impl Row for ChunkIndexEntry {
    fn copy_row(&self) -> (r: Self) {
        self.clone()
    }
}

} // verus!
