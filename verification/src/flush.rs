//! From memtable to chunk.
//!
//! A flush encodes the visible entries of an immutable memtable into one chunk
//! file ([`plan_flush`]). The caller uploads the file under its object key.
//! Once it is stored, [`complete_flush`] enters the chunk into the chunk
//! index, points the record index to it, logs the flush and truncates the log.
//! A flush that is not completed changes nothing; its memtable is queued again.

use crate::cf::ChunkStatus;
use crate::chunk::{
    body_bytes, chunk_file, chunk_fits, chunk_header, entry_key, header_bytes, is_chunk_footer,
    law_sorted_insert, reads_back, sorted_insert, BLOOM_BITS_PER_KEY, BODY_COMPRESSION_LEVEL,
    ChunkEntry, ChunkEntryView, ChunkFooter, ChunkFooterView, ChunkHeader, ChunkHeaderView,
    ChunkIndexEntry, ChunkIndexEntryView, ChunkWriter, ChunkWriterView,
};
use crate::memtable::{INVISIBLE, MemEntryView, MemTable, MemTableView};
use crate::outside::{bytes_to_vec, fresh_ulid, now_ms, xxh3, xxh3_hash, zstd_frame};
use crate::rebuild::{highest_version, lowest_version};
use crate::store::{LocalStore, StoreView};
use crate::store_records::with_chunk_pointer;
use crate::text::{copy_bytes, copy_optional_text, copy_pairs, decimal, decimal_text, join3};
use crate::types::XtableResult;
use crate::wal::{WalRecord, WalRecordView};
use vstd::prelude::*;

verus! {

/// Default number of flushes that run at a time.
pub const DEFAULT_FLUSH_CONCURRENCY: usize = 4;

/// Chunk entry of a memtable entry.
pub open spec fn chunk_entry_of(e: MemEntryView) -> ChunkEntryView {
    ChunkEntryView {
        space: e.key.0,
        table: e.key.1,
        record_id: e.key.2,
        value: e.value,
        commit_version: e.commit_version,
        txn_id: e.txn_id,
        deleted: e.deleted,
        content_type: e.content_type,
        user_meta: e.user_meta,
        schema_version: e.schema_version,
        wal_seq: e.wal_seq,
    }
}

/// Chunk entries of the committed ones among the first `n` memtable entries.
pub open spec fn flushed_entries(es: Seq<MemEntryView>, n: nat) -> Seq<ChunkEntryView>
    decreases n,
{
    if n == 0 {
        Seq::empty()
    } else {
        let done = flushed_entries(es, (n - 1) as nat);
        if es[n - 1].commit_version == INVISIBLE {
            done
        } else {
            done.push(chunk_entry_of(es[n - 1]))
        }
    }
}

/// The first `n` entries in the order in which a chunk holds them.
pub open spec fn in_chunk_order(es: Seq<ChunkEntryView>, n: nat) -> Seq<ChunkEntryView>
    decreases n,
{
    if n == 0 {
        Seq::empty()
    } else {
        sorted_insert(in_chunk_order(es, (n - 1) as nat), es[n - 1])
    }
}

/// Entries that a flush of the memtable writes, in memtable order.
pub open spec fn entries_to_flush(t: MemTableView) -> Seq<ChunkEntryView> {
    flushed_entries(t.entries, t.entries.len())
}

/// The memtable holds nothing that a flush would write.
pub open spec fn nothing_to_flush(t: MemTableView) -> bool {
    t.earliest_seq == u64::MAX || t.latest_seq == 0 || entries_to_flush(t).len() == 0
}

/// Contents of the chunk that a flush writes. It goes by the space and table
/// of the first entry.
pub open spec fn flush_writer(t: MemTableView, chunk_id: Seq<char>) -> ChunkWriterView {
    let es = entries_to_flush(t);
    ChunkWriterView {
        chunk_id,
        space: es[0].space,
        table: es[0].table,
        entries: in_chunk_order(es, es.len()),
    }
}

/// Shard byte of a key.
pub open spec fn shard_of(key: Seq<u8>) -> u8 {
    xxh3(key) as u8
}

/// Object key of a chunk.
pub open spec fn chunk_object_key(
    space: Seq<char>,
    table: Seq<char>,
    shard: u8,
    chunk_id: Seq<char>,
) -> Seq<char> {
    "_xtable/"@ + space + "/"@ + table + "/"@ + decimal(shard as nat) + "/"@ + chunk_id + ".xtc"@
}

/// A chunk that is ready for upload.
#[derive(Debug)]
pub struct FlushPlan {
    pub chunk_id: String,
    /// Object key of the chunk.
    pub s3_key: String,
    /// The chunk file.
    pub file: Vec<u8>,
    pub header: ChunkHeader,
    pub footer: ChunkFooter,
    pub shard: u8,
    /// Flushed entries in memtable order.
    pub entries: Vec<ChunkEntry>,
    /// Log range of the memtable.
    pub first_seq: u64,
    pub last_seq: u64,
}

/// What a completed flush needs to know of its chunk.
pub ghost struct FlushPlanView {
    pub chunk_id: Seq<char>,
    pub s3_key: Seq<char>,
    pub size: u64,
    pub header: ChunkHeaderView,
    pub footer: ChunkFooterView,
    pub shard: u8,
    pub entries: Seq<ChunkEntryView>,
    pub first_seq: u64,
    pub last_seq: u64,
}

impl View for FlushPlan {
    type V = FlushPlanView;

    open spec fn view(&self) -> FlushPlanView {
        FlushPlanView {
            chunk_id: self.chunk_id@,
            s3_key: self.s3_key@,
            size: self.file@.len() as u64,
            header: self.header@,
            footer: self.footer@,
            shard: self.shard,
            entries: crate::chunk::entry_views(self.entries@),
            first_seq: self.first_seq,
            last_seq: self.last_seq,
        }
    }
}

impl FlushPlan {
    /// The plan is one for the memtable.
    pub open spec fn plans(&self, t: MemTableView, chunk_id: Seq<char>) -> bool {
        let w = flush_writer(t, chunk_id);
        let frame = zstd_frame(body_bytes(w.entries), BODY_COMPRESSION_LEVEL);
        &&& self@.chunk_id == chunk_id
        &&& self@.entries == entries_to_flush(t)
        &&& self@.header == chunk_header(w, frame.len(), self@.header.created_at_ms)
        &&& is_chunk_footer(w, self@.footer)
        &&& self.file@ == chunk_file(self@.header, frame, self@.footer)
        &&& chunk_fits(w, self@.footer) ==> reads_back(
            self.file@,
            self@.header,
            w.entries,
            self@.footer,
        )
        &&& self@.shard == shard_of(self@.header.key_min)
        &&& self@.s3_key == chunk_object_key(w.space, w.table, self@.shard, chunk_id)
        &&& self@.first_seq == t.earliest_seq
        &&& self@.last_seq == t.latest_seq
    }
}

/// Shard byte of a chunk, from its first key.
pub fn compute_shard(key_min: &[u8]) -> (r: u8)
    ensures
        r == shard_of(key_min@),
{
    let h = xxh3_hash(key_min);
    #[verifier::truncate]
    let shard = h as u8;
    shard
}

/// Length of an encoded chunk header.
pub fn header_bytes_len(h: &ChunkHeader) -> (r: XtableResult<usize>)
    ensures
        r matches Ok(n) && n == header_bytes(h@).len(),
{
    match h.encode() {
        Ok(v) => Ok(v.len()),
        Err(e) => Err(e),
    }
}

/// Object key of a chunk.
pub fn object_key_of(space: &str, table: &str, shard: u8, chunk_id: &str) -> (r: String)
    ensures
        r@ == chunk_object_key(space@, table@, shard, chunk_id@),
{
    let a = join3("_xtable/", space, "/");
    let b = join3(a.as_str(), table, "/");
    let s = decimal_text(shard as u64);
    let c = join3(b.as_str(), s.as_str(), "/");
    join3(c.as_str(), chunk_id, ".xtc")
}

/// Chunk entries of the committed entries of a memtable, in its order.
fn collect_entries(mt: &MemTable) -> (r: Vec<ChunkEntry>)
    ensures
        crate::chunk::entry_views(r@) == entries_to_flush(mt@),
{
    let ghost es = mt@.entries;
    let n = mt.len();
    let mut out: Vec<ChunkEntry> = Vec::new();
    let mut i: usize = 0;
    assert(crate::chunk::entry_views(out@) =~= Seq::empty());
    while i < n
        invariant
            i <= n,
            n == mt@.entries.len(),
            es == mt@.entries,
            crate::chunk::entry_views(out@) == flushed_entries(es, i as nat),
        decreases n - i,
    {
        let e = mt.entry_at(i);
        if !e.is_invisible() {
            let c = ChunkEntry {
                space: e.key.0.clone(),
                table: e.key.1.clone(),
                record_id: e.key.2.clone(),
                value: bytes_to_vec(&e.value.bytes),
                commit_version: e.commit_version,
                txn_id: e.txn_id.clone(),
                deleted: e.deleted,
                content_type: copy_optional_text(&e.content_type),
                user_meta: copy_pairs(&e.user_meta),
                schema_version: e.schema_version,
                wal_seq: e.wal_seq,
            };
            let ghost before = crate::chunk::entry_views(out@);
            let ghost cv = c@;
            assert(cv == chunk_entry_of(es[i as int]));
            out.push(c);
            assert(crate::chunk::entry_views(out@) =~= before.push(cv));
        }
        i += 1;
    }
    out
}

/// Encodes the memtable into a chunk with the given id. Returns `None` if
/// there is nothing to flush.
pub fn plan_flush_as(mt: &MemTable, chunk_id: String) -> (r: XtableResult<Option<FlushPlan>>)
    requires
        mt@.entries.len() * BLOOM_BITS_PER_KEY + 7 <= usize::MAX,
    ensures
        r is Ok,
        match r {
            Ok(Some(p)) => !nothing_to_flush(mt@) && p.plans(mt@, chunk_id@),
            _ => nothing_to_flush(mt@),
        },
{
    let first_seq = mt.first_wal_seq();
    let last_seq = mt.last_wal_seq();
    if first_seq == u64::MAX || last_seq == 0 {
        return Ok(None);
    }
    let entries = collect_entries(mt);
    let ghost es = crate::chunk::entry_views(entries@);
    if entries.len() == 0 {
        return Ok(None);
    }
    proof {
        assert(es[0] == entries@[0]@);
        lemma_flushed_len(mt@.entries, mt@.entries.len());
    }
    let space = entries[0].space.clone();
    let table = entries[0].table.clone();
    let mut writer = ChunkWriter::new(chunk_id.clone(), space, table);
    let mut i: usize = 0;
    while i < entries.len()
        invariant
            i <= entries.len(),
            entries@.len() > 0,
            es == crate::chunk::entry_views(entries@),
            writer@ == (ChunkWriterView {
                chunk_id: chunk_id@,
                space: es[0].space,
                table: es[0].table,
                entries: in_chunk_order(es, i as nat),
            }),
        decreases entries.len() - i,
    {
        assert(es[i as int] == entries@[i as int]@);
        match writer.append(entries[i].clone()) {
            Ok(_) => {},
            Err(e) => {
                return Err(e);
            },
        }
        i += 1;
    }
    let ghost w = writer@;
    proof {
        lemma_chunk_order_len(es, es.len());
        assert(w == flush_writer(mt@, chunk_id@));
        assert(w.entries.len() * BLOOM_BITS_PER_KEY <= mt@.entries.len() * BLOOM_BITS_PER_KEY)
            by (nonlinear_arith)
            requires
                w.entries.len() <= mt@.entries.len(),
        ;
    }
    let (file, header, footer) = match writer.finalize() {
        Ok(x) => x,
        Err(e) => {
            return Err(e);
        },
    };
    let shard = compute_shard(header.key_min.as_slice());
    let s3_key = object_key_of(
        header.space.as_str(),
        header.table.as_str(),
        shard,
        chunk_id.as_str(),
    );
    Ok(
        Some(
            FlushPlan {
                chunk_id,
                s3_key,
                file,
                header,
                footer,
                shard,
                entries,
                first_seq,
                last_seq,
            },
        ),
    )
}

/// Encodes the memtable into a chunk with a fresh id. Returns `None` if there
/// is nothing to flush.
pub fn plan_flush(mt: &MemTable) -> (r: XtableResult<Option<FlushPlan>>)
    requires
        mt@.entries.len() * BLOOM_BITS_PER_KEY + 7 <= usize::MAX,
    ensures
        r is Ok,
        match r {
            Ok(Some(p)) => !nothing_to_flush(mt@) && p.plans(mt@, p.chunk_id@)
                && p.chunk_id@.len() == 26,
            _ => nothing_to_flush(mt@),
        },
{
    let chunk_id = fresh_ulid();
    plan_flush_as(mt, chunk_id)
}

proof fn lemma_flushed_len(es: Seq<MemEntryView>, n: nat)
    ensures
        flushed_entries(es, n).len() <= n,
    decreases n,
{
    if n > 0 {
        lemma_flushed_len(es, (n - 1) as nat);
    }
}

proof fn lemma_sorted_insert_len(s: Seq<ChunkEntryView>, e: ChunkEntryView)
    ensures
        sorted_insert(s, e).len() == s.len() + 1,
    decreases s.len(),
{
    if s.len() > 0 && crate::order::bytes_before(entry_key(e), entry_key(s.last())) {
        lemma_sorted_insert_len(s.drop_last(), e);
    }
}

/// Ordering entries keeps their number.
pub proof fn lemma_chunk_order_len(es: Seq<ChunkEntryView>, n: nat)
    ensures
        in_chunk_order(es, n).len() == n,
    decreases n,
{
    if n > 0 {
        lemma_chunk_order_len(es, (n - 1) as nat);
        lemma_sorted_insert_len(in_chunk_order(es, (n - 1) as nat), es[n - 1]);
    }
}

// ----- completion -----

/// Chunk index entry of a flushed chunk.
pub open spec fn flushed_chunk_entry(p: FlushPlanView, etag: Seq<char>, now: i64) -> ChunkIndexEntryView {
    ChunkIndexEntryView {
        s3_key: p.s3_key,
        space: p.header.space,
        table: p.header.table,
        shard: p.shard,
        key_min: p.header.key_min,
        key_max: p.header.key_max,
        commit_version_min: lowest_version(p.entries, p.entries.len()),
        commit_version_max: highest_version(p.entries, p.entries.len()),
        wal_seq_first: p.first_seq,
        wal_seq_last: p.last_seq,
        sha256_body: Seq::empty(),
        size_bytes: p.size,
        etag,
        bloom: Some(p.footer.bloom),
        flushed_at_ms: now,
        status: ChunkStatus::Live,
    }
}

/// The record index points to the chunk for the first `n` entries.
pub open spec fn pointers_set(
    s: StoreView,
    es: Seq<ChunkEntryView>,
    chunk_id: Seq<char>,
    n: nat,
) -> StoreView
    decreases n,
{
    if n == 0 {
        s
    } else {
        let e = es[n - 1];
        with_chunk_pointer(
            pointers_set(s, es, chunk_id, (n - 1) as nat),
            (e.space, e.table, e.record_id),
            e.commit_version,
            chunk_id,
        )
    }
}

/// Store after a flush is completed.
pub open spec fn flush_completed(
    s: StoreView,
    p: FlushPlanView,
    etag: Seq<char>,
    now: i64,
) -> StoreView {
    let s1 = StoreView {
        chunks: s.chunks.insert(p.chunk_id, flushed_chunk_entry(p, etag, now)),
        ..s
    };
    let s2 = pointers_set(s1, p.entries, p.chunk_id, p.entries.len());
    let s3 = s2.log(
        WalRecordView::MemtableFlushed {
            chunk_id: p.chunk_id,
            up_to_seq: p.last_seq,
            up_to_commit_version: highest_version(p.entries, p.entries.len()),
        },
    );
    StoreView {
        last_flushed_seq: p.last_seq,
        wal: s3.wal.remove_keys(Set::new(|q: u64| q <= p.last_seq)),
        ..s3
    }
}

/// Enters an uploaded chunk into the store at the given time.
pub fn complete_flush_at(store: &mut LocalStore, plan: &FlushPlan, etag: &str, now_ms: i64)
    requires
        old(store)@.last_wal_seq < u64::MAX,
    ensures
        final(store)@ == flush_completed(old(store)@, plan@, etag@, now_ms),
{
    let (cv_min, cv_max) = crate::rebuild::version_range(&plan.entries);
    let entry = ChunkIndexEntry {
        s3_key: plan.s3_key.clone(),
        space: plan.header.space.clone(),
        table: plan.header.table.clone(),
        shard: plan.shard,
        key_min: copy_bytes(plan.header.key_min.as_slice()),
        key_max: copy_bytes(plan.header.key_max.as_slice()),
        commit_version_min: cv_min,
        commit_version_max: cv_max,
        wal_seq_first: plan.first_seq,
        wal_seq_last: plan.last_seq,
        sha256_body: String::new(),
        size_bytes: plan.file.len() as u64,
        etag: etag.to_owned(),
        bloom: Some(copy_bytes(plan.footer.bloom.as_slice())),
        flushed_at_ms: now_ms,
        status: ChunkStatus::Live,
    };
    assert(entry@.sha256_body =~= Seq::empty());
    assert(plan@.entries.len() == plan.entries@.len());
    assert(entry@ == flushed_chunk_entry(plan@, etag@, now_ms));
    store.put_chunk_index(plan.chunk_id.as_str(), &entry);
    let ghost s1 = store@;
    let ghost es = plan@.entries;
    let mut i: usize = 0;
    while i < plan.entries.len()
        invariant
            i <= plan.entries.len(),
            es == crate::chunk::entry_views(plan.entries@),
            store@ == pointers_set(s1, es, plan.chunk_id@, i as nat),
            store@.last_wal_seq == s1.last_wal_seq,
        decreases plan.entries.len() - i,
    {
        let e = &plan.entries[i];
        assert(es[i as int] == e@);
        store.update_record_index_chunk_id_for_version(
            e.space.as_str(),
            e.table.as_str(),
            e.record_id.as_str(),
            e.commit_version,
            plan.chunk_id.as_str(),
        );
        i += 1;
    }
    store.append_wal(
        &WalRecord::MemtableFlushed {
            chunk_id: plan.chunk_id.clone(),
            up_to_seq: plan.last_seq,
            up_to_commit_version: cv_max,
        },
    );
    store.set_flushed_seq(plan.last_seq);
    store.truncate_wal(plan.last_seq);
}

/// Enters an uploaded chunk into the store.
pub fn complete_flush(store: &mut LocalStore, plan: &FlushPlan, etag: &str)
    requires
        old(store)@.last_wal_seq < u64::MAX,
    ensures
        exists|now: i64|
            final(store)@ == #[trigger] flush_completed(old(store)@, plan@, etag@, now),
{
    let now = now_ms();
    complete_flush_at(store, plan, etag, now);
}

// ----- laws -----

/// Every committed memtable entry is flushed.
pub proof fn lemma_flushed_contains(es: Seq<MemEntryView>, n: nat, i: int)
    requires
        0 <= i < n <= es.len(),
        es[i].commit_version != INVISIBLE,
    ensures
        flushed_entries(es, n).contains(chunk_entry_of(es[i])),
    decreases n,
{
    let done = flushed_entries(es, (n - 1) as nat);
    let all = flushed_entries(es, n);
    if i == n - 1 {
        assert(all[done.len() as int] == chunk_entry_of(es[i]));
    } else {
        lemma_flushed_contains(es, (n - 1) as nat, i);
        let j = choose|j: int| 0 <= j < done.len() && done[j] == chunk_entry_of(es[i]);
        assert(all[j] == chunk_entry_of(es[i]));
    }
}

/// Every flushed entry is that of a committed memtable entry.
pub proof fn lemma_flushed_from(es: Seq<MemEntryView>, n: nat, x: ChunkEntryView)
    requires
        n <= es.len(),
        flushed_entries(es, n).contains(x),
    ensures
        exists|i: int|
            0 <= i < n && (#[trigger] es[i]).commit_version != INVISIBLE && x == chunk_entry_of(
                es[i],
            ),
    decreases n,
{
    let all = flushed_entries(es, n);
    let j = choose|j: int| 0 <= j < all.len() && all[j] == x;
    if n > 0 {
        let done = flushed_entries(es, (n - 1) as nat);
        if j < done.len() {
            assert(done[j] == x);
            lemma_flushed_from(es, (n - 1) as nat, x);
        } else {
            assert(x == chunk_entry_of(es[n - 1]));
        }
    }
}

proof fn lemma_chunk_order(es: Seq<ChunkEntryView>, n: nat)
    requires
        n <= es.len(),
    ensures
        crate::chunk::key_sorted(in_chunk_order(es, n)),
        in_chunk_order(es, n).to_multiset() == es.take(n as int).to_multiset(),
    decreases n,
{
    if n > 0 {
        lemma_chunk_order(es, (n - 1) as nat);
        law_sorted_insert(in_chunk_order(es, (n - 1) as nat), es[n - 1]);
        assert(es.take(n as int) =~= es.take(n - 1).push(es[n - 1]));
        es.take(n - 1).to_multiset_ensures();
    } else {
        assert(es.take(0) =~= Seq::empty());
    }
}

/// The chunk of a flush holds exactly the committed entries of the memtable,
/// each once, in key order.
pub proof fn law_flush_writes_exactly_the_committed(
    t: MemTableView,
    chunk_id: Seq<char>,
    e: ChunkEntryView,
)
    ensures
        crate::chunk::key_sorted(flush_writer(t, chunk_id).entries),
        flush_writer(t, chunk_id).entries.to_multiset() == entries_to_flush(t).to_multiset(),
        flush_writer(t, chunk_id).entries.contains(e) <==> exists|i: int|
            0 <= i < t.entries.len() && (#[trigger] t.entries[i]).commit_version != INVISIBLE && e
                == chunk_entry_of(t.entries[i]),
{
    let es = entries_to_flush(t);
    let w = flush_writer(t, chunk_id).entries;
    lemma_chunk_order(es, es.len());
    assert(es.take(es.len() as int) =~= es);
    es.to_multiset_ensures();
    w.to_multiset_ensures();
    assert(w.contains(e) <==> w.to_multiset().contains(e));
    assert(es.contains(e) <==> es.to_multiset().contains(e));
    if es.contains(e) {
        lemma_flushed_from(t.entries, t.entries.len(), e);
    }
    if exists|i: int|
        0 <= i < t.entries.len() && (#[trigger] t.entries[i]).commit_version != INVISIBLE && e
            == chunk_entry_of(t.entries[i]) {
        let i = choose|i: int|
            0 <= i < t.entries.len() && (#[trigger] t.entries[i]).commit_version != INVISIBLE && e
                == chunk_entry_of(t.entries[i]);
        lemma_flushed_contains(t.entries, t.entries.len(), i);
    }
}

/// A memtable that holds a committed entry with a log sequence has something
/// to flush: a plan is made for it.
pub proof fn law_committed_entry_is_flushed(t: MemTableView, at: int)
    requires
        t.seqs_cover(),
        0 <= at < t.entries.len(),
        t.entries[at].commit_version != INVISIBLE,
        0 < t.entries[at].wal_seq < u64::MAX,
    ensures
        !nothing_to_flush(t),
        entries_to_flush(t).contains(chunk_entry_of(t.entries[at])),
{
    lemma_flushed_contains(t.entries, t.entries.len(), at);
}

/// A completed flush is in the chunk index and in the log, and removes from
/// the log only what the chunk covers.
pub proof fn law_flush_truncates_only_what_it_covers(
    s: StoreView,
    p: FlushPlanView,
    etag: Seq<char>,
    now: i64,
    q: u64,
)
    requires
        s.last_wal_seq < u64::MAX,
    ensures
        ({
            let n = flush_completed(s, p, etag, now);
            &&& n.chunks.contains_key(p.chunk_id)
            &&& n.chunks[p.chunk_id] == flushed_chunk_entry(p, etag, now)
            &&& n.last_flushed_seq == p.last_seq
            &&& q <= p.last_seq ==> !n.wal.contains_key(q)
            &&& q > p.last_seq && q <= s.last_wal_seq ==> (n.wal.contains_key(q)
                <==> s.wal.contains_key(q)) && (s.wal.contains_key(q) ==> n.wal[q] == s.wal[q])
            &&& n.chains == s.chains
            &&& n.versions == s.versions
            &&& n.txns == s.txns
        }),
{
    let s1 = StoreView {
        chunks: s.chunks.insert(p.chunk_id, flushed_chunk_entry(p, etag, now)),
        ..s
    };
    lemma_pointers_frame(s1, p.entries, p.chunk_id, p.entries.len());
}

/// Setting pointers touches nothing but the record index and history.
pub proof fn lemma_pointers_frame(s: StoreView, es: Seq<ChunkEntryView>, chunk_id: Seq<char>, n: nat)
    ensures
        ({
            let r = pointers_set(s, es, chunk_id, n);
            r == (StoreView { records: r.records, record_versions: r.record_versions, ..s })
        }),
    decreases n,
{
    if n > 0 {
        lemma_pointers_frame(s, es, chunk_id, (n - 1) as nat);
    }
}

} // verus!
