//! Laws of a flush, said of memtable entries: what the chunk file gives back
//! of each, and what the indexes say of the chunk.

use crate::cf::ChunkStatus;
use crate::chunk::{
    bloom_admits, chunk_fits, compose_key, entry_fits, entry_key, p_body, p_entries, p_file_footer,
    p_header, ChunkEntryView,
};
use crate::flush::{
    chunk_entry_of, entries_to_flush, flush_completed, flush_writer, flushed_entries,
    law_flush_writes_exactly_the_committed, lemma_flushed_contains, lemma_flushed_from,
    lemma_pointers_frame, nothing_to_flush, pointers_set, FlushPlan, FlushPlanView,
};
use crate::memtable::{MemEntryView, MemTableView, RecordKeyView};
use crate::order::bytes_before;
use crate::outside::xxh3;
use crate::read::{chunk_lookup, entry_shows, find_entry};
use crate::read_laws::{law_chunk_shows_flushed_records, lemma_find_entry};
use crate::rebuild::{highest_version, lowest_version};
use crate::store::{RecordVersionId, StoreView};
use crate::text::decimal;
use crate::wal::WalRecordView;
use vstd::prelude::*;
use vstd::utf8::*;

verus! {

/// The entry can be written to a chunk: its key has no zero byte, its fields
/// fit their lengths, and it has no empty content type.
pub open spec fn writable(e: MemEntryView) -> bool {
    &&& forall|i: int| 0 <= i < encode_utf8(e.key.0).len() ==> #[trigger] encode_utf8(e.key.0)[i] != 0
    &&& forall|i: int| 0 <= i < encode_utf8(e.key.1).len() ==> #[trigger] encode_utf8(e.key.1)[i] != 0
    &&& forall|i: int| 0 <= i < encode_utf8(e.key.2).len() ==> #[trigger] encode_utf8(e.key.2)[i] != 0
    &&& encode_utf8(e.key.0).len() + encode_utf8(e.key.1).len() + encode_utf8(e.key.2).len() + 2
        <= u16::MAX
    &&& e.value.len() <= u32::MAX
    &&& e.content_type is Some ==> 0 < e.content_type->0.len() && encode_utf8(
        e.content_type->0,
    ).len() <= u8::MAX
    &&& e.user_meta.len() <= u8::MAX
    &&& forall|i: int|
        0 <= i < e.user_meta.len() ==> encode_utf8((#[trigger] e.user_meta[i]).0).len() <= u8::MAX
            && encode_utf8(e.user_meta[i].1).len() <= u8::MAX
    &&& encode_utf8(e.txn_id).len() <= u8::MAX
}

/// The memtable can be flushed into one chunk: it has one entry per key, and
/// the chunk's name, its committed entries and its footer fit.
pub open spec fn flushable(t: MemTableView, plan: FlushPlan) -> bool {
    &&& forall|i: int, j: int|
        0 <= i < j < t.entries.len() ==> (#[trigger] t.entries[i]).key != (
        #[trigger] t.entries[j]).key
    &&& forall|i: int|
        0 <= i < t.entries.len() && (#[trigger] t.entries[i]).commit_version < u64::MAX
            ==> writable(t.entries[i])
    &&& encode_utf8(plan@.chunk_id).len() <= u16::MAX
    &&& crate::chunk::footer_bytes(plan@.footer).len() <= u32::MAX
    &&& plan.plans(t, plan@.chunk_id)
    &&& exists|i: int|
        0 <= i < t.entries.len() && (#[trigger] t.entries[i]).commit_version < u64::MAX
}

proof fn lemma_flushable_fits(t: MemTableView, plan: FlushPlan)
    requires
        flushable(t, plan),
    ensures
        t.keys_distinct(),
        chunk_fits(flush_writer(t, plan@.chunk_id), plan@.footer),
        entries_to_flush(t).len() > 0,
{
    let w = flush_writer(t, plan@.chunk_id);
    assert forall|i: int| 0 <= i < w.entries.len() implies entry_fits(#[trigger] w.entries[i]) by {
        lemma_writer_entry(t, plan@.chunk_id, i);
        let q = choose|q: int|
            0 <= q < t.entries.len() && (#[trigger] t.entries[q]).commit_version < u64::MAX
                && w.entries[i] == chunk_entry_of(t.entries[q]);
        assert(writable(t.entries[q]));
    }
    let q = choose|q: int|
        0 <= q < t.entries.len() && (#[trigger] t.entries[q]).commit_version < u64::MAX;
    lemma_flushed_contains(t.entries, t.entries.len(), q);
    let es = entries_to_flush(t);
    assert(es.contains(es[0]));
    lemma_flushed_from(t.entries, t.entries.len(), es[0]);
    let z = choose|z: int|
        0 <= z < t.entries.len() && (#[trigger] t.entries[z]).commit_version
            != crate::memtable::INVISIBLE && es[0] == chunk_entry_of(t.entries[z]);
    assert(writable(t.entries[z]));
}

proof fn lemma_writer_entry(t: MemTableView, chunk_id: Seq<char>, i: int)
    requires
        0 <= i < flush_writer(t, chunk_id).entries.len(),
    ensures
        exists|q: int|
            0 <= q < t.entries.len() && (#[trigger] t.entries[q]).commit_version < u64::MAX
                && flush_writer(t, chunk_id).entries[i] == chunk_entry_of(t.entries[q]),
{
    let w = flush_writer(t, chunk_id).entries;
    assert(w.contains(w[i]));
    law_flush_writes_exactly_the_committed(t, chunk_id, w[i]);
    let q = choose|q: int|
        0 <= q < t.entries.len() && (#[trigger] t.entries[q]).commit_version
            != crate::memtable::INVISIBLE && w[i] == chunk_entry_of(t.entries[q]);
    assert(t.entries[q].commit_version < u64::MAX);
}

/// For every committed entry of a flushed memtable, the chunk file read back
/// at a snapshot from its version on gives a result that agrees with the entry
/// in its body and in every other field.
pub proof fn law_chunk_gives_back_the_entry(
    t: MemTableView,
    plan: FlushPlan,
    at: int,
    snapshot: u64,
)
    requires
        flushable(t, plan),
        0 <= at < t.entries.len(),
        t.entries[at].commit_version < u64::MAX,
        t.entries[at].commit_version <= snapshot,
    ensures
        ({
            let e = t.entries[at];
            &&& chunk_lookup(plan.file@, e.key, snapshot) matches Ok(Some(r)) && r.body == e.value
                && r.commit_version == e.commit_version && r.txn_id == e.txn_id && r.deleted
                == e.deleted && r.content_type == e.content_type && r.user_meta == e.user_meta
                && r.schema_version == e.schema_version
            &&& bloom_admits(plan@.footer.bloom, compose_key(e.key.0, e.key.1, e.key.2))
        }),
{
    lemma_flushable_fits(t, plan);
    law_chunk_shows_flushed_records(t, plan, at, snapshot);
}

/// The entries are those of the committed memtable entries, in key order.
pub open spec fn holds_committed(t: MemTableView, es: Seq<ChunkEntryView>) -> bool {
    &&& forall|at: int|
        0 <= at < t.entries.len() && (#[trigger] t.entries[at]).commit_version < u64::MAX
            ==> exists|j: int| 0 <= j < es.len() && same_entry(t.entries[at], #[trigger] es[j])
    &&& forall|j: int|
        0 <= j < es.len() ==> exists|at: int|
            0 <= at < t.entries.len() && (#[trigger] t.entries[at]).commit_version < u64::MAX
                && same_entry(t.entries[at], #[trigger] es[j])
    &&& forall|i: int, j: int|
        0 <= i < j < es.len() ==> !bytes_before(
            compose_key((#[trigger] es[j]).space, es[j].table, es[j].record_id),
            compose_key((#[trigger] es[i]).space, es[i].table, es[i].record_id),
        )
}

proof fn lemma_writer_holds_committed(t: MemTableView, chunk_id: Seq<char>)
    ensures
        holds_committed(t, flush_writer(t, chunk_id).entries),
{
    let w = flush_writer(t, chunk_id).entries;
    assert forall|at: int|
        0 <= at < t.entries.len() && (#[trigger] t.entries[at]).commit_version
            < u64::MAX implies exists|j: int|
        0 <= j < w.len() && same_entry(t.entries[at], #[trigger] w[j]) by {
        let c = chunk_entry_of(t.entries[at]);
        law_flush_writes_exactly_the_committed(t, chunk_id, c);
        assert(w.contains(c));
        let j = choose|j: int| 0 <= j < w.len() && w[j] == c;
        assert(same_entry(t.entries[at], w[j]));
    }
    assert forall|j: int| 0 <= j < w.len() implies exists|at: int|
        0 <= at < t.entries.len() && (#[trigger] t.entries[at]).commit_version < u64::MAX
            && same_entry(t.entries[at], #[trigger] w[j]) by {
        lemma_writer_entry(t, chunk_id, j);
        let q = choose|q: int|
            0 <= q < t.entries.len() && (#[trigger] t.entries[q]).commit_version < u64::MAX
                && w[j] == chunk_entry_of(t.entries[q]);
        assert(same_entry(t.entries[q], w[j]));
    }
    assert(crate::chunk::key_sorted(w)) by {
        law_flush_writes_exactly_the_committed(t, chunk_id, w[0]);
    }
    assert forall|i: int, j: int| 0 <= i < j < w.len() implies !bytes_before(
        compose_key((#[trigger] w[j]).space, w[j].table, w[j].record_id),
        compose_key((#[trigger] w[i]).space, w[i].table, w[i].record_id),
    ) by {
        assert(!bytes_before(entry_key(w[j]), entry_key(w[i])));
    }
}

/// The chunk file of a flush holds one entry per committed entry of the
/// memtable, equal to it in every field, and no other, in key order. Its header
/// counts them and tells the length of its body.
pub proof fn law_chunk_holds_the_committed_entries(t: MemTableView, plan: FlushPlan)
    requires
        flushable(t, plan),
    ensures
        p_body(plan.file@) is Some,
        p_entries(p_body(plan.file@)->0, Seq::empty()) is Some,
        holds_committed(t, p_entries(p_body(plan.file@)->0, Seq::empty())->0),
        plan@.header.record_count == p_entries(p_body(plan.file@)->0, Seq::empty())->0.len() as u64,
{
    lemma_flushable_fits(t, plan);
    lemma_writer_holds_committed(t, plan@.chunk_id);
}

/// The chunk entry says of the record what the memtable entry says.
pub open spec fn same_entry(m: MemEntryView, c: ChunkEntryView) -> bool {
    &&& c.space == m.key.0
    &&& c.table == m.key.1
    &&& c.record_id == m.key.2
    &&& c.value == m.value
    &&& c.commit_version == m.commit_version
    &&& c.txn_id == m.txn_id
    &&& c.deleted == m.deleted
    &&& c.content_type == m.content_type
    &&& c.user_meta == m.user_meta
    &&& c.schema_version == m.schema_version
    &&& c.wal_seq == m.wal_seq
}

/// The chunk file of a flush shows of a record only what a committed entry of
/// the memtable says, and nothing above the snapshot.
pub proof fn law_chunk_shows_nothing_else(
    t: MemTableView,
    plan: FlushPlan,
    key: RecordKeyView,
    snapshot: u64,
)
    requires
        flushable(t, plan),
    ensures
        chunk_lookup(plan.file@, key, snapshot) is Ok,
        match chunk_lookup(plan.file@, key, snapshot)->Ok_0 {
            Some(r) => exists|at: int|
                0 <= at < t.entries.len() && (#[trigger] t.entries[at]).key == key
                    && t.entries[at].commit_version < u64::MAX && t.entries[at].commit_version
                    <= snapshot && r.commit_version == t.entries[at].commit_version,
            None => forall|at: int|
                0 <= at < t.entries.len() && (#[trigger] t.entries[at]).key == key
                    && t.entries[at].commit_version < u64::MAX ==> t.entries[at].commit_version
                    > snapshot,
        },
{
    lemma_flushable_fits(t, plan);
    let w = flush_writer(t, plan@.chunk_id).entries;
    lemma_find_entry(w, key, snapshot, 0);
    match find_entry(w, key, snapshot, 0) {
        Some(e) => {
            let j = choose|j: int| 0 <= j < w.len() && w[j] == e;
            lemma_writer_entry(t, plan@.chunk_id, j);
            let q = choose|q: int|
                0 <= q < t.entries.len() && (#[trigger] t.entries[q]).commit_version < u64::MAX
                    && w[j] == chunk_entry_of(t.entries[q]);
            assert(t.entries[q].key == key);
        },
        None => {
            assert forall|at: int|
                0 <= at < t.entries.len() && (#[trigger] t.entries[at]).key == key
                    && t.entries[at].commit_version < u64::MAX implies t.entries[at].commit_version
                > snapshot by {
                let c = chunk_entry_of(t.entries[at]);
                law_flush_writes_exactly_the_committed(t, plan@.chunk_id, c);
                assert(w.contains(c));
                let j = choose|j: int| 0 <= j < w.len() && w[j] == c;
                assert(!entry_shows(w[j], key, snapshot));
            }
        },
    }
}

/// A flush has nothing to do exactly where the memtable has no log range or no
/// committed entry.
pub proof fn law_nothing_to_flush_without_committed_entries(t: MemTableView)
    ensures
        nothing_to_flush(t) <==> t.earliest_seq == u64::MAX || t.latest_seq == 0 || forall|i: int|
            0 <= i < t.entries.len() ==> (#[trigger] t.entries[i]).commit_version == u64::MAX,
{
    let es = entries_to_flush(t);
    if es.len() > 0 {
        assert(es.contains(es[0]));
        lemma_flushed_from(t.entries, t.entries.len(), es[0]);
        let q = choose|q: int|
            0 <= q < t.entries.len() && (#[trigger] t.entries[q]).commit_version
                != crate::memtable::INVISIBLE && es[0] == chunk_entry_of(t.entries[q]);
        assert(t.entries[q].commit_version != u64::MAX);
    } else {
        assert forall|i: int| 0 <= i < t.entries.len() implies (#[trigger]
        t.entries[i]).commit_version == u64::MAX by {
            if t.entries[i].commit_version != u64::MAX {
                lemma_flushed_contains(t.entries, t.entries.len(), i);
            }
        }
    }
}

/// Key bytes of a memtable entry.
pub open spec fn key_of(e: MemEntryView) -> Seq<u8> {
    compose_key(e.key.0, e.key.1, e.key.2)
}

/// The plan of a flush names the chunk by its id, by the space and table of the
/// first committed entry and by its shard; its header spans all keys and counts
/// the entries, and its log range is that of the memtable.
pub proof fn law_plan_describes_the_chunk(t: MemTableView, plan: FlushPlan, first: int, at: int)
    requires
        flushable(t, plan),
        0 <= first < t.entries.len(),
        t.entries[first].commit_version < u64::MAX,
        forall|i: int|
            0 <= i < first ==> (#[trigger] t.entries[i]).commit_version == u64::MAX,
        0 <= at < t.entries.len(),
        t.entries[at].commit_version < u64::MAX,
    ensures
        ({
            let p = plan@;
            let f = t.entries[first].key;
            let key = key_of(t.entries[at]);
            &&& p.header.chunk_id == p.chunk_id
            &&& p.header.space == f.0
            &&& p.header.table == f.1
            &&& p.s3_key == "_xtable/"@ + f.0 + "/"@ + f.1 + "/"@ + decimal(p.shard as nat) + "/"@
                + p.chunk_id + ".xtc"@
            &&& p.shard == xxh3(p.header.key_min) as u8
            &&& !bytes_before(key, p.header.key_min)
            &&& !bytes_before(p.header.key_max, key)
            &&& exists|i: int|
                0 <= i < t.entries.len() && (#[trigger] t.entries[i]).commit_version < u64::MAX
                    && p.header.key_min == key_of(t.entries[i])
            &&& exists|i: int|
                0 <= i < t.entries.len() && (#[trigger] t.entries[i]).commit_version < u64::MAX
                    && p.header.key_max == key_of(t.entries[i])
            &&& p.first_seq == t.earliest_seq
            &&& p.last_seq == t.latest_seq
            &&& p_header(plan.file@) is Some && (p_header(plan.file@)->0).0 == p.header
            &&& p_file_footer(plan.file@) == Some(p.footer)
        }),
{
    lemma_flushable_fits(t, plan);
    let w = flush_writer(t, plan@.chunk_id).entries;
    lemma_first_flushed(t.entries, t.entries.len(), first);
    let c = chunk_entry_of(t.entries[at]);
    law_flush_writes_exactly_the_committed(t, plan@.chunk_id, c);
    assert(w.contains(c));
    let j = choose|j: int| 0 <= j < w.len() && w[j] == c;
    assert(entry_key(c) == compose_key(c.space, c.table, c.record_id));
    lemma_writer_entry(t, plan@.chunk_id, 0);
    lemma_writer_entry(t, plan@.chunk_id, w.len() - 1);
    if j > 0 {
        assert(!bytes_before(entry_key(w[j]), entry_key(w[0])));
    } else {
        crate::order::lemma_bytes_irreflexive(entry_key(c));
    }
    if j < w.len() - 1 {
        assert(!bytes_before(entry_key(w[w.len() - 1]), entry_key(w[j])));
    } else {
        crate::order::lemma_bytes_irreflexive(entry_key(c));
    }
}

proof fn lemma_first_flushed(es: Seq<MemEntryView>, n: nat, first: int)
    requires
        0 <= first < n <= es.len(),
        es[first].commit_version < u64::MAX,
        forall|i: int| 0 <= i < first ==> (#[trigger] es[i]).commit_version == u64::MAX,
    ensures
        flushed_entries(es, n).len() > 0,
        flushed_entries(es, n)[0] == chunk_entry_of(es[first]),
    decreases n,
{
    if n - 1 > first {
        lemma_first_flushed(es, (n - 1) as nat, first);
    } else {
        lemma_none_flushed(es, first as nat);
    }
}

proof fn lemma_none_flushed(es: Seq<MemEntryView>, n: nat)
    requires
        n <= es.len(),
        forall|i: int| 0 <= i < n ==> (#[trigger] es[i]).commit_version == u64::MAX,
    ensures
        flushed_entries(es, n).len() == 0,
    decreases n,
{
    if n > 0 {
        lemma_none_flushed(es, (n - 1) as nat);
    }
}

// ----- completion -----

/// The version range of entries is tight.
pub proof fn lemma_version_range(es: Seq<ChunkEntryView>, n: nat)
    requires
        n <= es.len(),
    ensures
        forall|i: int|
            0 <= i < n ==> lowest_version(es, n) <= (#[trigger] es[i]).commit_version
                <= highest_version(es, n),
        n > 0 ==> exists|i: int|
            0 <= i < n && (#[trigger] es[i]).commit_version == lowest_version(es, n),
        n > 0 ==> exists|i: int|
            0 <= i < n && (#[trigger] es[i]).commit_version == highest_version(es, n),
        n == 0 ==> highest_version(es, n) == 0,
    decreases n,
{
    if n > 0 {
        lemma_version_range(es, (n - 1) as nat);
        assert(es[n - 1] == es[n - 1]);
        if n > 1 {
            let a = choose|i: int|
                0 <= i < n - 1 && (#[trigger] es[i]).commit_version == lowest_version(
                    es,
                    (n - 1) as nat,
                );
            let b = choose|i: int|
                0 <= i < n - 1 && (#[trigger] es[i]).commit_version == highest_version(
                    es,
                    (n - 1) as nat,
                );
            assert(es[a] == es[a] && es[b] == es[b]);
        }
    }
}

/// A completed flush enters the chunk into the index as live, with the fields
/// of its plan and the tight range of its versions, and leaves all other
/// chunks alone.
pub proof fn law_completed_flush_indexes_the_chunk(
    s: StoreView,
    p: FlushPlanView,
    etag: Seq<char>,
    now: i64,
    other: Seq<char>,
)
    requires
        p.entries.len() > 0,
    ensures
        ({
            let n = flush_completed(s, p, etag, now);
            let c = n.chunks[p.chunk_id];
            &&& n.chunks.contains_key(p.chunk_id)
            &&& c.status == ChunkStatus::Live
            &&& c.s3_key == p.s3_key
            &&& c.space == p.header.space
            &&& c.table == p.header.table
            &&& c.shard == p.shard
            &&& c.key_min == p.header.key_min
            &&& c.key_max == p.header.key_max
            &&& c.wal_seq_first == p.first_seq
            &&& c.wal_seq_last == p.last_seq
            &&& c.size_bytes == p.size
            &&& c.etag == etag
            &&& c.bloom == Some(p.footer.bloom)
            &&& c.sha256_body.len() == 0
            &&& c.flushed_at_ms == now
            &&& forall|i: int|
                0 <= i < p.entries.len() ==> c.commit_version_min <= (
                #[trigger] p.entries[i]).commit_version <= c.commit_version_max
            &&& exists|i: int|
                0 <= i < p.entries.len() && (#[trigger] p.entries[i]).commit_version
                    == c.commit_version_min
            &&& exists|i: int|
                0 <= i < p.entries.len() && (#[trigger] p.entries[i]).commit_version
                    == c.commit_version_max
            &&& other != p.chunk_id ==> (n.chunks.contains_key(other) <==> s.chunks.contains_key(
                other,
            )) && (s.chunks.contains_key(other) ==> n.chunks[other] == s.chunks[other])
        }),
{
    let s1 = StoreView {
        chunks: s.chunks.insert(p.chunk_id, crate::flush::flushed_chunk_entry(p, etag, now)),
        ..s
    };
    lemma_pointers_frame(s1, p.entries, p.chunk_id, p.entries.len());
    lemma_version_range(p.entries, p.entries.len());
}

/// Some entry is of this version of the record.
pub open spec fn has_version(es: Seq<ChunkEntryView>, key: RecordKeyView, version: u64) -> bool {
    exists|i: int|
        0 <= i < es.len() && (#[trigger] es[i]).space == key.0 && es[i].table == key.1
            && es[i].record_id == key.2 && es[i].commit_version == version
}

proof fn lemma_pointers_exact(
    s: StoreView,
    es: Seq<ChunkEntryView>,
    chunk_id: Seq<char>,
    n: nat,
    id: RecordVersionId,
)
    requires
        n <= es.len(),
    ensures
        ({
            let r = pointers_set(s, es, chunk_id, n);
            let key = (id.0, id.1, id.2);
            let done = es.take(n as int);
            &&& r.records.contains_key(key) <==> s.records.contains_key(key)
            &&& s.records.contains_key(key) ==> {
                let a = s.records[key];
                let b = r.records[key];
                &&& b.body_json == a.body_json
                &&& b.entry.commit_version == a.entry.commit_version
                &&& b.entry.deleted == a.entry.deleted
                &&& b.entry.schema_version == a.entry.schema_version
                &&& b.entry.txn_id == a.entry.txn_id
                &&& b.entry.updated_ms == a.entry.updated_ms
                &&& b.entry.chunk_id == if has_version(done, key, a.entry.commit_version) {
                    chunk_id
                } else {
                    a.entry.chunk_id
                }
            }
            &&& r.record_versions.contains_key(id) <==> s.record_versions.contains_key(id)
            &&& s.record_versions.contains_key(id) ==> {
                let a = s.record_versions[id];
                let b = r.record_versions[id];
                &&& b.body == a.body
                &&& b.entry.commit_version == a.entry.commit_version
                &&& b.entry.deleted == a.entry.deleted
                &&& b.entry.schema_version == a.entry.schema_version
                &&& b.entry.txn_id == a.entry.txn_id
                &&& b.entry.updated_ms == a.entry.updated_ms
                &&& b.entry.chunk_id == if has_version(done, key, id.3) {
                    chunk_id
                } else {
                    a.entry.chunk_id
                }
            }
        }),
    decreases n,
{
    if n > 0 {
        lemma_pointers_exact(s, es, chunk_id, (n - 1) as nat, id);
        let key = (id.0, id.1, id.2);
        if s.records.contains_key(key) {
            lemma_has_version_step(es, n, key, s.records[key].entry.commit_version);
        }
        lemma_has_version_step(es, n, key, id.3);
    }
}

proof fn lemma_has_version_step(es: Seq<ChunkEntryView>, n: nat, key: RecordKeyView, version: u64)
    requires
        0 < n <= es.len(),
    ensures
        has_version(es.take(n as int), key, version) <==> has_version(es.take(n - 1), key, version)
            || (es[n - 1].space == key.0 && es[n - 1].table == key.1 && es[n - 1].record_id
            == key.2 && es[n - 1].commit_version == version),
{
    let a = es.take(n - 1);
    let b = es.take(n as int);
    if has_version(a, key, version) {
        let i = choose|i: int|
            0 <= i < a.len() && (#[trigger] a[i]).space == key.0 && a[i].table == key.1
                && a[i].record_id == key.2 && a[i].commit_version == version;
        assert(b[i] == a[i]);
    }
    assert(b[n - 1] == es[n - 1]);
    if has_version(b, key, version) {
        let i = choose|i: int|
            0 <= i < b.len() && (#[trigger] b[i]).space == key.0 && b[i].table == key.1
                && b[i].record_id == key.2 && b[i].commit_version == version;
        if i < n - 1 {
            assert(a[i] == b[i]);
        }
    }
}

/// A completed flush points the latest row of a record to the chunk exactly if
/// the chunk holds that very version, and a history row exactly if the chunk
/// holds its version. Nothing else of a row changes.
pub proof fn law_completed_flush_moves_the_pointers(
    s: StoreView,
    p: FlushPlanView,
    etag: Seq<char>,
    now: i64,
    id: RecordVersionId,
)
    ensures
        ({
            let n = flush_completed(s, p, etag, now);
            let key = (id.0, id.1, id.2);
            &&& n.records.contains_key(key) <==> s.records.contains_key(key)
            &&& s.records.contains_key(key) ==> {
                let a = s.records[key];
                let b = n.records[key];
                &&& b.body_json == a.body_json
                &&& b.entry.commit_version == a.entry.commit_version
                &&& b.entry.deleted == a.entry.deleted
                &&& b.entry.schema_version == a.entry.schema_version
                &&& b.entry.txn_id == a.entry.txn_id
                &&& b.entry.updated_ms == a.entry.updated_ms
                &&& b.entry.chunk_id == if has_version(p.entries, key, a.entry.commit_version) {
                    p.chunk_id
                } else {
                    a.entry.chunk_id
                }
            }
            &&& n.record_versions.contains_key(id) <==> s.record_versions.contains_key(id)
            &&& s.record_versions.contains_key(id) ==> {
                let a = s.record_versions[id];
                let b = n.record_versions[id];
                &&& b.body == a.body
                &&& b.entry.commit_version == a.entry.commit_version
                &&& b.entry.deleted == a.entry.deleted
                &&& b.entry.schema_version == a.entry.schema_version
                &&& b.entry.txn_id == a.entry.txn_id
                &&& b.entry.updated_ms == a.entry.updated_ms
                &&& b.entry.chunk_id == if has_version(p.entries, key, id.3) {
                    p.chunk_id
                } else {
                    a.entry.chunk_id
                }
            }
        }),
{
    let s1 = StoreView {
        chunks: s.chunks.insert(p.chunk_id, crate::flush::flushed_chunk_entry(p, etag, now)),
        ..s
    };
    lemma_pointers_exact(s1, p.entries, p.chunk_id, p.entries.len(), id);
    assert(p.entries.take(p.entries.len() as int) =~= p.entries);
}

/// A completed flush notes in the log up to which sequence and version the
/// chunk reaches, unless the chunk covers that record too, and leaves
/// transactions, writes, chains and versions alone.
pub proof fn law_completed_flush_is_logged(
    s: StoreView,
    p: FlushPlanView,
    etag: Seq<char>,
    now: i64,
)
    requires
        s.last_wal_seq < u64::MAX,
        p.entries.len() > 0,
    ensures
        ({
            let n = flush_completed(s, p, etag, now);
            let q = (s.last_wal_seq + 1) as u64;
            &&& n.last_wal_seq == q
            &&& n.last_flushed_seq == p.last_seq
            &&& n.wal.contains_key(q) <==> q > p.last_seq
            &&& n.wal.contains_key(q) ==> (n.wal[q] matches WalRecordView::MemtableFlushed {
                chunk_id,
                up_to_seq,
                up_to_commit_version,
            } && chunk_id == p.chunk_id && up_to_seq == p.last_seq && (forall|i: int|
                0 <= i < p.entries.len() ==> (#[trigger] p.entries[i]).commit_version
                    <= up_to_commit_version) && (exists|i: int|
                0 <= i < p.entries.len() && (#[trigger] p.entries[i]).commit_version
                    == up_to_commit_version))
            &&& n.global_version == s.global_version
            &&& n.txns == s.txns
            &&& n.writes == s.writes
            &&& n.blobs == s.blobs
            &&& n.chains == s.chains
            &&& n.versions == s.versions
            &&& n.snapshots == s.snapshots
            &&& n.schemas == s.schemas
            &&& n.multipart == s.multipart
        }),
{
    let s1 = StoreView {
        chunks: s.chunks.insert(p.chunk_id, crate::flush::flushed_chunk_entry(p, etag, now)),
        ..s
    };
    lemma_pointers_frame(s1, p.entries, p.chunk_id, p.entries.len());
    lemma_version_range(p.entries, p.entries.len());
}

} // verus!
