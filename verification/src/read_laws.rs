//! Laws of writing and reading records.

use crate::chunk::{
    bloom_admits, chunk_fits, compose_key, entry_key, entry_keys, law_bloom_has_no_false_negatives,
    BLOOM_BITS_PER_KEY, ChunkEntryView,
};
use crate::flush::{
    chunk_entry_of, flush_completed, flush_writer, flushed_chunk_entry,
    law_flush_writes_exactly_the_committed, pointers_set, FlushPlan,
};
use crate::memtable::{
    entry_visible, law_publish_keeps_visible_entries, law_put_then_get, INVISIBLE, MemEntryView,
    MemTableSetView, MemTableView, RecordKeyView,
};
use crate::read::{
    chunk_lookup, chunk_result, entry_shows, find_entry, lookup, memtable_lookup, newest_in,
    LookupView,
};
use crate::store::StoreView;
use vstd::prelude::*;

verus! {

proof fn lemma_newest_in(tables: Seq<MemTableView>, key: RecordKeyView, snapshot: u64, n: nat)
    ensures
        newest_in(tables, key, snapshot, n) matches Some(e) ==> entry_visible(e, snapshot),
    decreases n,
{
    if n > 0 {
        lemma_newest_in(tables, key, snapshot, (n - 1) as nat);
    }
}

/// A search finds an entry that shows the record, or there is none.
pub proof fn lemma_find_entry(es: Seq<ChunkEntryView>, key: RecordKeyView, snapshot: u64, i: int)
    requires
        0 <= i <= es.len(),
    ensures
        match find_entry(es, key, snapshot, i) {
            Some(e) => es.contains(e) && entry_shows(e, key, snapshot),
            None => forall|j: int|
                i <= j < es.len() ==> !entry_shows(#[trigger] es[j], key, snapshot),
        },
    decreases es.len() - i,
{
    if i < es.len() {
        lemma_find_entry(es, key, snapshot, i + 1);
        assert(es.contains(es[i]));
    }
}

/// A read at a snapshot never shows a version above it, whether it is
/// answered from memtables, indexes or a chunk.
pub proof fn law_reads_stay_within_their_snapshot(
    mems: MemTableSetView,
    s: StoreView,
    key: RecordKeyView,
    snapshot: u64,
    file: Seq<u8>,
)
    ensures
        lookup(mems, s, key, snapshot) matches LookupView::Answer(Some(r)) ==> r.commit_version
            <= snapshot,
        chunk_lookup(file, key, snapshot) matches Ok(Some(r)) ==> r.commit_version <= snapshot,
{
    lemma_newest_in(mems.flushing, key, snapshot, mems.flushing.len());
    if let Some(body) = crate::chunk::p_body(file) {
        if let Some(es) = crate::chunk::p_entries(body, Seq::empty()) {
            lemma_find_entry(es, key, snapshot, 0);
        }
    }
}

/// A committed entry that enters the memtables is what reads of its key find
/// from its version on, even where it made the active memtable rotate.
pub proof fn law_committed_entry_is_read_back(
    mems: MemTableSetView,
    s: StoreView,
    e: MemEntryView,
    age_ms: u64,
    snapshot: u64,
)
    requires
        mems.active.keys_distinct(),
        mems.active.id < u64::MAX,
        entry_visible(e, snapshot),
    ensures
        ({
            let n = mems.put(e, age_ms).publish(e.key, e.commit_version);
            &&& lookup(n, s, e.key, snapshot) matches LookupView::Answer(Some(r))
                && r.body == e.value && r.commit_version == e.commit_version && r.deleted
                == e.deleted && r.txn_id == e.txn_id && r.content_type == e.content_type
                && r.user_meta == e.user_meta
        }),
{
    let stored = mems.active.put(e);
    law_put_then_get(mems.active, e, snapshot);
    law_publish_keeps_visible_entries(stored, e.key, e.commit_version, e.key, snapshot);
    let p = mems.put(e, age_ms);
    let n = p.publish(e.key, e.commit_version);
    if stored.due(mems.policy, age_ms) {
        let empty = MemTableView::empty((mems.active.id + 1) as u64);
        assert(p.active == empty);
        assert(empty.slot(e.key) is None);
        assert(n.active.visible(e.key, snapshot) is None);
        let k = n.flushing.len();
        assert(k == mems.flushing.len() + 1);
        assert(n.flushing[k - 1] == stored.publish(e.key, e.commit_version));
        assert(newest_in(n.flushing, e.key, snapshot, k) == Some(e));
    }
}

/// What pointing the record index to a chunk leaves of one record.
proof fn lemma_pointer_of(
    s: StoreView,
    es: Seq<ChunkEntryView>,
    chunk_id: Seq<char>,
    n: nat,
    key: RecordKeyView,
)
    requires
        n <= es.len(),
        s.records.contains_key(key),
    ensures
        ({
            let r = pointers_set(s, es, chunk_id, n);
            let a = s.records[key];
            let b = r.records[key];
            &&& r.records.contains_key(key)
            &&& b.entry.commit_version == a.entry.commit_version
            &&& b.entry.deleted == a.entry.deleted
            &&& b.entry.chunk_id == a.entry.chunk_id || b.entry.chunk_id == chunk_id
            &&& (exists|i: int|
                0 <= i < n && (#[trigger] es[i]).space == key.0 && es[i].table == key.1
                    && es[i].record_id == key.2 && es[i].commit_version
                    == a.entry.commit_version) ==> b.entry.chunk_id == chunk_id
        }),
    decreases n,
{
    if n > 0 {
        lemma_pointer_of(s, es, chunk_id, (n - 1) as nat, key);
    }
}

/// The chunk of a flush shows every committed record of its memtable: the
/// bloom filter admits the record, and the chunk file gives it back as it was
/// in the memtable.
pub proof fn law_chunk_shows_flushed_records(
    t: MemTableView,
    plan: FlushPlan,
    at: int,
    snapshot: u64,
)
    requires
        t.keys_distinct(),
        plan.plans(t, plan@.chunk_id),
        chunk_fits(flush_writer(t, plan@.chunk_id), plan@.footer),
        0 <= at < t.entries.len(),
        entry_visible(t.entries[at], snapshot),
    ensures
        ({
            let e = t.entries[at];
            &&& bloom_admits(plan@.footer.bloom, compose_key(e.key.0, e.key.1, e.key.2))
            &&& flush_writer(t, plan@.chunk_id).entries.contains(chunk_entry_of(e))
            &&& chunk_lookup(plan.file@, e.key, snapshot) matches Ok(found) && found == Some(
                chunk_result(chunk_entry_of(e)),
            )
        }),
{
    let e = t.entries[at];
    let c = chunk_entry_of(e);
    let p = plan@;
    let w = flush_writer(t, p.chunk_id);
    law_flush_writes_exactly_the_committed(t, p.chunk_id, c);
    assert(w.entries.contains(c));
    let j = choose|j: int| 0 <= j < w.entries.len() && w.entries[j] == c;
    // The bloom filter admits the record.
    assert(entry_keys(w.entries)[j] == entry_key(c));
    law_bloom_has_no_false_negatives(
        p.footer.bloom,
        entry_keys(w.entries),
        BLOOM_BITS_PER_KEY as nat,
        j,
    );
    // The first entry of the chunk that shows the record is the flushed one.
    lemma_find_entry(w.entries, e.key, snapshot, 0);
    assert(entry_shows(w.entries[j], e.key, snapshot));
    let found = find_entry(w.entries, e.key, snapshot, 0)->0;
    law_flush_writes_exactly_the_committed(t, p.chunk_id, found);
    let q = choose|q: int|
        0 <= q < t.entries.len() && (#[trigger] t.entries[q]).commit_version != INVISIBLE && found
            == chunk_entry_of(t.entries[q]);
    assert(t.entries[q].key == e.key);
    if q < at {
        assert(t.entries[q].key != t.entries[at].key);
    }
    if at < q {
        assert(t.entries[at].key != t.entries[q].key);
    }
}

/// After a flush, a record whose latest version was flushed is found in the
/// uploaded chunk: the lookup asks for that chunk, and the chunk file gives
/// back the record as it was in the memtable.
pub proof fn law_flushed_record_reads_back(
    t: MemTableView,
    plan: FlushPlan,
    s: StoreView,
    etag: Seq<char>,
    now: i64,
    mems: MemTableSetView,
    at: int,
    snapshot: u64,
)
    requires
        t.keys_distinct(),
        plan.plans(t, plan@.chunk_id),
        chunk_fits(flush_writer(t, plan@.chunk_id), plan@.footer),
        0 <= at < t.entries.len(),
        entry_visible(t.entries[at], snapshot),
        s.last_wal_seq < u64::MAX,
        // The record index holds the flushed version as the latest one.
        s.records.contains_key(t.entries[at].key),
        s.records[t.entries[at].key].entry.commit_version == t.entries[at].commit_version,
        !s.records[t.entries[at].key].entry.deleted,
        // No memtable holds the record any more.
        memtable_lookup(mems, t.entries[at].key, snapshot) is None,
    ensures
        ({
            let e = t.entries[at];
            let n = flush_completed(s, plan@, etag, now);
            &&& lookup(mems, n, e.key, snapshot) == LookupView::Fetch(
                flushed_chunk_entry(plan@, etag, now),
            )
            &&& chunk_lookup(plan.file@, e.key, snapshot) matches Ok(found) && found == Some(
                chunk_result(chunk_entry_of(e)),
            )
        }),
{
    let e = t.entries[at];
    let c = chunk_entry_of(e);
    let p = plan@;
    let n = flush_completed(s, p, etag, now);
    law_chunk_shows_flushed_records(t, plan, at, snapshot);
    // The record index points to the chunk.
    let s1 = StoreView {
        chunks: s.chunks.insert(p.chunk_id, flushed_chunk_entry(p, etag, now)),
        ..s
    };
    lemma_pointer_of(s1, p.entries, p.chunk_id, p.entries.len(), e.key);
    lemma_flushed_has(t, at);
    let i = choose|i: int| 0 <= i < p.entries.len() && p.entries[i] == c;
    assert(p.entries[i].space == e.key.0);
    crate::flush::law_flush_truncates_only_what_it_covers(s, p, etag, now, 0);
}

proof fn lemma_flushed_has(t: MemTableView, at: int)
    requires
        0 <= at < t.entries.len(),
        t.entries[at].commit_version != INVISIBLE,
    ensures
        crate::flush::entries_to_flush(t).contains(chunk_entry_of(t.entries[at])),
{
    crate::flush::lemma_flushed_contains(t.entries, t.entries.len(), at);
}

} // verus!
