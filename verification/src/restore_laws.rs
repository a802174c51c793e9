//! Laws of a cold rebuild: what flushes wrote is read back after the local
//! store was lost.

use crate::chunk::chunk_fits;
use crate::flush::{chunk_entry_of, flush_writer, FlushPlan};
use crate::memtable::{entry_visible, MemTableSetView, MemTableView};
use crate::read::{chunk_lookup, chunk_result, lookup, memtable_lookup, LookupView};
use crate::read_laws::law_chunk_shows_flushed_records;
use crate::rebuild::{
    chain_updates, chunk_of, found_before, found_chain_entry, found_chunks, found_in,
    found_index_entry, found_key, found_record, found_versions, insert_found,
    law_rebuild_indexes_the_latest, lemma_insert_all, lemma_insert_found_contains,
    lemma_sort_found_contains, rebuilt, rebuilt_chunk_entry, sort_found, CHUNK_SUFFIX,
    FoundVersionView, ListedObjectView, ReadChunkView,
};
use crate::store::{insert_all, StoreView};
use crate::store_chains::chain_at;
use crate::store_laws::{
    chains_ascending, law_bulk_append_keeps_chains_ascending, law_fresh_bulk_append_succeeds,
    update_fresh,
};
use crate::version_chain::VersionChainView;
use vstd::prelude::*;

verus! {

/// The object that an uploaded chunk file becomes.
pub open spec fn uploaded(plan: FlushPlan, etag: Seq<char>) -> ListedObjectView {
    ListedObjectView {
        key: plan@.s3_key,
        size: plan@.size,
        etag,
        bytes: Some(plan.file@),
    }
}

/// What a rebuild reads of the chunk of a flush.
pub open spec fn chunk_of_flush(t: MemTableView, plan: FlushPlan) -> ReadChunkView {
    ReadChunkView {
        header: plan@.header,
        entries: flush_writer(t, plan@.chunk_id).entries,
        bloom: Some(plan@.footer.bloom),
    }
}

/// A rebuild reads the chunk of a flush as the flush wrote it: header, entries
/// and bloom filter.
pub proof fn law_flushed_chunk_is_read(t: MemTableView, plan: FlushPlan, etag: Seq<char>)
    requires
        plan.plans(t, plan@.chunk_id),
        chunk_fits(flush_writer(t, plan@.chunk_id), plan@.footer),
    ensures
        chunk_of(uploaded(plan, etag)) == Some(chunk_of_flush(t, plan)),
{
    reveal(chunk_of);
    let key = plan@.s3_key;
    let n = CHUNK_SUFFIX@.len();
    assert(key.skip(key.len() - n) =~= CHUNK_SUFFIX@);
}

/// Every entry of a chunk that was read is found.
pub proof fn lemma_found_has(objects: Seq<ListedObjectView>, n: nat, o: int, i: int)
    requires
        0 <= o < n <= objects.len(),
        chunk_of(objects[o]) is Some,
        0 <= i < chunk_of(objects[o])->0.entries.len(),
    ensures
        found_versions(objects, n).contains(found_in(objects[o], chunk_of(objects[o])->0)[i]),
    decreases n,
{
    let h = found_in(objects[o], chunk_of(objects[o])->0)[i];
    let done = found_versions(objects, (n - 1) as nat);
    let all = found_versions(objects, n);
    if o < n - 1 {
        lemma_found_has(objects, (n - 1) as nat, o, i);
        let j = choose|j: int| 0 <= j < done.len() && done[j] == h;
        assert(all[j] == h);
    } else {
        assert(all[done.len() + i] == h);
    }
}

/// Each chunk index row of a rebuild is that of an object.
pub proof fn lemma_found_chunk_of(objects: Seq<ListedObjectView>, n: nat, i: int)
    requires
        n <= objects.len(),
        0 <= i < found_chunks(objects, n).len(),
    ensures
        exists|j: int|
            0 <= j < n && chunk_of(#[trigger] objects[j]) is Some && found_chunks(objects, n)[i]
                == (
                chunk_of(objects[j])->0.header.chunk_id,
                rebuilt_chunk_entry(objects[j], chunk_of(objects[j])->0),
            ),
    decreases n,
{
    if n > 0 {
        let done = found_chunks(objects, (n - 1) as nat);
        if i < done.len() {
            lemma_found_chunk_of(objects, (n - 1) as nat, i);
            assert(found_chunks(objects, n)[i] == done[i]);
        } else {
            assert(chunk_of(objects[n - 1]) is Some);
        }
    }
}

/// Every chunk that was read has a chunk index row.
pub proof fn lemma_found_chunks_has(objects: Seq<ListedObjectView>, n: nat, o: int)
    requires
        0 <= o < n <= objects.len(),
        chunk_of(objects[o]) is Some,
    ensures
        exists|i: int|
            0 <= i < found_chunks(objects, n).len() && (#[trigger] found_chunks(objects, n)[i]).0
                == chunk_of(objects[o])->0.header.chunk_id,
    decreases n,
{
    let id = chunk_of(objects[o])->0.header.chunk_id;
    let done = found_chunks(objects, (n - 1) as nat);
    let all = found_chunks(objects, n);
    if o < n - 1 {
        lemma_found_chunks_has(objects, (n - 1) as nat, o);
        let i = choose|i: int| 0 <= i < done.len() && (#[trigger] done[i]).0 == id;
        assert(all[i].0 == id);
    } else {
        assert(all[done.len() as int].0 == id);
    }
}

/// No object but the one at `o` holds a chunk with that chunk's id.
pub open spec fn chunk_id_unique(objects: Seq<ListedObjectView>, o: int) -> bool {
    forall|j: int|
        0 <= j < objects.len() && j != o && chunk_of(#[trigger] objects[j]) is Some
            ==> chunk_of(objects[j])->0.header.chunk_id != chunk_of(
            objects[o],
        )->0.header.chunk_id
}

/// A rebuild enters a chunk with an id of its own into the chunk index.
pub proof fn law_rebuild_indexes_the_chunk(
    s: StoreView,
    objects: Seq<ListedObjectView>,
    now: i64,
    o: int,
)
    requires
        0 <= o < objects.len(),
        chunk_of(objects[o]) is Some,
        chunk_id_unique(objects, o),
    ensures
        ({
            let c = chunk_of(objects[o])->0;
            let n = rebuilt(s, objects, now).0.chunks;
            n.contains_key(c.header.chunk_id) && n[c.header.chunk_id] == rebuilt_chunk_entry(
                objects[o],
                c,
            )
        }),
{
    let rows = found_chunks(objects, objects.len());
    let id = chunk_of(objects[o])->0.header.chunk_id;
    let n = insert_all(s.chunks, rows, rows.len());
    lemma_found_chunks_has(objects, objects.len(), o);
    lemma_insert_all(s.chunks, rows, rows.len(), id);
    let q = choose|q: int| 0 <= q < rows.len() && (#[trigger] rows[q]).0 == id && n[id] == rows[q].1;
    lemma_found_chunk_of(objects, objects.len(), q);
}

/// What a rebuild finds of one flushed memtable entry.
pub open spec fn flushed_version(
    t: MemTableView,
    plan: FlushPlan,
    etag: Seq<char>,
    at: int,
) -> FoundVersionView {
    FoundVersionView {
        entry: chunk_entry_of(t.entries[at]),
        chunk_s3_key: plan@.s3_key,
        chunk_id: plan@.chunk_id,
        etag,
    }
}

/// Every other version of the record in the objects is older than the flushed
/// one.
pub open spec fn newest_of_record(
    objects: Seq<ListedObjectView>,
    t: MemTableView,
    plan: FlushPlan,
    etag: Seq<char>,
    at: int,
) -> bool {
    let hs = found_versions(objects, objects.len());
    let h = flushed_version(t, plan, etag, at);
    forall|j: int|
        0 <= j < hs.len() && found_record(#[trigger] hs[j]) == found_record(h) && hs[j] != h
            ==> hs[j].entry.commit_version < h.entry.commit_version
}

/// After a rebuild a flushed record is found again. Of the record the objects
/// hold no other version as new as the flushed one. The lookup asks for the
/// chunk that was uploaded, and its file gives the record back as it was in
/// the memtable.
pub proof fn law_rebuild_restores_flushed_records(
    s: StoreView,
    objects: Seq<ListedObjectView>,
    now: i64,
    o: int,
    t: MemTableView,
    plan: FlushPlan,
    etag: Seq<char>,
    at: int,
    mems: MemTableSetView,
    snapshot: u64,
)
    requires
        0 <= o < objects.len(),
        objects[o] == uploaded(plan, etag),
        t.keys_distinct(),
        plan.plans(t, plan@.chunk_id),
        chunk_fits(flush_writer(t, plan@.chunk_id), plan@.footer),
        chunk_id_unique(objects, o),
        0 <= at < t.entries.len(),
        entry_visible(t.entries[at], snapshot),
        !t.entries[at].deleted,
        newest_of_record(objects, t, plan, etag, at),
        memtable_lookup(mems, t.entries[at].key, snapshot) is None,
    ensures
        ({
            let e = t.entries[at];
            let n = rebuilt(s, objects, now).0;
            let chunk = rebuilt_chunk_entry(objects[o], chunk_of_flush(t, plan));
            &&& chunk.s3_key == plan@.s3_key
            &&& lookup(mems, n, e.key, snapshot) == LookupView::Fetch(chunk)
            &&& chunk_lookup(plan.file@, e.key, snapshot) matches Ok(found) && found == Some(
                chunk_result(chunk_entry_of(e)),
            )
        }),
{
    let e = t.entries[at];
    let c = chunk_of_flush(t, plan);
    let hs = found_versions(objects, objects.len());
    let h = flushed_version(t, plan, etag, at);
    let n = rebuilt(s, objects, now).0;
    law_flushed_chunk_is_read(t, plan, etag);
    law_chunk_shows_flushed_records(t, plan, at, snapshot);
    let i = choose|i: int| 0 <= i < c.entries.len() && c.entries[i] == chunk_entry_of(e);
    assert(found_in(objects[o], c)[i] == h);
    lemma_found_has(objects, objects.len(), o, i);
    let w = choose|w: int| 0 <= w < hs.len() && hs[w] == h;
    assert(found_record(hs[w]) == e.key);
    law_rebuild_indexes_the_latest(s, objects, now, e.key);
    let j = choose|j: int|
        0 <= j < hs.len() && found_record(#[trigger] hs[j]) == e.key && n.records[e.key].entry
            == found_index_entry(hs[j], now);
    assert(hs[j] == h);
    law_rebuild_indexes_the_chunk(s, objects, now, o);
}

/// The two found versions are not the same version of one chain.
pub open spec fn versions_differ(a: FoundVersionView, b: FoundVersionView) -> bool {
    found_key(a) != found_key(b) || a.entry.commit_version != b.entry.commit_version
}

/// No version of a chain was found twice.
pub open spec fn found_once(hs: Seq<FoundVersionView>) -> bool {
    forall|i: int, j: int|
        0 <= i < j < hs.len() ==> versions_differ(#[trigger] hs[i], #[trigger] hs[j])
}

proof fn lemma_insert_found_once(s: Seq<FoundVersionView>, h: FoundVersionView)
    requires
        found_once(s),
        forall|i: int| 0 <= i < s.len() ==> versions_differ(#[trigger] s[i], h),
    ensures
        found_once(insert_found(s, h)),
    decreases s.len(),
{
    let r = insert_found(s, h);
    if s.len() > 0 && found_before(h, s.last()) {
        let d = s.drop_last();
        let inner = insert_found(d, h);
        assert forall|i: int| 0 <= i < d.len() implies versions_differ(#[trigger] d[i], h) by {
            assert(d[i] == s[i]);
        }
        assert forall|i: int, j: int| 0 <= i < j < d.len() implies versions_differ(
            #[trigger] d[i],
            #[trigger] d[j],
        ) by {
            assert(d[i] == s[i] && d[j] == s[j]);
        }
        lemma_insert_found_once(d, h);
        assert forall|i: int, j: int| 0 <= i < j < r.len() implies versions_differ(
            #[trigger] r[i],
            #[trigger] r[j],
        ) by {
            assert(r[i] == inner[i]);
            if j < inner.len() {
                assert(r[j] == inner[j]);
            } else {
                assert(r[j] == s.last());
                assert(inner.contains(inner[i]));
                lemma_insert_found_contains(d, h, inner[i]);
                if inner[i] == h {
                    assert(versions_differ(s[s.len() - 1], h));
                } else {
                    let k = choose|k: int| 0 <= k < d.len() && d[k] == inner[i];
                    assert(versions_differ(s[k], s[s.len() - 1]));
                }
            }
        }
    } else {
        assert forall|i: int, j: int| 0 <= i < j < r.len() implies versions_differ(
            #[trigger] r[i],
            #[trigger] r[j],
        ) by {
            assert(r[i] == s[i]);
            if j < s.len() {
                assert(r[j] == s[j]);
            }
        }
    }
}

proof fn lemma_sort_found_once(hs: Seq<FoundVersionView>, n: nat)
    requires
        found_once(hs),
        n <= hs.len(),
    ensures
        found_once(sort_found(hs, n)),
    decreases n,
{
    if n > 0 {
        let p = sort_found(hs, (n - 1) as nat);
        lemma_sort_found_once(hs, (n - 1) as nat);
        assert forall|i: int| 0 <= i < p.len() implies versions_differ(
            #[trigger] p[i],
            hs[n - 1],
        ) by {
            assert(p.contains(p[i]));
            lemma_sort_found_contains(hs, (n - 1) as nat, p[i]);
            let t = hs.take(n - 1);
            let k = choose|k: int| 0 <= k < t.len() && t[k] == p[i];
            assert(hs[k] == p[i]);
        }
        lemma_insert_found_once(p, hs[n - 1]);
    }
}

/// A rebuild of a store that lost its chains succeeds when no version of a
/// chain occurs twice in the chunks. Every version that was found is in its
/// chain afterwards, and every chain is strictly ascending.
pub proof fn law_rebuild_restores_the_chains(
    s: StoreView,
    objects: Seq<ListedObjectView>,
    now: i64,
)
    requires
        s.chains == Map::<Seq<char>, VersionChainView>::empty(),
        found_once(found_versions(objects, objects.len())),
    ensures
        rebuilt(s, objects, now).1 is Ok,
        ({
            let hs = found_versions(objects, objects.len());
            let n = rebuilt(s, objects, now).0.chains;
            &&& forall|i: int|
                0 <= i < hs.len() ==> chain_at(n, found_key(#[trigger] hs[i])).entries.contains(
                    found_chain_entry(hs[i], now),
                )
            &&& chains_ascending(n)
        }),
{
    let hs = found_versions(objects, objects.len());
    let sorted = sort_found(hs, hs.len());
    let us = chain_updates(sorted, now);
    lemma_sort_found_once(hs, hs.len());
    assert forall|i: int, j: int| 0 <= i < j < us.len() implies (#[trigger] us[i]).0 != (
    #[trigger] us[j]).0 || us[i].1.commit_version != us[j].1.commit_version by {
        assert(versions_differ(sorted[i], sorted[j]));
    }
    assert forall|i: int| 0 <= i < us.len() implies update_fresh(s.chains, #[trigger] us[i]) by {
        assert(us[i].0 == found_key(sorted[i]));
    }
    law_fresh_bulk_append_succeeds(s.chains, us);
    law_bulk_append_keeps_chains_ascending(s.chains, us);
    let n = rebuilt(s, objects, now).0.chains;
    assert(hs.take(hs.len() as int) =~= hs);
    assert forall|i: int| 0 <= i < hs.len() implies chain_at(
        n,
        found_key(#[trigger] hs[i]),
    ).entries.contains(found_chain_entry(hs[i], now)) by {
        assert(hs.contains(hs[i]));
        lemma_sort_found_contains(hs, hs.len(), hs[i]);
        let p = choose|p: int| 0 <= p < sorted.len() && sorted[p] == hs[i];
        assert(us[p].0 == found_key(hs[i]));
    }
}

} // verus!
