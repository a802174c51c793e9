//! Laws of memtables and lookups, said of entries: what storing and publishing
//! leave, and where a read finds what it finds.

use crate::chunk::{bloom_admits, compose_key, p_body, p_entries, ChunkEntryView};
use crate::memtable::{
    lemma_slot_of, lemma_slot_unique, size_sum, version_high, version_low, MemEntryView,
    MemTableSetView, MemTableView, RecordKeyView,
};
use crate::read::{
    chunk_lookup, find_entry, lookup, newest_in, LookupView, ReadResultView, ReadSource,
};
use crate::store::StoreView;
use vstd::prelude::*;

verus! {

// ----- memtables -----

/// No two entries of the memtable have the same key.
pub open spec fn one_per_key(t: MemTableView) -> bool {
    forall|i: int, j: int|
        0 <= i < j < t.entries.len() ==> (#[trigger] t.entries[i]).key != (
        #[trigger] t.entries[j]).key
}

/// Position `at` holds the committed entry of the key, visible at the snapshot.
pub open spec fn shows_at(t: MemTableView, key: RecordKeyView, snapshot: u64, at: int) -> bool {
    &&& 0 <= at < t.entries.len()
    &&& t.entries[at].key == key
    &&& t.entries[at].commit_version < u64::MAX
    &&& t.entries[at].commit_version <= snapshot
}

/// A memtable shows of a key its committed entry at or below the snapshot, and
/// nothing where it has none.
pub proof fn law_memtable_shows_committed_entries(
    t: MemTableView,
    key: RecordKeyView,
    snapshot: u64,
)
    requires
        one_per_key(t),
    ensures
        match t.visible(key, snapshot) {
            Some(e) => exists|at: int| #[trigger] shows_at(t, key, snapshot, at) && t.entries[at] == e,
            None => forall|at: int| !#[trigger] shows_at(t, key, snapshot, at),
        },
{
    lemma_slot_of(t.entries, key, t.entries.len());
    match t.slot(key) {
        Some(i) => {
            assert forall|at: int| #[trigger] shows_at(t, key, snapshot, at) implies at == i by {
                lemma_slot_unique(t, key, at);
            }
            if t.visible(key, snapshot) is Some {
                assert(shows_at(t, key, snapshot, i));
            }
        },
        None => {},
    }
}

/// Storing an entry replaces the entry of its key, where there is one, and else
/// adds it behind all others; every other entry stays in its place. The size
/// grows by that of the entry, by 64 at least, and the log range by its sequence.
pub proof fn law_put_replaces_the_entry_of_its_key(t: MemTableView, e: MemEntryView)
    requires
        one_per_key(t),
    ensures
        ({
            let p = t.put(e);
            let grown = if e.size_bytes < 64 {
                64
            } else {
                e.size_bytes
            };
            &&& one_per_key(p)
            &&& forall|i: int|
                0 <= i < t.entries.len() ==> #[trigger] p.entries[i] == if t.entries[i].key
                    == e.key {
                    e
                } else {
                    t.entries[i]
                }
            &&& (exists|i: int| 0 <= i < t.entries.len() && (#[trigger] t.entries[i]).key == e.key)
                ==> p.entries.len() == t.entries.len()
            &&& (forall|i: int| 0 <= i < t.entries.len() ==> (#[trigger] t.entries[i]).key != e.key)
                ==> p.entries.len() == t.entries.len() + 1 && p.entries.last() == e
            &&& p.id == t.id
            &&& t.bytes_estimate + grown <= u64::MAX ==> p.bytes_estimate == t.bytes_estimate
                + grown
            &&& p.earliest_seq <= e.wal_seq && p.earliest_seq <= t.earliest_seq
            &&& p.earliest_seq == e.wal_seq || p.earliest_seq == t.earliest_seq
            &&& p.latest_seq >= e.wal_seq && p.latest_seq >= t.latest_seq
            &&& p.latest_seq == e.wal_seq || p.latest_seq == t.latest_seq
        }),
{
    let p = t.put(e);
    lemma_slot_of(t.entries, e.key, t.entries.len());
    match t.slot(e.key) {
        Some(i) => {
            assert(t.entries[i].key == e.key);
            assert forall|j: int| 0 <= j < t.entries.len() implies #[trigger] p.entries[j]
                == if t.entries[j].key == e.key {
                e
            } else {
                t.entries[j]
            } by {
                if t.entries[j].key == e.key {
                    lemma_slot_unique(t, e.key, j);
                }
            }
            assert forall|a: int, b: int| 0 <= a < b < p.entries.len() implies (
            #[trigger] p.entries[a]).key != (#[trigger] p.entries[b]).key by {
                assert(p.entries[a].key == t.entries[a].key);
                assert(p.entries[b].key == t.entries[b].key);
            }
        },
        None => {
            assert forall|a: int, b: int| 0 <= a < b < p.entries.len() implies (
            #[trigger] p.entries[a]).key != (#[trigger] p.entries[b]).key by {
                assert(p.entries[a] == t.entries[a]);
                if b < t.entries.len() {
                    assert(p.entries[b] == t.entries[b]);
                }
            }
        },
    }
}

/// Publishing gives the staged entry of the key the version, and changes
/// nothing else: no other field, no entry that has a version, no other key.
pub proof fn law_publish_sets_the_version_of_staged_entries(
    t: MemTableView,
    key: RecordKeyView,
    commit_version: u64,
    i: int,
)
    requires
        one_per_key(t),
        0 <= i < t.entries.len(),
    ensures
        ({
            let p = t.publish(key, commit_version);
            let a = t.entries[i];
            let b = p.entries[i];
            &&& p.entries.len() == t.entries.len()
            &&& b.commit_version == if a.key == key && a.commit_version == u64::MAX {
                commit_version
            } else {
                a.commit_version
            }
            &&& b.key == a.key
            &&& b.value == a.value
            &&& b.txn_id == a.txn_id
            &&& b.deleted == a.deleted
            &&& b.content_type == a.content_type
            &&& b.user_meta == a.user_meta
            &&& b.schema_version == a.schema_version
            &&& b.wal_seq == a.wal_seq
            &&& b.size_bytes == a.size_bytes
            &&& p.id == t.id
            &&& p.bytes_estimate == t.bytes_estimate
            &&& p.earliest_seq == t.earliest_seq
            &&& p.latest_seq == t.latest_seq
        }),
{
    lemma_slot_of(t.entries, key, t.entries.len());
    if t.entries[i].key == key {
        lemma_slot_unique(t, key, i);
    }
}

/// An entry goes to the active memtable. That becomes immutable, behind all
/// others, and an empty one with the next id takes its place, exactly if its
/// size or age has then reached its limit.
pub proof fn law_active_memtable_rotates_at_its_limits(
    mems: MemTableSetView,
    e: MemEntryView,
    age_ms: u64,
)
    requires
        mems.active.id < u64::MAX,
    ensures
        ({
            let n = mems.put(e, age_ms);
            let stored = mems.active.put(e);
            let full = stored.bytes_estimate >= mems.policy.memtable_size_bytes || age_ms
                >= mems.policy.memtable_age_ms;
            &&& full ==> n.flushing.len() == mems.flushing.len() + 1 && n.flushing.last() == stored
                && n.flushing.drop_last() == mems.flushing
            &&& full ==> n.active.id == mems.active.id + 1 && n.active.entries.len() == 0
                && n.active.bytes_estimate == 0 && n.active.earliest_seq == u64::MAX
                && n.active.latest_seq == 0
            &&& !full ==> n.flushing == mems.flushing && n.active == stored
            &&& n.policy == mems.policy
            &&& n.max_immutables == mems.max_immutables
        }),
{
    assert(mems.flushing.push(mems.active.put(e)).drop_last() =~= mems.flushing);
}

/// Publishing reaches all memtables.
pub proof fn law_publish_reaches_every_memtable(
    mems: MemTableSetView,
    key: RecordKeyView,
    commit_version: u64,
    i: int,
)
    requires
        0 <= i < mems.flushing.len(),
    ensures
        ({
            let n = mems.publish(key, commit_version);
            &&& n.active == mems.active.publish(key, commit_version)
            &&& n.flushing.len() == mems.flushing.len()
            &&& n.flushing[i] == mems.flushing[i].publish(key, commit_version)
            &&& n.policy == mems.policy
        }),
{
}

/// The lowest and the highest version of entries are those of some, and bound
/// all; staged entries do not count for the highest.
pub proof fn law_version_bounds_are_tight(entries: Seq<MemEntryView>, n: nat)
    requires
        n <= entries.len(),
    ensures
        forall|i: int|
            0 <= i < n ==> version_low(entries, n) <= (#[trigger] entries[i]).commit_version,
        forall|i: int|
            0 <= i < n && (#[trigger] entries[i]).commit_version < u64::MAX
                ==> entries[i].commit_version <= version_high(entries, n),
        version_low(entries, n) < u64::MAX ==> exists|i: int|
            0 <= i < n && (#[trigger] entries[i]).commit_version == version_low(entries, n),
        version_high(entries, n) > 0 ==> exists|i: int|
            0 <= i < n && (#[trigger] entries[i]).commit_version == version_high(entries, n)
                && entries[i].commit_version < u64::MAX,
    decreases n,
{
    if n > 0 {
        let m = (n - 1) as nat;
        law_version_bounds_are_tight(entries, m);
        assert(entries[n - 1] == entries[n - 1]);
        if version_low(entries, n) == version_low(entries, m) && version_low(entries, n)
            < u64::MAX {
            let i = choose|i: int|
                0 <= i < m && (#[trigger] entries[i]).commit_version == version_low(entries, m);
            assert(entries[i] == entries[i]);
        }
        if version_high(entries, n) == version_high(entries, m) && version_high(entries, n) > 0 {
            let i = choose|i: int|
                0 <= i < m && (#[trigger] entries[i]).commit_version == version_high(entries, m)
                    && entries[i].commit_version < u64::MAX;
            assert(entries[i] == entries[i]);
        }
    }
}

/// The size of memtables adds up.
pub proof fn law_memtable_sizes_add_up(tables: Seq<MemTableView>, t: MemTableView)
    ensures
        size_sum(Seq::empty(), 0) == 0,
        size_sum(tables.push(t), tables.len() + 1) == size_sum(tables, tables.len())
            + t.bytes_estimate,
{
    lemma_size_prefix(tables, tables.push(t), tables.len());
}

proof fn lemma_size_prefix(a: Seq<MemTableView>, b: Seq<MemTableView>, n: nat)
    requires
        n <= a.len() <= b.len(),
        forall|i: int| 0 <= i < a.len() ==> a[i] == b[i],
    ensures
        size_sum(a, n) == size_sum(b, n),
    decreases n,
{
    if n > 0 {
        lemma_size_prefix(a, b, (n - 1) as nat);
    }
}

// ----- lookups -----

/// The result says of the record what the memtable entry says.
pub open spec fn result_of_entry(r: ReadResultView, e: MemEntryView) -> bool {
    &&& r.body == e.value
    &&& r.commit_version == e.commit_version
    &&& r.txn_id == e.txn_id
    &&& r.deleted == e.deleted
    &&& r.content_type == e.content_type
    &&& r.user_meta == e.user_meta
    &&& r.schema_version == e.schema_version
}

/// A lookup answers with the entry that the active memtable shows.
pub proof fn law_lookup_prefers_the_active_memtable(
    mems: MemTableSetView,
    s: StoreView,
    key: RecordKeyView,
    snapshot: u64,
    at: int,
)
    requires
        one_per_key(mems.active),
        shows_at(mems.active, key, snapshot, at),
    ensures
        lookup(mems, s, key, snapshot) matches LookupView::Answer(Some(r)) && result_of_entry(
            r,
            mems.active.entries[at],
        ) && r.source == ReadSource::Active,
{
    lemma_slot_unique(mems.active, key, at);
}

/// Where the active memtable shows nothing of the key, a lookup answers with
/// the entry of the newest immutable memtable that shows it.
pub proof fn law_lookup_takes_the_newest_immutable(
    mems: MemTableSetView,
    s: StoreView,
    key: RecordKeyView,
    snapshot: u64,
    table: int,
    at: int,
)
    requires
        one_per_key(mems.active),
        forall|i: int| !#[trigger] shows_at(mems.active, key, snapshot, i),
        0 <= table < mems.flushing.len(),
        forall|j: int| 0 <= j < mems.flushing.len() ==> one_per_key(#[trigger] mems.flushing[j]),
        shows_at(mems.flushing[table], key, snapshot, at),
        forall|j: int, i: int|
            table < j < mems.flushing.len() ==> !#[trigger] shows_at(
                mems.flushing[j],
                key,
                snapshot,
                i,
            ),
    ensures
        lookup(mems, s, key, snapshot) matches LookupView::Answer(Some(r)) && result_of_entry(
            r,
            mems.flushing[table].entries[at],
        ) && r.source == ReadSource::Immutable,
{
    law_memtable_shows_committed_entries(mems.active, key, snapshot);
    lemma_newest_in_is(mems.flushing, key, snapshot, mems.flushing.len(), table, at);
}

proof fn lemma_newest_in_is(
    tables: Seq<MemTableView>,
    key: RecordKeyView,
    snapshot: u64,
    n: nat,
    table: int,
    at: int,
)
    requires
        0 <= table < n <= tables.len(),
        forall|j: int| 0 <= j < tables.len() ==> one_per_key(#[trigger] tables[j]),
        shows_at(tables[table], key, snapshot, at),
        forall|j: int, i: int|
            table < j < n ==> !#[trigger] shows_at(tables[j], key, snapshot, i),
    ensures
        newest_in(tables, key, snapshot, n) == Some(tables[table].entries[at]),
    decreases n,
{
    assert(one_per_key(tables[n - 1]));
    if n - 1 == table {
        lemma_slot_unique(tables[table], key, at);
    } else {
        law_memtable_shows_committed_entries(tables[n - 1], key, snapshot);
        lemma_newest_in_is(tables, key, snapshot, (n - 1) as nat, table, at);
    }
}

proof fn lemma_newest_in_none(
    tables: Seq<MemTableView>,
    key: RecordKeyView,
    snapshot: u64,
    n: nat,
)
    requires
        n <= tables.len(),
        forall|j: int| 0 <= j < tables.len() ==> one_per_key(#[trigger] tables[j]),
        forall|j: int, i: int| 0 <= j < n ==> !#[trigger] shows_at(tables[j], key, snapshot, i),
    ensures
        newest_in(tables, key, snapshot, n) is None,
    decreases n,
{
    if n > 0 {
        assert(one_per_key(tables[n - 1]));
        law_memtable_shows_committed_entries(tables[n - 1], key, snapshot);
        lemma_newest_in_none(tables, key, snapshot, (n - 1) as nat);
    }
}

/// Where no memtable shows the key, the record index decides. Without an entry
/// at or below the snapshot there is no answer. A deleted record is answered as
/// such. Else the chunk of the entry is to be fetched, unless it is not known or
/// its bloom filter rules the record out.
pub proof fn law_lookup_goes_on_to_the_index(
    mems: MemTableSetView,
    s: StoreView,
    key: RecordKeyView,
    snapshot: u64,
)
    requires
        one_per_key(mems.active),
        forall|i: int| !#[trigger] shows_at(mems.active, key, snapshot, i),
        forall|j: int| 0 <= j < mems.flushing.len() ==> one_per_key(#[trigger] mems.flushing[j]),
        forall|j: int, i: int|
            0 <= j < mems.flushing.len() ==> !#[trigger] shows_at(
                mems.flushing[j],
                key,
                snapshot,
                i,
            ),
    ensures
        ({
            let found = lookup(mems, s, key, snapshot);
            let idx = s.records[key].entry;
            let indexed = s.records.contains_key(key) && idx.commit_version <= snapshot;
            let chunk = s.chunks[idx.chunk_id];
            &&& !indexed ==> found == LookupView::Answer(None)
            &&& indexed && idx.deleted ==> (found matches LookupView::Answer(Some(r)) && r.deleted
                && r.body.len() == 0 && r.commit_version == idx.commit_version && r.txn_id
                == idx.txn_id && r.schema_version == idx.schema_version && r.content_type is None
                && r.user_meta.len() == 0 && r.source == ReadSource::NotFound)
            &&& indexed && !idx.deleted && !s.chunks.contains_key(idx.chunk_id) ==> found
                == LookupView::Answer(None)
            &&& indexed && !idx.deleted && s.chunks.contains_key(idx.chunk_id) && chunk.bloom
                is None ==> found == LookupView::Fetch(chunk)
            &&& indexed && !idx.deleted && s.chunks.contains_key(idx.chunk_id) && chunk.bloom
                is Some ==> found == if bloom_admits(
                chunk.bloom->0,
                compose_key(key.0, key.1, key.2),
            ) {
                LookupView::Fetch(chunk)
            } else {
                LookupView::Answer(None)
            }
        }),
{
    law_memtable_shows_committed_entries(mems.active, key, snapshot);
    lemma_newest_in_none(mems.flushing, key, snapshot, mems.flushing.len());
}

/// The result says of the record what the chunk entry says.
pub open spec fn result_of_chunk_entry(r: ReadResultView, e: ChunkEntryView) -> bool {
    &&& r.body == e.value
    &&& r.commit_version == e.commit_version
    &&& r.txn_id == e.txn_id
    &&& r.deleted == e.deleted
    &&& r.content_type == e.content_type
    &&& r.user_meta == e.user_meta
    &&& r.schema_version == e.schema_version
    &&& r.source == ReadSource::Chunk
}

/// The entry is one of the record, at or below the snapshot.
pub open spec fn entry_of(e: ChunkEntryView, key: RecordKeyView, snapshot: u64) -> bool {
    e.space == key.0 && e.table == key.1 && e.record_id == key.2 && e.commit_version <= snapshot
}

/// A chunk file that can be read gives of a record its first entry at or below
/// the snapshot, and nothing where it has none. One that cannot be read is a
/// storage error.
pub proof fn law_chunk_file_gives_the_first_entry(
    file: Seq<u8>,
    key: RecordKeyView,
    snapshot: u64,
)
    ensures
        ({
            let found = chunk_lookup(file, key, snapshot);
            let es = p_entries(p_body(file)->0, Seq::empty())->0;
            let fine = p_body(file) is Some && p_entries(p_body(file)->0, Seq::empty()) is Some;
            &&& fine <==> found is Ok
            &&& !fine ==> (found matches Err(e) && e.0 == crate::types::ErrorKind::Storage)
            &&& fine ==> match found->Ok_0 {
                Some(r) => exists|i: int|
                    0 <= i < es.len() && entry_of(#[trigger] es[i], key, snapshot)
                        && result_of_chunk_entry(r, es[i]) && forall|j: int|
                        0 <= j < i ==> !entry_of(#[trigger] es[j], key, snapshot),
                None => forall|j: int|
                    0 <= j < es.len() ==> !entry_of(#[trigger] es[j], key, snapshot),
            }
        }),
{
    if p_body(file) is Some && p_entries(p_body(file)->0, Seq::empty()) is Some {
        let es = p_entries(p_body(file)->0, Seq::empty())->0;
        lemma_first_entry(es, key, snapshot, 0);
    }
}

proof fn lemma_first_entry(es: Seq<ChunkEntryView>, key: RecordKeyView, snapshot: u64, i: int)
    requires
        0 <= i <= es.len(),
    ensures
        match find_entry(es, key, snapshot, i) {
            Some(e) => exists|k: int|
                i <= k < es.len() && entry_of(#[trigger] es[k], key, snapshot) && es[k] == e
                    && forall|j: int| i <= j < k ==> !entry_of(#[trigger] es[j], key, snapshot),
            None => forall|j: int|
                i <= j < es.len() ==> !entry_of(#[trigger] es[j], key, snapshot),
        },
    decreases es.len() - i,
{
    if i < es.len() {
        lemma_first_entry(es, key, snapshot, i + 1);
        if entry_of(es[i], key, snapshot) {
            assert(find_entry(es, key, snapshot, i) == Some(es[i]));
        } else if find_entry(es, key, snapshot, i) is Some {
            let e = find_entry(es, key, snapshot, i)->0;
            let k = choose|k: int|
                i + 1 <= k < es.len() && entry_of(#[trigger] es[k], key, snapshot) && es[k] == e
                    && forall|j: int|
                    i + 1 <= j < k ==> !entry_of(#[trigger] es[j], key, snapshot);
            assert(entry_of(es[k], key, snapshot));
        }
    }
}

} // verus!
