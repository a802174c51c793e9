//! Laws of commits: when one succeeds, what readers see of it, and how the
//! transaction ends.

use crate::commit_steps::{
    active_txn, bodies_to_commit, body_to_commit, commit_updates, first_conflict, memtable_entry,
    memtable_published, write_rows, CoordView, Failure, SpillReadView,
};
use crate::cleanup::WriteRows;
use crate::memtable::{
    entry_visible, law_put_then_get, lemma_publish_keeps_keys, lemma_publish_keeps_others,
    lemma_put_keeps_others, INVISIBLE, MemEntryView, MemTableSetView, MemTableView, RecordKeyView,
};
use crate::read::{lookup, newest_in, LookupView};
use crate::record_key::memtable_key;
use crate::si_lock_manager::law_one_sided_txn_is_safe;
use crate::store::StoreView;
use crate::store_chains::{
    apply_update, apply_updates, chain_at, insert_update, sort_updates, ChainUpdate, Chains,
};
use crate::store_laws::lemma_push_keeps_reads;
use crate::text::{lemma_text_leq, sorted_texts, text_leq};
use crate::txn_laws::{
    law_commit_is_atomic_at_one_version, law_failed_commit_aborts,
    law_failed_commit_publishes_nothing, sound,
};
use crate::txn_state::WriteSetEntryView;
use crate::types::TxnStatus;
use crate::version_chain::{latest_version, visible_entry};
use vstd::prelude::*;

verus! {

// ----- when a commit succeeds -----

/// No two updates are for the same key.
pub open spec fn update_keys_distinct(s: Seq<ChainUpdate>) -> bool {
    forall|i: int, j: int|
        0 <= i < j < s.len() ==> (#[trigger] s[i]).0 != (#[trigger] s[j]).0
}

/// The chain takes the update: it has no version above the snapshot and none
/// as new as the update's.
pub open spec fn update_welcome(chains: Chains, u: ChainUpdate) -> bool {
    let c = chain_at(chains, u.0).entries;
    c.len() > 0 ==> latest_version(c) <= u.2 && latest_version(c) < u.1.commit_version
}

proof fn lemma_insert_distinct(s: Seq<ChainUpdate>, u: ChainUpdate)
    requires
        update_keys_distinct(s),
        forall|i: int| 0 <= i < s.len() ==> (#[trigger] s[i]).0 != u.0,
    ensures
        update_keys_distinct(insert_update(s, u)),
        forall|j: int|
            0 <= j < insert_update(s, u).len() ==> #[trigger] insert_update(s, u)[j] == u
                || s.contains(insert_update(s, u)[j]),
    decreases s.len(),
{
    let r = insert_update(s, u);
    if s.len() > 0 && crate::store_chains::update_before(u, s.last()) {
        let d = s.drop_last();
        let inner = insert_update(d, u);
        lemma_insert_distinct(d, u);
        assert(s.contains(s.last()));
        assert forall|j: int| 0 <= j < r.len() implies #[trigger] r[j] == u || s.contains(r[j]) by {
            if j < inner.len() {
                assert(r[j] == inner[j]);
                if inner[j] != u {
                    let k = choose|k: int| 0 <= k < d.len() && d[k] == inner[j];
                    assert(s[k] == r[j]);
                }
            }
        }
        assert forall|i: int, j: int| 0 <= i < j < r.len() implies (#[trigger] r[i]).0 != (
        #[trigger] r[j]).0 by {
            assert(r[i] == inner[i]);
            if j < inner.len() {
                assert(r[j] == inner[j]);
            } else if inner[i] != u {
                let k = choose|k: int| 0 <= k < d.len() && d[k] == inner[i];
                assert(s[k].0 != s[s.len() - 1].0);
            }
        }
    } else {
        assert forall|j: int| 0 <= j < r.len() implies #[trigger] r[j] == u || s.contains(r[j]) by {
            if j < s.len() {
                assert(r[j] == s[j]);
            }
        }
    }
}

/// Sorting keeps keys distinct and adds no update.
pub proof fn lemma_sort_distinct(s: Seq<ChainUpdate>, n: nat)
    requires
        update_keys_distinct(s),
        n <= s.len(),
    ensures
        update_keys_distinct(sort_updates(s, n)),
        forall|j: int|
            0 <= j < sort_updates(s, n).len() ==> exists|k: int|
                0 <= k < n && #[trigger] s[k] == #[trigger] sort_updates(s, n)[j],
    decreases n,
{
    if n > 0 {
        let p = sort_updates(s, (n - 1) as nat);
        let r = sort_updates(s, n);
        let u = s[n - 1];
        lemma_sort_distinct(s, (n - 1) as nat);
        assert forall|i: int| 0 <= i < p.len() implies (#[trigger] p[i]).0 != u.0 by {
            let k = choose|k: int| 0 <= k < n - 1 && s[k] == p[i];
            assert(s[k].0 != s[n - 1].0);
        }
        lemma_insert_distinct(p, u);
        assert forall|j: int| 0 <= j < r.len() implies exists|k: int|
            0 <= k < n && #[trigger] s[k] == #[trigger] r[j] by {
            if r[j] == u {
                assert(s[n - 1] == r[j]);
            } else {
                let q = choose|q: int| 0 <= q < p.len() && p[q] == r[j];
                let k = choose|k: int| 0 <= k < n - 1 && s[k] == p[q];
                assert(s[k] == r[j]);
            }
        }
    }
}

proof fn lemma_welcome_updates_apply(chains: Chains, s: Seq<ChainUpdate>, i: int)
    requires
        0 <= i <= s.len(),
        update_keys_distinct(s),
        forall|j: int| i <= j < s.len() ==> update_welcome(chains, #[trigger] s[j]),
    ensures
        apply_updates(chains, s, i) is Ok,
    decreases s.len() - i,
{
    if i < s.len() {
        assert(update_welcome(chains, s[i]));
        let next = apply_update(chains, s[i])->Ok_0;
        assert forall|j: int| i + 1 <= j < s.len() implies update_welcome(
            next,
            #[trigger] s[j],
        ) by {
            assert(s[i].0 != s[j].0);
            assert(update_welcome(chains, s[j]));
        }
        lemma_welcome_updates_apply(next, s, i + 1);
    }
}

proof fn lemma_no_conflict(chains: Chains, keys: Seq<Seq<char>>, snapshot: u64, i: int)
    requires
        0 <= i <= keys.len(),
        forall|j: int|
            i <= j < keys.len() ==> chain_at(chains, #[trigger] keys[j]).entries.len() == 0
                || latest_version(chain_at(chains, keys[j]).entries) <= snapshot,
    ensures
        first_conflict(chains, keys, snapshot, i) is None,
    decreases keys.len() - i,
{
    if i < keys.len() {
        lemma_no_conflict(chains, keys, snapshot, i + 1);
    }
}

/// Sorting names the same texts, each as often.
pub proof fn lemma_sorted(s: Seq<Seq<char>>)
    ensures
        sorted_texts(s).to_multiset() == s.to_multiset(),
        sorted_texts(s).len() == s.len(),
        forall|i: int| 0 <= i < sorted_texts(s).len() ==> s.contains(#[trigger] sorted_texts(s)[i]),
        s.no_duplicates() ==> sorted_texts(s).no_duplicates(),
{
    let r = sorted_texts(s);
    lemma_text_leq();
    s.lemma_sort_by_ensures(text_leq());
    s.to_multiset_ensures();
    r.to_multiset_ensures();
    assert forall|i: int| 0 <= i < r.len() implies s.contains(#[trigger] r[i]) by {
        assert(r.contains(r[i]));
        assert(r.to_multiset().contains(r[i]));
        assert(s.to_multiset().contains(r[i]));
    }
    if s.no_duplicates() {
        s.lemma_multiset_has_no_duplicates();
        r.lemma_multiset_has_no_duplicates_conv();
    }
}

/// The transaction's writes meet no newer version than its snapshot.
pub open spec fn writes_are_fresh(s: StoreView, txn: Seq<char>) -> bool {
    forall|k: Seq<char>| #[trigger]
        s.txns[txn].write_keys.contains(k) ==> chain_at(s.chains, k).entries.len() == 0
            || latest_version(chain_at(s.chains, k).entries) <= s.txns[txn].snapshot_version
}

/// The bodies of all writes of the transaction are at hand.
pub open spec fn bodies_at_hand(s: StoreView, txn: Seq<char>, reads: Seq<SpillReadView>) -> bool {
    bodies_to_commit(s, reads, write_rows(s, txn), write_rows(s, txn).len()) is Ok
}

/// In a sound store, a transaction commits where its bodies are at hand, no
/// peer endangers it, and nobody has written its keys since its snapshot.
pub proof fn law_unopposed_commit_succeeds(
    c: CoordView,
    txn: Seq<char>,
    reads: Seq<SpillReadView>,
    now: i64,
    age_ms: u64,
)
    requires
        sound(c.store),
        active_txn(c.store, txn) is Ok,
        c.has_room(txn),
        bodies_at_hand(c.store, txn, reads),
        c.locks.danger(txn) is None,
        writes_are_fresh(c.store, txn),
    ensures
        c.committed(txn, reads, now, age_ms).1 is Ok,
{
    let t = c.store.txns[txn];
    let owned = CoordView { store: c.store.with_status(txn, TxnStatus::Committing), ..c };
    let rows = write_rows(owned.store, txn);
    assert(owned.store.writes == c.store.writes);
    lemma_same_bodies(c.store, owned.store, reads, rows, rows.len());
    let keys = sorted_texts(t.write_keys);
    lemma_sorted(t.write_keys);
    let version = if keys.len() == 0 {
        t.snapshot_version
    } else {
        (owned.store.global_version + 1) as u64
    };
    lemma_no_conflict(c.store.chains, keys, t.snapshot_version, 0);
    let allocated = if keys.len() == 0 {
        owned
    } else {
        CoordView { store: StoreView { global_version: version, ..owned.store }, ..owned }
    };
    let p = allocated.prepared(txn, keys, version);
    let updates = commit_updates(
        p.store.write_set(txn),
        keys,
        txn,
        version,
        t.snapshot_version,
        now,
    );
    assert forall|i: int, j: int| 0 <= i < j < updates.len() implies (#[trigger] updates[i]).0 != (
    #[trigger] updates[j]).0 by {
        assert(keys[i] != keys[j]);
    }
    let sorted = sort_updates(updates, updates.len());
    lemma_sort_distinct(updates, updates.len());
    assert forall|j: int| 0 <= j < sorted.len() implies update_welcome(
        p.store.chains,
        #[trigger] sorted[j],
    ) by {
        let k = choose|k: int| 0 <= k < updates.len() && updates[k] == sorted[j];
        assert(updates[k].0 == keys[k]);
        assert(t.write_keys.contains(keys[k]));
        let e = chain_at(c.store.chains, keys[k]).entries;
        if e.len() > 0 {
            assert(chain_at(c.store.chains, keys[k]).entries[e.len() - 1].commit_version
                <= c.store.global_version);
        }
    }
    lemma_welcome_updates_apply(p.store.chains, sorted, 0);
}

/// The bodies to commit depend on the spilled bodies alone.
pub proof fn lemma_same_bodies(
    a: StoreView,
    b: StoreView,
    reads: Seq<SpillReadView>,
    rows: WriteRows,
    n: nat,
)
    requires
        a.blobs == b.blobs,
    ensures
        bodies_to_commit(a, reads, rows, n) == bodies_to_commit(b, reads, rows, n),
    decreases n,
{
    if n > 0 {
        lemma_same_bodies(a, b, reads, rows, (n - 1) as nat);
    }
}

/// A transaction that only reads always commits, at its snapshot.
pub proof fn law_read_only_txn_commits(
    c: CoordView,
    txn: Seq<char>,
    reads: Seq<SpillReadView>,
    now: i64,
    age_ms: u64,
)
    requires
        sound(c.store),
        active_txn(c.store, txn) is Ok,
        c.has_room(txn),
        c.store.txns[txn].write_keys.len() == 0,
        write_rows(c.store, txn).len() == 0,
        c.locks.by_txn.contains_key(txn) ==> c.locks.by_txn[txn].out_edges.len() == 0,
    ensures
        c.committed(txn, reads, now, age_ms).1 == Ok::<u64, Failure>(
            c.store.txns[txn].snapshot_version,
        ),
{
    law_one_sided_txn_is_safe(c.locks, txn);
    law_unopposed_commit_succeeds(c, txn, reads, now, age_ms);
    law_commit_is_atomic_at_one_version(c, txn, reads, now, age_ms);
}

/// A commit ends an active transaction of a sound store: it is committed or
/// aborted, never left in between, and no other transaction changes.
pub proof fn law_commit_ends_the_transaction(
    c: CoordView,
    txn: Seq<char>,
    reads: Seq<SpillReadView>,
    now: i64,
    age_ms: u64,
)
    requires
        sound(c.store),
        active_txn(c.store, txn) is Ok,
        c.has_room(txn),
    ensures
        ({
            let (n, r) = c.committed(txn, reads, now, age_ms);
            &&& n.store.txns == c.store.txns.insert(txn, n.store.txns[txn])
            &&& n.store.txns[txn].status == if r is Ok {
                TxnStatus::Committed
            } else {
                TxnStatus::Aborted
            }
        }),
{
    if c.committed(txn, reads, now, age_ms).1 is Ok {
        law_commit_is_atomic_at_one_version(c, txn, reads, now, age_ms);
    } else {
        law_failed_commit_aborts(c, txn, reads, now, age_ms);
    }
}

// ----- what readers see -----

/// What a transaction sees at its snapshot stays as it is, whoever commits and
/// whether or not that succeeds.
pub proof fn law_snapshot_reads_are_stable(
    c: CoordView,
    reader: Seq<char>,
    key: Seq<char>,
    writer: Seq<char>,
    reads: Seq<SpillReadView>,
    now: i64,
    age_ms: u64,
)
    requires
        sound(c.store),
        c.store.txns.contains_key(reader),
        c.has_room(writer),
    ensures
        ({
            let n = c.committed(writer, reads, now, age_ms).0;
            let snapshot = c.store.txns[reader].snapshot_version;
            &&& n.store.txns.contains_key(reader)
            &&& n.store.txns[reader].snapshot_version == snapshot
            &&& visible_entry(chain_at(n.store.chains, key).entries, snapshot) == visible_entry(
                chain_at(c.store.chains, key).entries,
                snapshot,
            )
        }),
{
    let (n, r) = c.committed(writer, reads, now, age_ms);
    let snapshot = c.store.txns[reader].snapshot_version;
    assert(snapshot <= c.store.global_version);
    if active_txn(c.store, writer) is Ok {
        if r is Ok {
            law_commit_is_atomic_at_one_version(c, writer, reads, now, age_ms);
            let a = chain_at(c.store.chains, key).entries;
            let b = chain_at(n.store.chains, key).entries;
            assert(b == a || b == a.push(b.last()));
            if b != a {
                assert(c.store.txns[writer].write_keys.contains(key));
                lemma_push_keeps_reads(a, b.last(), snapshot);
            }
        } else {
            law_failed_commit_publishes_nothing(c, writer, reads, now, age_ms);
            law_failed_commit_aborts(c, writer, reads, now, age_ms);
            lemma_failed_commit_keeps_snapshot(c, writer, reads, now, age_ms);
        }
    }
}

proof fn lemma_failed_commit_keeps_snapshot(
    c: CoordView,
    txn: Seq<char>,
    reads: Seq<SpillReadView>,
    now: i64,
    age_ms: u64,
)
    requires
        active_txn(c.store, txn) is Ok,
        c.committed(txn, reads, now, age_ms).1 is Err,
    ensures
        c.committed(txn, reads, now, age_ms).0.store.txns[txn].snapshot_version
            == c.store.txns[txn].snapshot_version,
{
}

/// Reading, writing and staying alive keep a transaction active at the
/// snapshot that it began with.
pub proof fn law_snapshot_stays_fixed(
    c: CoordView,
    txn: Seq<char>,
    key: Seq<char>,
    version: u64,
    etag: Seq<char>,
    body: Seq<u8>,
    e: WriteSetEntryView,
    now: i64,
)
    requires
        active_txn(c.store, txn) is Ok,
    ensures
        ({
            let a = c.noted_read(txn, key, version, etag).store.txns[txn];
            let b = c.staged(txn, body, e, now).store.txns[txn];
            let d = c.alive(txn, now).store.txns[txn];
            let t = c.store.txns[txn];
            &&& a.snapshot_version == t.snapshot_version && a.status == TxnStatus::Active
            &&& b.snapshot_version == t.snapshot_version && b.status == TxnStatus::Active
            &&& d.snapshot_version == t.snapshot_version && d.status == TxnStatus::Active
        }),
{
}

// ----- what reads give back of a committed write -----

/// What the memtables hold of a key for a reader.
pub open spec fn held(mems: MemTableSetView, key: RecordKeyView, snapshot: u64) -> Option<
    MemEntryView,
> {
    match mems.active.visible(key, snapshot) {
        Some(e) => Some(e),
        None => newest_in(mems.flushing, key, snapshot, mems.flushing.len()),
    }
}

proof fn lemma_newest_in_published(
    tables: Seq<MemTableView>,
    other: RecordKeyView,
    version: u64,
    key: RecordKeyView,
    snapshot: u64,
    n: nat,
)
    requires
        key != other,
        n <= tables.len(),
    ensures
        newest_in(
            tables.map_values(|t: MemTableView| t.publish(other, version)),
            key,
            snapshot,
            n,
        ) == newest_in(tables, key, snapshot, n),
    decreases n,
{
    if n > 0 {
        lemma_newest_in_published(tables, other, version, key, snapshot, (n - 1) as nat);
        lemma_publish_keeps_others(tables[n - 1], other, version, key, snapshot);
    }
}

proof fn lemma_newest_in_prefix(
    a: Seq<MemTableView>,
    b: Seq<MemTableView>,
    key: RecordKeyView,
    snapshot: u64,
    n: nat,
)
    requires
        n <= a.len() <= b.len(),
        forall|i: int| 0 <= i < a.len() ==> a[i] == b[i],
    ensures
        newest_in(a, key, snapshot, n) == newest_in(b, key, snapshot, n),
    decreases n,
{
    if n > 0 {
        lemma_newest_in_prefix(a, b, key, snapshot, (n - 1) as nat);
    }
}

/// An entry of another key changes nothing for a reader of this one.
proof fn lemma_other_entry(
    mems: MemTableSetView,
    e: MemEntryView,
    version: u64,
    age_ms: u64,
    key: RecordKeyView,
    snapshot: u64,
)
    requires
        key != e.key,
    ensures
        held(mems.put(e, age_ms).publish(e.key, version), key, snapshot) == held(
            mems,
            key,
            snapshot,
        ),
{
    let stored = mems.active.put(e);
    let p = mems.put(e, age_ms);
    let n = p.publish(e.key, version);
    lemma_put_keeps_others(mems.active, e, key, snapshot);
    lemma_publish_keeps_others(p.active, e.key, version, key, snapshot);
    lemma_newest_in_published(p.flushing, e.key, version, key, snapshot, p.flushing.len());
    assert(n.flushing.len() == p.flushing.len());
    if stored.due(mems.policy, age_ms) {
        assert(p.active.slot(key) is None);
        assert(p.flushing == mems.flushing.push(stored));
        assert(p.flushing[p.flushing.len() - 1] == stored);
        lemma_newest_in_prefix(mems.flushing, p.flushing, key, snapshot, mems.flushing.len());
    }
}

/// The active memtable keeps its keys distinct, and its id grows by one per
/// row at most.
proof fn lemma_published_active(
    mem: MemTableSetView,
    rows: WriteRows,
    bodies: Seq<Seq<u8>>,
    txn: Seq<char>,
    version: u64,
    age_ms: u64,
    n: nat,
)
    requires
        mem.active.keys_distinct(),
        n <= rows.len(),
        mem.active.id + rows.len() <= u64::MAX,
        version != INVISIBLE,
    ensures
        memtable_published(mem, rows, bodies, txn, version, age_ms, n).active.keys_distinct(),
        memtable_published(mem, rows, bodies, txn, version, age_ms, n).active.id <= mem.active.id
            + n,
    decreases n,
{
    if n > 0 {
        lemma_published_active(mem, rows, bodies, txn, version, age_ms, (n - 1) as nat);
        let m = memtable_published(mem, rows, bodies, txn, version, age_ms, (n - 1) as nat);
        let e = memtable_entry(rows[n - 1].0, rows[n - 1].1, bodies[n - 1], txn, version);
        law_put_then_get(m.active, e, version);
        let p = m.put(e, crate::commit_steps::active_age(mem, m, age_ms));
        lemma_publish_keeps_keys(p.active, e.key, version);
    }
}

/// A row that no later row replaces is what readers find.
pub proof fn lemma_row_held(
    mem: MemTableSetView,
    rows: WriteRows,
    bodies: Seq<Seq<u8>>,
    txn: Seq<char>,
    version: u64,
    age_ms: u64,
    at: int,
    n: nat,
    snapshot: u64,
)
    requires
        mem.active.keys_distinct(),
        0 <= at < n <= rows.len(),
        mem.active.id + rows.len() <= u64::MAX,
        version != INVISIBLE,
        version <= snapshot,
        forall|j: int|
            at < j < rows.len() ==> memtable_key((#[trigger] rows[j]).0) != memtable_key(
                rows[at].0,
            ),
    ensures
        held(
            memtable_published(mem, rows, bodies, txn, version, age_ms, n),
            memtable_key(rows[at].0),
            snapshot,
        ) == Some(memtable_entry(rows[at].0, rows[at].1, bodies[at], txn, version)),
    decreases n,
{
    let m = memtable_published(mem, rows, bodies, txn, version, age_ms, (n - 1) as nat);
    let e = memtable_entry(rows[n - 1].0, rows[n - 1].1, bodies[n - 1], txn, version);
    let age = crate::commit_steps::active_age(mem, m, age_ms);
    if at == n - 1 {
        lemma_published_active(mem, rows, bodies, txn, version, age_ms, (n - 1) as nat);
        lemma_new_entry_held(m, e, age, snapshot);
    } else {
        lemma_row_held(
            mem,
            rows,
            bodies,
            txn,
            version,
            age_ms,
            at,
            (n - 1) as nat,
            snapshot,
        );
        assert(memtable_key(rows[n - 1].0) != memtable_key(rows[at].0));
        lemma_other_entry(m, e, version, age, memtable_key(rows[at].0), snapshot);
    }
}

/// A committed entry that enters the memtables is held from its version on.
proof fn lemma_new_entry_held(mems: MemTableSetView, e: MemEntryView, age_ms: u64, snapshot: u64)
    requires
        mems.active.keys_distinct(),
        mems.active.id < u64::MAX,
        entry_visible(e, snapshot),
    ensures
        held(mems.put(e, age_ms).publish(e.key, e.commit_version), e.key, snapshot) == Some(e),
{
    let stored = mems.active.put(e);
    law_put_then_get(mems.active, e, snapshot);
    crate::memtable::law_publish_keeps_visible_entries(
        stored,
        e.key,
        e.commit_version,
        e.key,
        snapshot,
    );
    let p = mems.put(e, age_ms);
    let n = p.publish(e.key, e.commit_version);
    if stored.due(mems.policy, age_ms) {
        assert(p.active.slot(e.key) is None);
        let k = n.flushing.len();
        assert(n.flushing[k - 1] == stored.publish(e.key, e.commit_version));
    }
}

/// Each body is the one of its row.
pub proof fn lemma_bodies(s: StoreView, reads: Seq<SpillReadView>, rows: WriteRows, n: nat)
    requires
        bodies_to_commit(s, reads, rows, n) is Ok,
    ensures
        ({
            let bodies = bodies_to_commit(s, reads, rows, n)->Ok_0;
            &&& bodies.len() == n
            &&& forall|i: int|
                0 <= i < n ==> body_to_commit(s, reads, (#[trigger] rows[i]).1) == Ok::<
                    Seq<u8>,
                    Failure,
                >(bodies[i])
        }),
    decreases n,
{
    if n > 0 {
        lemma_bodies(s, reads, rows, (n - 1) as nat);
    }
}

/// A read gives back what was committed: from the version of the commit on,
/// every staged write whose record no later write of the same transaction
/// names comes back with its body, whatever the indexes of the store say.
pub proof fn law_commit_is_read_back(
    c: CoordView,
    txn: Seq<char>,
    reads: Seq<SpillReadView>,
    now: i64,
    age_ms: u64,
    at: int,
    s: StoreView,
    snapshot: u64,
)
    requires
        active_txn(c.store, txn) is Ok,
        c.has_room(txn),
        c.mem.active.keys_distinct(),
        c.committed(txn, reads, now, age_ms).1 is Ok,
        c.committed(txn, reads, now, age_ms).1->Ok_0 != INVISIBLE,
        c.committed(txn, reads, now, age_ms).1->Ok_0 <= snapshot,
        0 <= at < write_rows(c.store, txn).len(),
        forall|j: int|
            at < j < write_rows(c.store, txn).len() ==> memtable_key(
                (#[trigger] write_rows(c.store, txn)[j]).0,
            ) != memtable_key(write_rows(c.store, txn)[at].0),
    ensures
        ({
            let (n, v) = c.committed(txn, reads, now, age_ms);
            let (key, w) = write_rows(c.store, txn)[at];
            &&& lookup(n.mem, s, memtable_key(key), snapshot) matches LookupView::Answer(Some(r))
                && body_to_commit(c.store, reads, w) == Ok::<Seq<u8>, Failure>(r.body)
                && r.commit_version == v->Ok_0 && r.txn_id == txn && r.deleted == w.deleted
                && r.content_type == w.content_type && r.user_meta == w.user_meta
        }),
{
    let t = c.store.txns[txn];
    let owned = CoordView { store: c.store.with_status(txn, TxnStatus::Committing), ..c };
    let rows = write_rows(c.store, txn);
    assert(write_rows(owned.store, txn) == rows);
    lemma_same_bodies(c.store, owned.store, reads, rows, rows.len());
    lemma_bodies(c.store, reads, rows, rows.len());
    let bodies = bodies_to_commit(c.store, reads, rows, rows.len())->Ok_0;
    let (n, r) = c.committed(txn, reads, now, age_ms);
    let version = r->Ok_0;
    assert(n.mem == memtable_published(c.mem, rows, bodies, txn, version, age_ms, rows.len()));
    lemma_row_held(c.mem, rows, bodies, txn, version, age_ms, at, rows.len(), snapshot);
    assert(body_to_commit(c.store, reads, rows[at].1) == Ok::<Seq<u8>, Failure>(bodies[at]));
}

} // verus!
