//! Laws of the transaction coordinator.
//!
//! They are stated over the steps that [`crate::coordinator::TxnCoordinator`]
//! implements.

use crate::cleanup::{lemma_rows_dropped, lemma_spills_dropped};
use crate::commit_steps::{
    active_txn, all_published, bodies_to_commit, chain_has_own, commit_updates, first_conflict,
    max_alloc, memtable_published, reported_version, shared_version, staged_body, write_rows,
    SPILL_THRESHOLD, CoordView, Failure, SpillReadView,
};
use crate::store::StoreView;
use crate::store_chains::{bulk_result, chain_at, Chains};
use crate::store_laws::{
    chains_ascending, chains_bounded, law_bulk_append_extends_named_chains,
    law_bulk_append_keeps_chains_ascending, law_newest_entry_is_visible, lemma_push_keeps_reads,
    log_bounded, newest_is_own, pins_positive, updates_key, updates_of,
};
use crate::table::{lemma_finite_listing, lemma_listed, rows_map, under};
use crate::text::{lemma_text_leq, sorted_texts, text_leq};
use crate::txn_state::{TxnStateRecordView, WriteSetEntryView};
use crate::types::{ErrorKind, TxnStatus};
use crate::version_chain::{latest_version, visible_entry};
use vstd::prelude::*;

verus! {

// ----- what every operation keeps -----

/// The transaction has begun and not ended.
pub open spec fn running(t: TxnStateRecordView) -> bool {
    t.status == TxnStatus::Active || t.status == TxnStatus::Committing
}

/// The running transactions that read at `snapshot`.
pub open spec fn running_at(s: StoreView, snapshot: u64) -> Set<Seq<char>> {
    s.txns.dom().filter(
        |t: Seq<char>| running(s.txns[t]) && s.txns[t].snapshot_version == snapshot,
    )
}

/// Every snapshot is pinned at least once per running transaction that reads
/// at it.
pub open spec fn pins_cover(s: StoreView) -> bool {
    &&& s.txns.dom().finite()
    &&& forall|snapshot: u64| #[trigger] running_at(s, snapshot).len() <= s.pins(snapshot)
}

/// Every staged write is stored under the key that it names.
pub open spec fn writes_keyed(s: StoreView) -> bool {
    forall|k: (Seq<char>, Seq<char>)| #[trigger]
        s.writes.contains_key(k) ==> s.writes[k].backend_key == k.1
}

/// No transaction reads at a version that does not exist yet.
pub open spec fn snapshots_exist(s: StoreView) -> bool {
    forall|t: Seq<char>| #[trigger]
        s.txns.contains_key(t) ==> s.txns[t].snapshot_version <= s.global_version
}

/// An active transaction has no versions allocated.
pub open spec fn active_unallocated(s: StoreView) -> bool {
    forall|t: Seq<char>| #[trigger]
        s.txns.contains_key(t) && s.txns[t].status == TxnStatus::Active
            ==> s.txns[t].alloc_versions.len() == 0
}

/// No transaction names a key twice among its writes.
pub open spec fn write_keys_distinct(s: StoreView) -> bool {
    forall|t: Seq<char>| #[trigger]
        s.txns.contains_key(t) ==> s.txns[t].write_keys.no_duplicates()
}

/// What holds of the store between operations.
pub open spec fn sound(s: StoreView) -> bool {
    &&& chains_ascending(s.chains)
    &&& chains_bounded(s.chains, s.global_version)
    &&& log_bounded(s)
    &&& pins_positive(s)
    &&& pins_cover(s)
    &&& writes_keyed(s)
    &&& snapshots_exist(s)
    &&& active_unallocated(s)
    &&& write_keys_distinct(s)
}

/// An empty store is sound.
pub proof fn law_empty_store_is_sound()
    ensures
        sound(StoreView::empty()),
{
    let s = StoreView::empty();
    assert forall|snapshot: u64| #[trigger] running_at(s, snapshot).len() <= s.pins(snapshot) by {
        assert(running_at(s, snapshot) =~= Set::empty());
    }
}

/// A changed state of one transaction that stays running, or was not running
/// and is not.
pub proof fn lemma_same_running(s: StoreView, n: StoreView, txn: Seq<char>)
    requires
        pins_cover(s),
        s.txns.contains_key(txn),
        n.snapshots == s.snapshots,
        n.txns == s.txns.insert(txn, n.txns[txn]),
        running(n.txns[txn]) ==> running(s.txns[txn]),
        n.txns[txn].snapshot_version == s.txns[txn].snapshot_version,
    ensures
        pins_cover(n),
{
    assert forall|snapshot: u64| #[trigger] running_at(n, snapshot).len() <= n.pins(snapshot) by {
        assert(running_at(n, snapshot).subset_of(running_at(s, snapshot)));
        vstd::set_lib::lemma_len_subset(running_at(n, snapshot), running_at(s, snapshot));
        assert(n.pins(snapshot) == s.pins(snapshot));
    }
}

/// A running transaction ends and releases its pin.
pub proof fn lemma_ended(s: StoreView, n: StoreView, txn: Seq<char>)
    requires
        pins_cover(s),
        pins_positive(s),
        s.txns.contains_key(txn),
        running(s.txns[txn]),
        n.snapshots == s.unpin(s.txns[txn].snapshot_version).snapshots,
        n.txns == s.txns.insert(txn, n.txns[txn]),
        !running(n.txns[txn]),
    ensures
        pins_cover(n),
        pins_positive(n),
{
    let mine = s.txns[txn].snapshot_version;
    assert forall|snapshot: u64| #[trigger] running_at(n, snapshot).len() <= n.pins(snapshot) by {
        if snapshot == mine {
            assert(running_at(s, mine).contains(txn));
            assert(running_at(n, mine) =~= running_at(s, mine).remove(txn));
            assert(running_at(s, mine).len() >= 1);
        } else {
            assert(running_at(n, snapshot) =~= running_at(s, snapshot));
        }
    }
}

/// Beginning a transaction keeps the store sound.
pub proof fn law_begin_keeps_soundness(
    c: CoordView,
    txn: Seq<char>,
    idempotency_key: Option<Seq<char>>,
    now: i64,
)
    requires
        sound(c.store),
        c.store.pins(c.store.global_version) < u64::MAX,
        c.store.last_wal_seq < u64::MAX,
    ensures
        sound(c.begun(txn, idempotency_key, now).0.store),
{
    let s = c.store;
    let n = c.begun(txn, idempotency_key, now).0.store;
    let snap = s.global_version;
    assert forall|snapshot: u64| #[trigger] running_at(n, snapshot).len() <= n.pins(snapshot) by {
        let a = running_at(s, snapshot);
        let b = running_at(n, snapshot);
        if c.locks.by_txn.contains_key(txn) {
            assert(b.subset_of(a));
            vstd::set_lib::lemma_len_subset(b, a);
        } else if snapshot == snap {
            assert(b.subset_of(a.insert(txn)));
            vstd::set_lib::lemma_len_subset(b, a.insert(txn));
        } else {
            assert(b.subset_of(a));
            vstd::set_lib::lemma_len_subset(b, a);
        }
    }
}

/// A transaction that began reads at a pinned snapshot, the current version.
pub proof fn law_begin_pins_the_current_version(
    c: CoordView,
    txn: Seq<char>,
    idempotency_key: Option<Seq<char>>,
    now: i64,
)
    requires
        c.begun(txn, idempotency_key, now).1 is Ok,
        c.store.pins(c.store.global_version) < u64::MAX,
    ensures
        ({
            let n = c.begun(txn, idempotency_key, now).0;
            &&& n.store.txns[txn].status == TxnStatus::Active
            &&& n.store.txns[txn].snapshot_version == c.store.global_version
            &&& n.store.snapshots.contains_key(c.store.global_version)
            &&& n.store.pins(c.store.global_version) == c.store.pins(c.store.global_version) + 1
            &&& n.locks.by_txn.contains_key(txn)
        }),
{
}

/// Staging a write keeps the store sound.
pub proof fn law_stage_keeps_soundness(
    c: CoordView,
    txn: Seq<char>,
    body: Seq<u8>,
    e: WriteSetEntryView,
    now: i64,
)
    requires
        sound(c.store),
        active_txn(c.store, txn) is Ok,
        c.store.last_wal_seq < u64::MAX,
    ensures
        sound(c.staged(txn, body, e, now).store),
{
    let n = c.staged(txn, body, e, now).store;
    assert(n.txns =~= c.store.txns.insert(txn, n.txns[txn]));
    lemma_same_running(c.store, n, txn);
}

/// Noting a read keeps the store sound.
pub proof fn law_read_keeps_soundness(
    c: CoordView,
    txn: Seq<char>,
    key: Seq<char>,
    version: u64,
    etag: Seq<char>,
)
    requires
        sound(c.store),
        active_txn(c.store, txn) is Ok,
    ensures
        sound(c.noted_read(txn, key, version, etag).store),
{
    let n = c.noted_read(txn, key, version, etag).store;
    assert(n.txns =~= c.store.txns.insert(txn, n.txns[txn]));
    lemma_same_running(c.store, n, txn);
}

/// A heartbeat keeps the store sound.
pub proof fn law_heartbeat_keeps_soundness(c: CoordView, txn: Seq<char>, now: i64)
    requires
        sound(c.store),
        active_txn(c.store, txn) is Ok,
    ensures
        sound(c.alive(txn, now).store),
{
    let n = c.alive(txn, now).store;
    lemma_same_running(c.store, n, txn);
}

/// Aborting a transaction keeps the store sound.
pub proof fn law_abort_keeps_soundness(c: CoordView, txn: Seq<char>)
    requires
        sound(c.store),
        c.store.last_wal_seq < u64::MAX,
    ensures
        sound(c.aborted(txn).0.store),
{
    if c.store.txns.contains_key(txn) && c.store.txns[txn].status == TxnStatus::Active {
        let rows = write_rows(c.store, txn);
        let m = CoordView {
            store: c.store.with_status(txn, TxnStatus::Aborted),
            ..c
        }.cleanup();
        lemma_rows_dropped(m, rows, txn, rows.len());
        let n = c.aborted(txn).0.store;
        assert(n.txns =~= c.store.txns.insert(txn, n.txns[txn]));
        lemma_ended(c.store, n, txn);
    }
}

// ----- commit -----

/// Sorting keeps the texts.
pub proof fn lemma_sorted_contains(s: Seq<Seq<char>>, k: Seq<char>)
    ensures
        sorted_texts(s).contains(k) <==> s.contains(k),
        sorted_texts(s).len() == s.len(),
{
    lemma_text_leq();
    s.lemma_sort_by_ensures(text_leq());
    s.to_multiset_ensures();
    sorted_texts(s).to_multiset_ensures();
    assert(s.contains(k) <==> s.to_multiset().contains(k));
    assert(sorted_texts(s).contains(k) <==> sorted_texts(s).to_multiset().contains(k));
}

proof fn lemma_commit_updates(
    ws: Map<Seq<char>, WriteSetEntryView>,
    keys: Seq<Seq<char>>,
    txn: Seq<char>,
    version: u64,
    snapshot: u64,
    now: i64,
    key: Seq<char>,
)
    ensures
        ({
            let u = commit_updates(ws, keys, txn, version, snapshot, now);
            &&& updates_of(u, txn, version)
            &&& updates_key(u, 0, key) <==> keys.contains(key)
        }),
{
    let u = commit_updates(ws, keys, txn, version, snapshot, now);
    if keys.contains(key) {
        let i = choose|i: int| 0 <= i < keys.len() && keys[i] == key;
        assert(u[i].0 == key);
    }
    if updates_key(u, 0, key) {
        let i = choose|i: int| 0 <= i < u.len() && (#[trigger] u[i]).0 == key;
        assert(keys[i] == key);
    }
}

proof fn lemma_max_shared(keys: Seq<Seq<char>>, version: u64, n: nat)
    requires
        n <= keys.len(),
    ensures
        max_alloc(shared_version(keys, version), n) == if n == 0 {
            0
        } else {
            version
        },
    decreases n,
{
    if n > 0 {
        lemma_max_shared(keys, version, (n - 1) as nat);
    }
}

/// What a successful commit did.
pub open spec fn commit_took(
    c: CoordView,
    n: CoordView,
    txn: Seq<char>,
    version: u64,
) -> bool {
    let t = c.store.txns[txn];
    &&& n.store.txns.contains_key(txn)
    &&& n.store.txns == c.store.txns.insert(txn, n.store.txns[txn])
    &&& n.store.txns[txn].status == TxnStatus::Committed
    &&& n.store.txns[txn].snapshot_version == t.snapshot_version
    &&& n.store.txns[txn].write_keys == t.write_keys
    &&& reported_version(n.store.txns[txn]) == version
    &&& n.store.snapshots == c.store.unpin(t.snapshot_version).snapshots
    &&& t.write_keys.len() == 0 ==> version == t.snapshot_version && n.store.global_version
        == c.store.global_version
    &&& t.write_keys.len() > 0 ==> version == c.store.global_version + 1
        && n.store.global_version == version
    &&& forall|k: Seq<char>|
        {
            let a = chain_at(c.store.chains, k).entries;
            let b = #[trigger] chain_at(n.store.chains, k).entries;
            &&& !t.write_keys.contains(k) ==> b == a
            &&& t.write_keys.contains(k) ==> newest_is_own(b, txn, version)
            &&& b == a || b == a.push(b.last())
        }
}

proof fn lemma_commit_took(
    c: CoordView,
    txn: Seq<char>,
    reads: Seq<SpillReadView>,
    now: i64,
    age_ms: u64,
)
    requires
        c.store.txns.contains_key(txn),
        c.store.txns[txn].status == TxnStatus::Active,
        c.committed(txn, reads, now, age_ms).1 is Ok,
        c.has_room(txn),
    ensures
        commit_took(
            c,
            c.committed(txn, reads, now, age_ms).0,
            txn,
            c.committed(txn, reads, now, age_ms).1->Ok_0,
        ),
        c.committed(txn, reads, now, age_ms).0.store.writes.dom().subset_of(c.store.writes.dom()),
        forall|k: (Seq<char>, Seq<char>)| #[trigger]
            c.committed(txn, reads, now, age_ms).0.store.writes.contains_key(k) ==> c.committed(
                txn,
                reads,
                now,
                age_ms,
            ).0.store.writes[k] == c.store.writes[k],
        log_bounded(c.store) ==> log_bounded(c.committed(txn, reads, now, age_ms).0.store),
        chains_ascending(c.store.chains) ==> chains_ascending(
            c.committed(txn, reads, now, age_ms).0.store.chains,
        ),
{
    let t = c.store.txns[txn];
    let owned = CoordView { store: c.store.with_status(txn, TxnStatus::Committing), ..c };
    let rows = write_rows(owned.store, txn);
    assert(owned.store.writes == c.store.writes);
    let bodies = bodies_to_commit(owned.store, reads, rows, rows.len())->Ok_0;
    let keys = sorted_texts(t.write_keys);
    lemma_sorted_contains(t.write_keys, Seq::empty());
    let version = if keys.len() == 0 {
        t.snapshot_version
    } else {
        (owned.store.global_version + 1) as u64
    };
    let allocated = if keys.len() == 0 {
        owned
    } else {
        CoordView { store: StoreView { global_version: version, ..owned.store }, ..owned }
    };
    let p = allocated.prepared(txn, keys, version);
    let ws = p.store.write_set(txn);
    let updates = commit_updates(ws, keys, txn, version, t.snapshot_version, now);
    let chains = bulk_result(p.store.chains, updates)->Ok_0;
    let vs = crate::commit_steps::commit_versions(ws, keys, txn, version, now);
    let s = StoreView {
        chains,
        versions: crate::store::insert_all(p.store.versions, vs, vs.len()),
        ..p.store
    };
    let s2 = s.log(
        crate::wal::WalRecordView::Committed { txn_id: txn, commit_version: version },
    ).log(
        crate::wal::WalRecordView::CommitResult {
            txn_id: txn,
            commit_version: version,
            success: true,
        },
    ).with_status(txn, TxnStatus::Committed).unpin(t.snapshot_version);
    let d = CoordView {
        store: s2,
        locks: p.locks.committed(txn, version, now),
        mem: memtable_published(p.mem, rows, bodies, txn, version, age_ms, rows.len()),
        events: p.events.push(crate::commit_steps::commit_event(ws, keys, txn, version, now)),
        ..p
    };
    lemma_spills_dropped(d.cleanup(), rows, txn, rows.len());
    let n = c.committed(txn, reads, now, age_ms).0;
    assert(n == d.cleaned(d.cleanup().spills_dropped(rows, txn, rows.len())));
    lemma_max_shared(keys, version, keys.len());
    assert(n.store.txns =~= c.store.txns.insert(txn, n.store.txns[txn]));
    assert(n.store.txns[txn].alloc_versions == shared_version(keys, version));
    assert(n.store.txns[txn].alloc_versions.len() == keys.len());
    assert forall|k: Seq<char>|
        {
            let a = chain_at(c.store.chains, k).entries;
            let b = #[trigger] chain_at(n.store.chains, k).entries;
            &&& !t.write_keys.contains(k) ==> b == a
            &&& t.write_keys.contains(k) ==> newest_is_own(b, txn, version)
            &&& b == a || b == a.push(b.last())
        } by {
        lemma_commit_updates(ws, keys, txn, version, t.snapshot_version, now, k);
        lemma_sorted_contains(t.write_keys, k);
        law_bulk_append_extends_named_chains(p.store.chains, updates, txn, version, k);
    }
    if chains_ascending(c.store.chains) {
        law_bulk_append_keeps_chains_ascending(p.store.chains, updates);
    }
}

/// A successful commit gives every key that the transaction wrote one and the
/// same new version, the next one of the store, and touches no other key. A
/// transaction without writes commits at its snapshot and changes no chain.
pub proof fn law_commit_is_atomic_at_one_version(
    c: CoordView,
    txn: Seq<char>,
    reads: Seq<SpillReadView>,
    now: i64,
    age_ms: u64,
)
    requires
        active_txn(c.store, txn) is Ok,
        c.has_room(txn),
        c.committed(txn, reads, now, age_ms).1 is Ok,
    ensures
        commit_took(
            c,
            c.committed(txn, reads, now, age_ms).0,
            txn,
            c.committed(txn, reads, now, age_ms).1->Ok_0,
        ),
{
    lemma_commit_took(c, txn, reads, now, age_ms);
}

/// Readers at snapshots before the commit see what they saw; readers at or
/// after it see the new version of every key that was written.
pub proof fn law_commit_is_seen_from_its_version_on(
    c: CoordView,
    txn: Seq<char>,
    reads: Seq<SpillReadView>,
    now: i64,
    age_ms: u64,
    key: Seq<char>,
    snapshot: u64,
)
    requires
        active_txn(c.store, txn) is Ok,
        c.has_room(txn),
        c.committed(txn, reads, now, age_ms).1 is Ok,
        c.store.txns[txn].write_keys.contains(key),
    ensures
        ({
            let (n, r) = c.committed(txn, reads, now, age_ms);
            let a = visible_entry(chain_at(c.store.chains, key).entries, snapshot);
            let b = visible_entry(chain_at(n.store.chains, key).entries, snapshot);
            &&& snapshot < r->Ok_0 ==> b == a
            &&& snapshot >= r->Ok_0 ==> (b matches Some(e) && e.txn_id == txn && e.commit_version
                == r->Ok_0)
        }),
{
    lemma_commit_took(c, txn, reads, now, age_ms);
    let (n, r) = c.committed(txn, reads, now, age_ms);
    let v = r->Ok_0;
    let a = chain_at(c.store.chains, key).entries;
    let b = chain_at(n.store.chains, key).entries;
    assert(newest_is_own(b, txn, v));
    if snapshot < v {
        if b != a {
            lemma_push_keeps_reads(a, b.last(), snapshot);
        }
    } else {
        law_newest_entry_is_visible(b, snapshot);
    }
}

/// A commit that was answered is answered alike ever after, and asking again
/// changes nothing.
pub proof fn law_commit_replays(
    c: CoordView,
    txn: Seq<char>,
    reads: Seq<SpillReadView>,
    now: i64,
    age_ms: u64,
    reads2: Seq<SpillReadView>,
    now2: i64,
    age2: u64,
)
    requires
        c.has_room(txn),
        c.committed(txn, reads, now, age_ms).1 is Ok,
    ensures
        ({
            let (n, r) = c.committed(txn, reads, now, age_ms);
            n.committed(txn, reads2, now2, age2) == (n, r)
        }),
{
    if c.store.txns[txn].status == TxnStatus::Active {
        lemma_commit_took(c, txn, reads, now, age_ms);
    }
}

/// A commit that fails leaves chains, versions, memtables and events alone.
pub proof fn law_failed_commit_publishes_nothing(
    c: CoordView,
    txn: Seq<char>,
    reads: Seq<SpillReadView>,
    now: i64,
    age_ms: u64,
)
    requires
        c.committed(txn, reads, now, age_ms).1 is Err,
    ensures
        ({
            let n = c.committed(txn, reads, now, age_ms).0;
            &&& n.store.chains == c.store.chains
            &&& n.store.versions == c.store.versions
            &&& n.store.records == c.store.records
            &&& n.mem == c.mem
            &&& n.events == c.events
        }),
{
}

/// In a sound store, an active transaction whose commit fails is aborted: it
/// holds no locks, its pin is released, and it can never commit.
pub proof fn law_failed_commit_aborts(
    c: CoordView,
    txn: Seq<char>,
    reads: Seq<SpillReadView>,
    now: i64,
    age_ms: u64,
)
    requires
        sound(c.store),
        active_txn(c.store, txn) is Ok,
        c.has_room(txn),
        c.committed(txn, reads, now, age_ms).1 is Err,
    ensures
        ({
            let n = c.committed(txn, reads, now, age_ms).0;
            &&& n.store.txns == c.store.txns.insert(txn, n.store.txns[txn])
            &&& n.store.txns[txn].status == TxnStatus::Aborted
            &&& n.locks == c.locks.aborted(txn)
            &&& n.store.snapshots == c.store.unpin(
                c.store.txns[txn].snapshot_version,
            ).snapshots
        }),
{
    let t = c.store.txns[txn];
    let owned = CoordView { store: c.store.with_status(txn, TxnStatus::Committing), ..c };
    let (m, r) = owned.commit_owned(txn, reads, now, age_ms);
    let n = c.committed(txn, reads, now, age_ms).0;
    let rows = write_rows(owned.store, txn);
    assert(n.store.txns =~= c.store.txns.insert(txn, n.store.txns[txn]));
    lemma_not_published_yet(c, txn, reads, now, age_ms);
}

/// A transaction on its way to commit has published nothing before its chain
/// append.
proof fn lemma_not_published_yet(
    c: CoordView,
    txn: Seq<char>,
    reads: Seq<SpillReadView>,
    now: i64,
    age_ms: u64,
)
    requires
        sound(c.store),
        active_txn(c.store, txn) is Ok,
        c.has_room(txn),
    ensures
        ({
            let owned = CoordView { store: c.store.with_status(txn, TxnStatus::Committing), ..c };
            let (m, r) = owned.commit_owned(txn, reads, now, age_ms);
            r is Err && m.store.txns[txn].status == TxnStatus::Committing ==> !all_published(
                m.store,
                txn,
            )
        }),
{
    let t = c.store.txns[txn];
    let owned = CoordView { store: c.store.with_status(txn, TxnStatus::Committing), ..c };
    let (m, r) = owned.commit_owned(txn, reads, now, age_ms);
    let keys = sorted_texts(t.write_keys);
    let alloc = m.store.txns[txn].alloc_versions;
    if r is Err && m.store.txns[txn].status == TxnStatus::Committing && alloc.len() > 0 {
        let version = (owned.store.global_version + 1) as u64;
        assert(alloc == shared_version(keys, version));
        assert(alloc[0] == (keys[0], version));
        let e = chain_at(m.store.chains, keys[0]).entries;
        assert(e == chain_at(c.store.chains, keys[0]).entries);
        if chain_has_own(e, txn, version) {
            let i = choose|i: int|
                0 <= i < e.len() && (#[trigger] e[i]).txn_id == txn && e[i].commit_version
                    == version;
            assert(chain_at(c.store.chains, keys[0]).entries[i].commit_version
                <= c.store.global_version);
        }
    }
}

/// Committing a transaction keeps the store sound.
pub proof fn law_commit_keeps_soundness(
    c: CoordView,
    txn: Seq<char>,
    reads: Seq<SpillReadView>,
    now: i64,
    age_ms: u64,
)
    requires
        sound(c.store),
        c.has_room(txn),
    ensures
        sound(c.committed(txn, reads, now, age_ms).0.store),
{
    if active_txn(c.store, txn) is Ok {
        let t = c.store.txns[txn];
        let (n, r) = c.committed(txn, reads, now, age_ms);
        let s = n.store;
        if r is Ok {
            lemma_commit_took(c, txn, reads, now, age_ms);
            lemma_ended(c.store, s, txn);
            let v = r->Ok_0;
            assert forall|k: Seq<char>, i: int|
                0 <= i < chain_at(s.chains, k).entries.len() implies (#[trigger] chain_at(
                s.chains,
                k,
            ).entries[i]).commit_version <= s.global_version by {
                let a = chain_at(c.store.chains, k).entries;
                let b = chain_at(s.chains, k).entries;
                assert(b == a || b == a.push(b.last()));
                if i < a.len() {
                    assert(b[i] == a[i]);
                    assert(chain_at(c.store.chains, k).entries[i].commit_version
                        <= c.store.global_version);
                } else {
                    assert(t.write_keys.contains(k));
                    assert(b[i] == b.last());
                }
            }
        } else {
            law_failed_commit_publishes_nothing(c, txn, reads, now, age_ms);
            law_failed_commit_aborts(c, txn, reads, now, age_ms);
            lemma_ended(c.store, s, txn);
            lemma_failed_commit_rest(c, txn, reads, now, age_ms);
        }
    }
}

/// A failed commit takes no staged write away and only appends to the log.
proof fn lemma_failed_commit_rest(
    c: CoordView,
    txn: Seq<char>,
    reads: Seq<SpillReadView>,
    now: i64,
    age_ms: u64,
)
    requires
        active_txn(c.store, txn) is Ok,
        c.has_room(txn),
        c.committed(txn, reads, now, age_ms).1 is Err,
    ensures
        ({
            let n = c.committed(txn, reads, now, age_ms).0;
            &&& n.store.writes == c.store.writes
            &&& n.store.global_version >= c.store.global_version
            &&& log_bounded(c.store) ==> log_bounded(n.store)
            &&& n.store.txns[txn].snapshot_version == c.store.txns[txn].snapshot_version
            &&& n.store.txns[txn].write_keys == c.store.txns[txn].write_keys
        }),
{
}

/// A transaction that was aborted cannot commit, and trying changes nothing.
pub proof fn law_aborted_txn_never_commits(
    c: CoordView,
    txn: Seq<char>,
    reads: Seq<SpillReadView>,
    now: i64,
    age_ms: u64,
)
    requires
        c.store.txns.contains_key(txn),
        c.store.txns[txn].status == TxnStatus::Aborted,
    ensures
        c.committed(txn, reads, now, age_ms).0 == c,
        c.committed(txn, reads, now, age_ms).1 matches Err(e) && e.0 == ErrorKind::Conflict,
{
}

/// A transaction that committed cannot be aborted, and trying changes nothing.
pub proof fn law_committed_txn_never_aborts(c: CoordView, txn: Seq<char>)
    requires
        c.store.txns.contains_key(txn),
        c.store.txns[txn].status == TxnStatus::Committed,
    ensures
        c.aborted(txn).0 == c,
        c.aborted(txn).1 is Err,
{
}

/// An abort may be repeated: the second one changes nothing.
pub proof fn law_abort_repeats(c: CoordView, txn: Seq<char>)
    requires
        c.aborted(txn).1 is Ok,
    ensures
        c.aborted(txn).0.aborted(txn) == (c.aborted(txn).0, Ok::<(), Failure>(())),
        c.aborted(txn).0.store.txns[txn].status == TxnStatus::Aborted,
{
    if c.store.txns[txn].status == TxnStatus::Active {
        let rows = write_rows(c.store, txn);
        let m = CoordView {
            store: c.store.with_status(txn, TxnStatus::Aborted),
            ..c
        }.cleanup();
        lemma_rows_dropped(m, rows, txn, rows.len());
    }
}

/// An abort publishes nothing, drops every staged write of the transaction,
/// keeps those of others, and releases its locks and its pin.
pub proof fn law_abort_leaves_nothing(c: CoordView, txn: Seq<char>)
    requires
        active_txn(c.store, txn) is Ok,
        writes_keyed(c.store),
        c.store.write_set(txn).dom().finite(),
    ensures
        ({
            let n = c.aborted(txn).0;
            &&& c.aborted(txn).1 is Ok
            &&& n.store.chains == c.store.chains
            &&& n.store.versions == c.store.versions
            &&& n.mem == c.mem
            &&& n.locks == c.locks.aborted(txn)
            &&& n.store.snapshots == c.store.unpin(
                c.store.txns[txn].snapshot_version,
            ).snapshots
            &&& forall|k: Seq<char>| !#[trigger] n.store.writes.contains_key((txn, k))
            &&& forall|k: (Seq<char>, Seq<char>)|
                k.0 != txn && #[trigger] c.store.writes.contains_key(k)
                    ==> n.store.writes.contains_key(k) && n.store.writes[k] == c.store.writes[k]
        }),
{
    let m = CoordView { store: c.store.with_status(txn, TxnStatus::Aborted), ..c }.cleanup();
    let rows = write_rows(c.store, txn);
    lemma_finite_listing::<String, WriteSetEntryView>(c.store.write_set(txn));
    lemma_rows_dropped(m, rows, txn, rows.len());
    let n = c.aborted(txn).0;
    assert(m.store.writes == c.store.writes);
    assert forall|k: (Seq<char>, Seq<char>)|
        k.0 != txn && #[trigger] c.store.writes.contains_key(
            k,
        ) implies n.store.writes.contains_key(k) && n.store.writes[k] == c.store.writes[k] by {
        assert(m.store.writes.contains_key(k));
    }
    assert forall|k: Seq<char>| !#[trigger] n.store.writes.contains_key((txn, k)) by {
        if n.store.writes.contains_key((txn, k)) {
            assert(c.store.writes.contains_key((txn, k)));
            assert(c.store.write_set(txn).contains_key(k));
            assert(rows_map(rows).contains_key(k));
            let i = choose|i: int| 0 <= i < rows.len() && (#[trigger] rows[i]).0 == k;
            lemma_listed::<String, WriteSetEntryView>(rows, i);
            assert(rows[i].1 == c.store.writes[(txn, k)]);
            assert(rows[i].1.backend_key == k);
        }
    }
}

/// A transaction that wrote a key of which a newer version than its snapshot
/// exists is refused: of two writers of a key with the same snapshot only the
/// first to commit succeeds.
pub proof fn law_stale_write_cannot_commit(
    c: CoordView,
    txn: Seq<char>,
    reads: Seq<SpillReadView>,
    now: i64,
    age_ms: u64,
    key: Seq<char>,
)
    requires
        active_txn(c.store, txn) is Ok,
        c.store.txns[txn].write_keys.contains(key),
        chain_at(c.store.chains, key).entries.len() > 0,
        latest_version(chain_at(c.store.chains, key).entries)
            > c.store.txns[txn].snapshot_version,
    ensures
        c.committed(txn, reads, now, age_ms).1 is Err,
{
    let t = c.store.txns[txn];
    let keys = sorted_texts(t.write_keys);
    lemma_sorted_contains(t.write_keys, key);
    let i = choose|i: int| 0 <= i < keys.len() && keys[i] == key;
    lemma_conflict_found(c.store.chains, keys, t.snapshot_version, 0, i);
}

proof fn lemma_conflict_found(
    chains: Chains,
    keys: Seq<Seq<char>>,
    snapshot: u64,
    from: int,
    at: int,
)
    requires
        0 <= from <= at < keys.len(),
        chain_at(chains, keys[at]).entries.len() > 0,
        latest_version(chain_at(chains, keys[at]).entries) > snapshot,
    ensures
        first_conflict(chains, keys, snapshot, from) is Some,
    decreases at - from,
{
    if from < at {
        lemma_conflict_found(chains, keys, snapshot, from + 1, at);
    }
}

/// Of two transactions that wrote the same key at the same snapshot, once one
/// has committed the other is refused.
pub proof fn law_first_committer_wins(
    c: CoordView,
    first: Seq<char>,
    second: Seq<char>,
    key: Seq<char>,
    reads: Seq<SpillReadView>,
    now: i64,
    age_ms: u64,
    reads2: Seq<SpillReadView>,
    now2: i64,
    age2: u64,
)
    requires
        sound(c.store),
        first != second,
        active_txn(c.store, first) is Ok,
        active_txn(c.store, second) is Ok,
        c.store.txns[first].write_keys.contains(key),
        c.store.txns[second].write_keys.contains(key),
        c.has_room(first),
        c.committed(first, reads, now, age_ms).1 is Ok,
    ensures
        c.committed(first, reads, now, age_ms).0.committed(second, reads2, now2, age2).1 is Err,
{
    lemma_commit_took(c, first, reads, now, age_ms);
    let (n, r) = c.committed(first, reads, now, age_ms);
    assert(newest_is_own(chain_at(n.store.chains, key).entries, first, r->Ok_0));
    assert(n.store.txns[second] == c.store.txns[second]);
    assert(c.store.txns[second].snapshot_version <= c.store.global_version);
    law_stale_write_cannot_commit(n, second, reads2, now2, age2, key);
}

/// A transaction that a peer endangers is refused.
pub proof fn law_endangered_txn_cannot_commit(
    c: CoordView,
    txn: Seq<char>,
    reads: Seq<SpillReadView>,
    now: i64,
    age_ms: u64,
)
    requires
        active_txn(c.store, txn) is Ok,
        c.locks.danger(txn) is Some,
    ensures
        c.committed(txn, reads, now, age_ms).1 is Err,
{
}

/// A transaction reads its own writes: a staged body comes back as it was
/// staged, from the store or from its spill file.
pub proof fn law_staged_body_reads_back(
    c: CoordView,
    txn: Seq<char>,
    key: Seq<char>,
    body: Seq<u8>,
    content_type: Option<Seq<char>>,
    user_meta: Seq<(Seq<char>, Seq<char>)>,
    deleted: bool,
    now: i64,
)
    requires
        active_txn(c.store, txn) is Ok,
    ensures
        ({
            let e = c.staged_entry(txn, key, body, content_type, user_meta, deleted);
            let n = c.staged(txn, body, e, now);
            let handle = crate::commit_steps::spill_handle(txn, key);
            let file = SpillReadView { handle, content: Ok(body) };
            &&& body.len() <= SPILL_THRESHOLD ==> staged_body(
                n.store,
                Seq::empty(),
                n.store.write_set(txn),
                key,
            ) == Ok::<Option<Seq<u8>>, Failure>(Some(body))
            &&& body.len() > SPILL_THRESHOLD ==> staged_body(
                n.store,
                seq![file],
                n.store.write_set(txn),
                key,
            ) == Ok::<Option<Seq<u8>>, Failure>(Some(body))
        }),
{
    let e = c.staged_entry(txn, key, body, content_type, user_meta, deleted);
    let n = c.staged(txn, body, e, now);
    assert(n.store.writes.contains_key((txn, key)));
    assert(n.store.write_set(txn).contains_key(key));
}

/// What one transaction stages stays out of the write sets of others.
pub proof fn law_staged_writes_are_private(
    c: CoordView,
    txn: Seq<char>,
    body: Seq<u8>,
    e: WriteSetEntryView,
    now: i64,
    other: Seq<char>,
)
    requires
        other != txn,
    ensures
        ({
            let n = c.staged(txn, body, e, now);
            &&& n.store.write_set(other) == c.store.write_set(other)
            &&& n.store.chains == c.store.chains
            &&& n.store.versions == c.store.versions
            &&& n.mem == c.mem
        }),
{
    let n = c.staged(txn, body, e, now);
    assert(n.store.write_set(other) =~= c.store.write_set(other));
}

/// The global version never goes back.
pub proof fn law_global_version_never_goes_back(
    c: CoordView,
    txn: Seq<char>,
    reads: Seq<SpillReadView>,
    now: i64,
    age_ms: u64,
)
    requires
        c.has_room(txn),
    ensures
        c.committed(txn, reads, now, age_ms).0.store.global_version >= c.store.global_version,
{
    if active_txn(c.store, txn) is Ok {
        if c.committed(txn, reads, now, age_ms).1 is Ok {
            lemma_commit_took(c, txn, reads, now, age_ms);
        } else {
            lemma_failed_commit_rest(c, txn, reads, now, age_ms);
        }
    }
}

} // verus!
