//! Laws of a commit, said of the staged writes: what every table holds of each
//! of them afterwards.

use crate::cleanup::{law_dropping_spills_keeps_the_rest, lemma_spills_dropped, points_to};
use crate::commit_laws::{lemma_bodies, lemma_same_bodies, lemma_sort_distinct, lemma_sorted};
use crate::commit_steps::{
    bodies_to_commit, commit_event, commit_updates, commit_versions, first_conflict,
    memtable_published, shared_version, write_rows, CoordView, SpillReadView,
};
use crate::order::text_before;
use crate::store::{insert_all, StoreView};
use crate::store_chains::{
    apply_update, apply_updates, bulk_result, chain_at, sort_updates, ChainUpdate, Chains,
};
use crate::store_laws::lemma_sort_contains;
use crate::text::{lemma_text_leq, sorted_texts, text_leq};
use crate::txn_laws::{lemma_sorted_contains, sound};
use crate::txn_state::TxnStateRecordView;
use crate::types::{TxnStatus, Version};
use crate::version_chain::Chain;
use crate::wal::WalRecordView;
use vstd::prelude::*;

verus! {

/// Entries of the chain of a key, none without a chain.
pub open spec fn entries_at(chains: Chains, key: Seq<char>) -> Chain {
    if chains.contains_key(key) {
        chains[key].entries
    } else {
        Seq::empty()
    }
}

/// Inserting pairs with distinct keys stores each.
pub proof fn lemma_insert_distinct_pairs<K, V>(m: Map<K, V>, pairs: Seq<(K, V)>, n: nat)
    requires
        n <= pairs.len(),
        forall|i: int, j: int|
            0 <= i < j < pairs.len() ==> (#[trigger] pairs[i]).0 != (#[trigger] pairs[j]).0,
    ensures
        forall|i: int|
            0 <= i < n ==> insert_all(m, pairs, n).contains_key((#[trigger] pairs[i]).0)
                && insert_all(m, pairs, n)[pairs[i].0] == pairs[i].1,
    decreases n,
{
    if n > 0 {
        lemma_insert_distinct_pairs(m, pairs, (n - 1) as nat);
    }
}

/// Inserting pairs keeps what is under other keys.
pub proof fn lemma_insert_keeps_others<K, V>(m: Map<K, V>, pairs: Seq<(K, V)>, n: nat, k: K)
    requires
        n <= pairs.len(),
        forall|i: int| 0 <= i < n ==> (#[trigger] pairs[i]).0 != k,
    ensures
        insert_all(m, pairs, n).contains_key(k) <==> m.contains_key(k),
        m.contains_key(k) ==> insert_all(m, pairs, n)[k] == m[k],
    decreases n,
{
    if n > 0 {
        lemma_insert_keeps_others(m, pairs, (n - 1) as nat, k);
    }
}

/// Updates keep the chains of other keys.
pub proof fn lemma_updates_keep_others(chains: Chains, s: Seq<ChainUpdate>, i: int, k: Seq<char>)
    requires
        0 <= i <= s.len(),
        apply_updates(chains, s, i) is Ok,
        forall|j: int| i <= j < s.len() ==> (#[trigger] s[j]).0 != k,
    ensures
        ({
            let n = apply_updates(chains, s, i)->Ok_0;
            &&& n.contains_key(k) <==> chains.contains_key(k)
            &&& chains.contains_key(k) ==> n[k] == chains[k]
        }),
    decreases s.len() - i,
{
    if i < s.len() {
        lemma_updates_keep_others(apply_update(chains, s[i])->Ok_0, s, i + 1, k);
    }
}

/// Of updates of distinct keys, one that is newer than its chain becomes the
/// newest entry of it.
proof fn lemma_distinct_update_lands(chains: Chains, s: Seq<ChainUpdate>, i: int, at: int)
    requires
        0 <= i <= at < s.len(),
        crate::commit_laws::update_keys_distinct(s),
        apply_updates(chains, s, i) is Ok,
        ({
            let c = chain_at(chains, s[at].0).entries;
            c.len() > 0 ==> c.last().commit_version < s[at].1.commit_version
        }),
    ensures
        ({
            let n = apply_updates(chains, s, i)->Ok_0;
            &&& n.contains_key(s[at].0)
            &&& n[s[at].0].entries == chain_at(chains, s[at].0).entries.push(s[at].1)
        }),
    decreases at - i,
{
    let mid = apply_update(chains, s[i])->Ok_0;
    if i == at {
        assert forall|j: int| i + 1 <= j < s.len() implies (#[trigger] s[j]).0 != s[at].0 by {
            assert(s[at].0 != s[j].0);
        }
        lemma_updates_keep_others(mid, s, i + 1, s[at].0);
    } else {
        assert(s[i].0 != s[at].0);
        lemma_distinct_update_lands(mid, s, i + 1, at);
    }
}

/// The parts of a successful commit.
proof fn lemma_commit_parts(
    c: CoordView,
    txn: Seq<char>,
    reads: Seq<SpillReadView>,
    now: i64,
    age_ms: u64,
)
    requires
        c.store.txns.contains_key(txn),
        c.store.txns[txn].status == TxnStatus::Active,
        c.has_room(txn),
        c.committed(txn, reads, now, age_ms).1 is Ok,
    ensures
        ({
            let t = c.store.txns[txn];
            let (n, r) = c.committed(txn, reads, now, age_ms);
            let v = r->Ok_0;
            let keys = sorted_texts(t.write_keys);
            let ws = c.store.write_set(txn);
            let rows = write_rows(c.store, txn);
            let bodies = bodies_to_commit(c.store, reads, rows, rows.len());
            let vs = commit_versions(ws, keys, txn, v, now);
            let q = c.store.last_wal_seq;
            &&& v == if t.write_keys.len() == 0 {
                t.snapshot_version as int
            } else {
                c.store.global_version + 1
            }
            &&& bodies is Ok
            &&& c.locks.danger(txn) is None
            &&& first_conflict(c.store.chains, keys, t.snapshot_version, 0) is None
            &&& bulk_result(
                c.store.chains,
                commit_updates(ws, keys, txn, v, t.snapshot_version, now),
            ) == Ok::<Chains, (crate::types::ErrorKind, Seq<char>)>(n.store.chains)
            &&& n.store.versions == insert_all(c.store.versions, vs, vs.len())
            &&& n.store.last_wal_seq == q + 3
            &&& n.store.wal == c.store.wal.insert(
                (q + 1) as u64,
                WalRecordView::Committing { txn_id: txn, upload_keys: keys },
            ).insert(
                (q + 2) as u64,
                WalRecordView::Committed { txn_id: txn, commit_version: v },
            ).insert(
                (q + 3) as u64,
                WalRecordView::CommitResult { txn_id: txn, commit_version: v, success: true },
            )
            &&& n.store.txns == c.store.txns.insert(
                txn,
                TxnStateRecordView {
                    status: TxnStatus::Committed,
                    alloc_versions: shared_version(keys, v),
                    uploaded_keys: Seq::empty(),
                    ..t
                },
            )
            &&& n.store.global_version == if t.write_keys.len() == 0 {
                c.store.global_version
            } else {
                v
            }
            &&& n.store.snapshots == c.store.unpin(t.snapshot_version).snapshots
            &&& n.store.records == c.store.records
            &&& n.store.record_versions == c.store.record_versions
            &&& n.store.chunks == c.store.chunks
            &&& n.store.schemas == c.store.schemas
            &&& n.store.multipart == c.store.multipart
            &&& n.store.last_flushed_seq == c.store.last_flushed_seq
            &&& n.locks == c.locks.committed(txn, v, now)
            &&& n.mem == memtable_published(
                c.mem,
                rows,
                bodies->Ok_0,
                txn,
                v,
                age_ms,
                rows.len(),
            )
            &&& n.events == c.events.push(commit_event(ws, keys, txn, v, now))
            &&& n.spill_dir == c.spill_dir
            &&& n.store.writes == c.cleanup().spills_dropped(rows, txn, rows.len()).store.writes
            &&& n.store.blobs == c.cleanup().spills_dropped(rows, txn, rows.len()).store.blobs
            &&& n.garbage == c.cleanup().spills_dropped(rows, txn, rows.len()).garbage
        }),
{
    let t = c.store.txns[txn];
    let owned = CoordView { store: c.store.with_status(txn, TxnStatus::Committing), ..c };
    let rows = write_rows(owned.store, txn);
    assert(owned.store.writes == c.store.writes);
    assert(rows == write_rows(c.store, txn));
    lemma_same_bodies(c.store, owned.store, reads, rows, rows.len());
    let bodies = bodies_to_commit(owned.store, reads, rows, rows.len())->Ok_0;
    let keys = sorted_texts(t.write_keys);
    lemma_sorted_contains(t.write_keys, Seq::empty());
    let version = if keys.len() == 0 {
        t.snapshot_version
    } else {
        (owned.store.global_version + 1) as u64
    };
    let allocated = if keys.len() == 0 {
        owned
    } else {
        CoordView { store: StoreView { global_version: version, ..owned.store }, ..owned }
    };
    let p = allocated.prepared(txn, keys, version);
    let ws = p.store.write_set(txn);
    assert(ws == c.store.write_set(txn));
    let updates = commit_updates(ws, keys, txn, version, t.snapshot_version, now);
    let chains = bulk_result(p.store.chains, updates)->Ok_0;
    let vs = commit_versions(ws, keys, txn, version, now);
    let s = StoreView { chains, versions: insert_all(p.store.versions, vs, vs.len()), ..p.store };
    let s2 = s.log(WalRecordView::Committed { txn_id: txn, commit_version: version }).log(
        WalRecordView::CommitResult { txn_id: txn, commit_version: version, success: true },
    ).with_status(txn, TxnStatus::Committed).unpin(t.snapshot_version);
    let d = CoordView {
        store: s2,
        locks: p.locks.committed(txn, version, now),
        mem: memtable_published(p.mem, rows, bodies, txn, version, age_ms, rows.len()),
        events: p.events.push(commit_event(ws, keys, txn, version, now)),
        ..p
    };
    lemma_spills_dropped(d.cleanup(), rows, txn, rows.len());
    lemma_same_spills(c.cleanup(), d.cleanup(), rows, txn, rows.len());
    let n = c.committed(txn, reads, now, age_ms).0;
    assert(n == d.cleaned(d.cleanup().spills_dropped(rows, txn, rows.len())));
    assert(n.store.txns =~= c.store.txns.insert(
        txn,
        TxnStateRecordView {
            status: TxnStatus::Committed,
            alloc_versions: shared_version(keys, version),
            uploaded_keys: Seq::empty(),
            ..t
        },
    ));
}

/// Dropping spills depends on writes, bodies and the list of files alone.
proof fn lemma_same_spills(
    a: crate::cleanup::Cleanup,
    b: crate::cleanup::Cleanup,
    rows: crate::cleanup::WriteRows,
    txn: Seq<char>,
    n: nat,
)
    requires
        a.store.writes == b.store.writes,
        a.store.blobs == b.store.blobs,
        a.garbage == b.garbage,
    ensures
        a.spills_dropped(rows, txn, n).store.writes == b.spills_dropped(rows, txn, n).store.writes,
        a.spills_dropped(rows, txn, n).store.blobs == b.spills_dropped(rows, txn, n).store.blobs,
        a.spills_dropped(rows, txn, n).garbage == b.spills_dropped(rows, txn, n).garbage,
    decreases n,
{
    if n > 0 {
        lemma_same_spills(a, b, rows, txn, (n - 1) as nat);
    }
}

/// The updates of a commit land one per written key.
proof fn lemma_commit_lands(
    c: CoordView,
    txn: Seq<char>,
    reads: Seq<SpillReadView>,
    now: i64,
    age_ms: u64,
    key: Seq<char>,
)
    requires
        sound(c.store),
        c.store.txns.contains_key(txn),
        c.store.txns[txn].status == TxnStatus::Active,
        c.has_room(txn),
        c.committed(txn, reads, now, age_ms).1 is Ok,
    ensures
        ({
            let (n, r) = c.committed(txn, reads, now, age_ms);
            let ws = c.store.write_set(txn);
            &&& c.store.txns[txn].write_keys.contains(key) ==> n.store.chains.contains_key(key)
                && n.store.chains[key].entries == entries_at(c.store.chains, key).push(
                crate::commit_steps::committed_entry(ws, key, txn, r->Ok_0, now),
            )
            &&& !c.store.txns[txn].write_keys.contains(key) ==> (n.store.chains.contains_key(key)
                <==> c.store.chains.contains_key(key)) && (c.store.chains.contains_key(key)
                ==> n.store.chains[key] == c.store.chains[key])
        }),
{
    let t = c.store.txns[txn];
    let (n, r) = c.committed(txn, reads, now, age_ms);
    let v = r->Ok_0;
    let ws = c.store.write_set(txn);
    let keys = sorted_texts(t.write_keys);
    lemma_commit_parts(c, txn, reads, now, age_ms);
    lemma_sorted(t.write_keys);
    lemma_sorted_contains(t.write_keys, key);
    let u = commit_updates(ws, keys, txn, v, t.snapshot_version, now);
    assert forall|i: int, j: int| 0 <= i < j < u.len() implies (#[trigger] u[i]).0 != (
    #[trigger] u[j]).0 by {
        assert(keys[i] != keys[j]);
    }
    let s = sort_updates(u, u.len());
    lemma_sort_distinct(u, u.len());
    assert(u.take(u.len() as int) =~= u);
    if t.write_keys.contains(key) {
        let i = choose|i: int| 0 <= i < keys.len() && keys[i] == key;
        assert(u[i].0 == key);
        assert(u.contains(u[i]));
        lemma_sort_contains(u, u.len(), u[i]);
        let j = choose|j: int| 0 <= j < s.len() && s[j] == u[i];
        let e = chain_at(c.store.chains, key).entries;
        if e.len() > 0 {
            assert(chain_at(c.store.chains, key).entries[e.len() - 1].commit_version
                <= c.store.global_version);
        }
        lemma_distinct_update_lands(c.store.chains, s, 0, j);
    } else {
        assert forall|j: int| 0 <= j < s.len() implies (#[trigger] s[j]).0 != key by {
            let k = choose|k: int| 0 <= k < u.len() && u[k] == s[j];
            assert(u[k].0 == keys[k]);
            assert(t.write_keys.contains(keys[k]));
        }
        lemma_updates_keep_others(c.store.chains, s, 0, key);
    }
}

/// After a successful commit, the newest entry of the chain of every staged
/// write is of this transaction at the commit's version, is a delete exactly if
/// the staged write is, and has its size, 0 for a delete. The rest of the chain
/// is as it was. The version record of the key agrees.
pub proof fn law_commit_records_each_staged_write(
    c: CoordView,
    txn: Seq<char>,
    reads: Seq<SpillReadView>,
    now: i64,
    age_ms: u64,
    key: Seq<char>,
)
    requires
        sound(c.store),
        c.store.txns.contains_key(txn),
        c.store.txns[txn].status == TxnStatus::Active,
        c.store.txns[txn].write_keys.contains(key),
        c.store.writes.contains_key((txn, key)),
        c.has_room(txn),
        c.committed(txn, reads, now, age_ms).1 is Ok,
    ensures
        ({
            let w = c.store.writes[(txn, key)];
            let (n, r) = c.committed(txn, reads, now, age_ms);
            let v = r->Ok_0;
            let chain = n.store.chains[key].entries;
            let e = chain.last();
            let rec = n.store.versions[key];
            &&& v == c.store.global_version + 1
            &&& n.store.chains.contains_key(key)
            &&& chain.len() == entries_at(c.store.chains, key).len() + 1
            &&& chain.drop_last() == entries_at(c.store.chains, key)
            &&& e.commit_version == v
            &&& e.txn_id == txn
            &&& e.backend_key == key
            &&& e.deleted == w.deleted
            &&& e.size == if w.deleted {
                0
            } else {
                w.size
            }
            &&& e.etag.len() == 0
            &&& e.content_type is None
            &&& e.user_meta.len() == 0
            &&& e.created_ms == now
            &&& n.store.versions.contains_key(key)
            &&& rec.latest_version == Version(v)
            &&& rec.last_writer_txn_id == txn
            &&& rec.latest_backend_key == key
            &&& rec.tombstone == w.deleted
            &&& rec.size == w.size
            &&& rec.latest_etag.len() == 0
            &&& rec.last_modified_unix_ms == now
        }),
{
    let t = c.store.txns[txn];
    let (n, r) = c.committed(txn, reads, now, age_ms);
    let ws = c.store.write_set(txn);
    let keys = sorted_texts(t.write_keys);
    lemma_commit_parts(c, txn, reads, now, age_ms);
    lemma_commit_lands(c, txn, reads, now, age_ms, key);
    lemma_sorted(t.write_keys);
    lemma_sorted_contains(t.write_keys, key);
    assert(ws.contains_key(key));
    let chain = n.store.chains[key].entries;
    assert(chain.drop_last() =~= entries_at(c.store.chains, key));
    let vs = commit_versions(ws, keys, txn, r->Ok_0, now);
    assert forall|i: int, j: int| 0 <= i < j < vs.len() implies (#[trigger] vs[i]).0 != (
    #[trigger] vs[j]).0 by {
        assert(keys[i] != keys[j]);
    }
    lemma_insert_distinct_pairs(c.store.versions, vs, vs.len());
    let i = choose|i: int| 0 <= i < keys.len() && keys[i] == key;
    assert(vs[i].0 == key);
}

/// A successful commit leaves the chain and the version record of every key
/// that the transaction did not write.
pub proof fn law_commit_touches_no_other_key(
    c: CoordView,
    txn: Seq<char>,
    reads: Seq<SpillReadView>,
    now: i64,
    age_ms: u64,
    key: Seq<char>,
)
    requires
        sound(c.store),
        c.store.txns.contains_key(txn),
        c.store.txns[txn].status == TxnStatus::Active,
        !c.store.txns[txn].write_keys.contains(key),
        c.has_room(txn),
        c.committed(txn, reads, now, age_ms).1 is Ok,
    ensures
        ({
            let n = c.committed(txn, reads, now, age_ms).0.store;
            &&& n.chains.contains_key(key) <==> c.store.chains.contains_key(key)
            &&& c.store.chains.contains_key(key) ==> n.chains[key] == c.store.chains[key]
            &&& n.versions.contains_key(key) <==> c.store.versions.contains_key(key)
            &&& c.store.versions.contains_key(key) ==> n.versions[key] == c.store.versions[key]
            &&& n.records == c.store.records
            &&& n.record_versions == c.store.record_versions
            &&& n.chunks == c.store.chunks
            &&& n.schemas == c.store.schemas
            &&& n.multipart == c.store.multipart
            &&& n.last_flushed_seq == c.store.last_flushed_seq
        }),
{
    let t = c.store.txns[txn];
    let (n, r) = c.committed(txn, reads, now, age_ms);
    let keys = sorted_texts(t.write_keys);
    lemma_commit_parts(c, txn, reads, now, age_ms);
    lemma_commit_lands(c, txn, reads, now, age_ms, key);
    lemma_sorted(t.write_keys);
    let vs = commit_versions(c.store.write_set(txn), keys, txn, r->Ok_0, now);
    assert forall|i: int| 0 <= i < vs.len() implies (#[trigger] vs[i]).0 != key by {
        assert(vs[i].0 == keys[i]);
        assert(t.write_keys.contains(keys[i]));
    }
    lemma_insert_keeps_others(c.store.versions, vs, vs.len(), key);
}

/// A successful commit tells observers one event: it names the transaction,
/// the version and every written key once, in key order, and says of each
/// staged write whether it is a delete and how large it is, 0 for a delete.
pub proof fn law_commit_event_tells_each_staged_write(
    c: CoordView,
    txn: Seq<char>,
    reads: Seq<SpillReadView>,
    now: i64,
    age_ms: u64,
)
    requires
        sound(c.store),
        c.store.txns.contains_key(txn),
        c.store.txns[txn].status == TxnStatus::Active,
        c.has_room(txn),
        c.committed(txn, reads, now, age_ms).1 is Ok,
    ensures
        ({
            let (n, r) = c.committed(txn, reads, now, age_ms);
            let v = r->Ok_0;
            let keys = c.store.txns[txn].write_keys;
            let e = n.events.last();
            &&& n.events.len() == c.events.len() + 1
            &&& n.events.drop_last() == c.events
            &&& e.txn_id == txn
            &&& e.commit_version == v
            &&& e.writes.len() == keys.len()
            &&& forall|key: Seq<char>| #[trigger]
                keys.contains(key) ==> exists|i: int|
                    0 <= i < e.writes.len() && (#[trigger] e.writes[i]).key == key
            &&& forall|i: int|
                0 <= i < e.writes.len() ==> keys.contains((#[trigger] e.writes[i]).key)
                    && e.writes[i].commit_version == v
            &&& forall|i: int|
                0 <= i < e.writes.len() && c.store.writes.contains_key(
                    (txn, (#[trigger] e.writes[i]).key),
                ) ==> {
                    let w = c.store.writes[(txn, e.writes[i].key)];
                    e.writes[i].deleted == w.deleted && e.writes[i].size == if w.deleted {
                        0
                    } else {
                        w.size
                    }
                }
            &&& forall|i: int, j: int|
                0 <= i < j < e.writes.len() ==> text_before(
                    (#[trigger] e.writes[i]).key,
                    (#[trigger] e.writes[j]).key,
                )
        }),
{
    let t = c.store.txns[txn];
    let (n, r) = c.committed(txn, reads, now, age_ms);
    let v = r->Ok_0;
    let ws = c.store.write_set(txn);
    let keys = sorted_texts(t.write_keys);
    lemma_commit_parts(c, txn, reads, now, age_ms);
    lemma_sorted(t.write_keys);
    lemma_sorted_ascending(t.write_keys);
    let e = n.events.last();
    assert(n.events.drop_last() =~= c.events);
    assert forall|i: int| 0 <= i < e.writes.len() implies t.write_keys.contains(
        (#[trigger] e.writes[i]).key,
    ) && e.writes[i].commit_version == v by {
        assert(e.writes[i].key == keys[i]);
    }
    assert forall|key: Seq<char>| #[trigger] t.write_keys.contains(key) implies exists|i: int|
        0 <= i < e.writes.len() && (#[trigger] e.writes[i]).key == key by {
        lemma_sorted_contains(t.write_keys, key);
        let i = choose|i: int| 0 <= i < keys.len() && keys[i] == key;
        assert(e.writes[i].key == key);
    }
    assert forall|i: int|
        0 <= i < e.writes.len() && c.store.writes.contains_key(
            (txn, (#[trigger] e.writes[i]).key),
        ) implies {
        let w = c.store.writes[(txn, e.writes[i].key)];
        e.writes[i].deleted == w.deleted && e.writes[i].size == if w.deleted {
            0
        } else {
            w.size
        }
    } by {
        assert(e.writes[i].key == keys[i]);
        assert(ws.contains_key(keys[i]));
    }
    assert forall|i: int, j: int| 0 <= i < j < e.writes.len() implies text_before(
        (#[trigger] e.writes[i]).key,
        (#[trigger] e.writes[j]).key,
    ) by {
        assert(e.writes[i].key == keys[i] && e.writes[j].key == keys[j]);
        assert(text_before(keys[i], keys[j]));
    }
}

/// Distinct texts are strictly ascending once sorted.
proof fn lemma_sorted_ascending(s: Seq<Seq<char>>)
    requires
        s.no_duplicates(),
    ensures
        forall|i: int, j: int|
            0 <= i < j < sorted_texts(s).len() ==> text_before(
                #[trigger] sorted_texts(s)[i],
                #[trigger] sorted_texts(s)[j],
            ),
{
    let r = sorted_texts(s);
    lemma_text_leq();
    lemma_sorted(s);
    s.lemma_sort_by_ensures(text_leq());
    assert forall|i: int, j: int| 0 <= i < j < r.len() implies text_before(
        #[trigger] r[i],
        #[trigger] r[j],
    ) by {
        assert(r[i] != r[j]);
        assert(text_leq()(r[i], r[j]));
    }
}

/// A successful commit appends three records to the log: the written keys in
/// order, the version, and the success. Earlier records stay.
pub proof fn law_commit_is_logged(
    c: CoordView,
    txn: Seq<char>,
    reads: Seq<SpillReadView>,
    now: i64,
    age_ms: u64,
    earlier: u64,
)
    requires
        c.store.txns.contains_key(txn),
        c.store.txns[txn].status == TxnStatus::Active,
        c.has_room(txn),
        c.committed(txn, reads, now, age_ms).1 is Ok,
        earlier <= c.store.last_wal_seq,
    ensures
        ({
            let (n, r) = c.committed(txn, reads, now, age_ms);
            let v = r->Ok_0;
            let q = c.store.last_wal_seq;
            let wal = n.store.wal;
            &&& n.store.last_wal_seq == q + 3
            &&& wal.contains_key((q + 1) as u64)
            &&& (wal[(q + 1) as u64] matches WalRecordView::Committing { txn_id, upload_keys }
                && txn_id == txn && upload_keys.to_multiset()
                == c.store.txns[txn].write_keys.to_multiset() && (forall|i: int, j: int|
                0 <= i < j < upload_keys.len() ==> !text_before(
                    #[trigger] upload_keys[j],
                    #[trigger] upload_keys[i],
                )))
            &&& wal.contains_key((q + 2) as u64)
            &&& (wal[(q + 2) as u64] matches WalRecordView::Committed { txn_id, commit_version }
                && txn_id == txn && commit_version == v)
            &&& wal.contains_key((q + 3) as u64)
            &&& (wal[(q + 3) as u64] matches WalRecordView::CommitResult {
                txn_id,
                commit_version,
                success,
            } && txn_id == txn && commit_version == v && success)
            &&& wal.contains_key(earlier) <==> c.store.wal.contains_key(earlier)
            &&& c.store.wal.contains_key(earlier) ==> wal[earlier] == c.store.wal[earlier]
        }),
{
    lemma_commit_parts(c, txn, reads, now, age_ms);
    let keys = c.store.txns[txn].write_keys;
    let up = sorted_texts(keys);
    lemma_sorted(keys);
    lemma_text_leq();
    keys.lemma_sort_by_ensures(text_leq());
    assert forall|i: int, j: int| 0 <= i < j < up.len() implies !text_before(
        #[trigger] up[j],
        #[trigger] up[i],
    ) by {
        assert(text_leq()(up[i], up[j]));
        if text_before(up[j], up[i]) {
            crate::order::lemma_text_irreflexive(up[i]);
            if up[i] != up[j] {
                crate::order::lemma_text_transitive(up[i], up[j], up[i]);
            }
        }
    }
}

/// A successful commit makes the transaction committed, with the one version
/// for each written key, and changes nothing else of it and no other
/// transaction. It takes one pin off its snapshot and advances the version of
/// the store by one, by none without writes.
pub proof fn law_commit_ends_with_one_version(
    c: CoordView,
    txn: Seq<char>,
    reads: Seq<SpillReadView>,
    now: i64,
    age_ms: u64,
    other: Seq<char>,
    snapshot: u64,
)
    requires
        c.store.txns.contains_key(txn),
        c.store.txns[txn].status == TxnStatus::Active,
        c.has_room(txn),
        c.committed(txn, reads, now, age_ms).1 is Ok,
        other != txn,
    ensures
        ({
            let t = c.store.txns[txn];
            let (n, r) = c.committed(txn, reads, now, age_ms);
            let u = n.store.txns[txn];
            let v = r->Ok_0;
            &&& v == if t.write_keys.len() == 0 {
                t.snapshot_version as int
            } else {
                c.store.global_version + 1
            }
            &&& n.store.global_version == c.store.global_version + if t.write_keys.len() == 0 {
                0int
            } else {
                1
            }
            &&& n.store.txns.contains_key(txn)
            &&& u.status == TxnStatus::Committed
            &&& u.snapshot_version == t.snapshot_version
            &&& u.started_at_ms == t.started_at_ms
            &&& u.last_heartbeat_ms == t.last_heartbeat_ms
            &&& u.idempotency_key == t.idempotency_key
            &&& u.read_keys == t.read_keys
            &&& u.write_keys == t.write_keys
            &&& u.alloc_versions.len() == t.write_keys.len()
            &&& forall|i: int|
                0 <= i < u.alloc_versions.len() ==> t.write_keys.contains(
                    (#[trigger] u.alloc_versions[i]).0,
                ) && u.alloc_versions[i].1 == v
            &&& forall|k: Seq<char>| #[trigger]
                t.write_keys.contains(k) ==> u.alloc_versions.contains((k, v))
            &&& n.store.txns.contains_key(other) <==> c.store.txns.contains_key(other)
            &&& c.store.txns.contains_key(other) ==> n.store.txns[other] == c.store.txns[other]
            &&& n.store.pins(snapshot) == if snapshot == t.snapshot_version && c.store.pins(
                snapshot,
            ) > 0 {
                c.store.pins(snapshot) - 1
            } else {
                c.store.pins(snapshot) as int
            }
            &&& snapshot == t.snapshot_version && c.store.pins(snapshot) <= 1
                ==> !n.store.snapshots.contains_key(snapshot)
        }),
{
    let t = c.store.txns[txn];
    let (n, r) = c.committed(txn, reads, now, age_ms);
    let v = r->Ok_0;
    lemma_commit_parts(c, txn, reads, now, age_ms);
    lemma_sorted(t.write_keys);
    let keys = sorted_texts(t.write_keys);
    let alloc = n.store.txns[txn].alloc_versions;
    assert forall|i: int| 0 <= i < alloc.len() implies t.write_keys.contains(
        (#[trigger] alloc[i]).0,
    ) && alloc[i].1 == v by {
        assert(alloc[i].0 == keys[i]);
    }
    assert forall|k: Seq<char>| #[trigger] t.write_keys.contains(k) implies alloc.contains(
        (k, v),
    ) by {
        lemma_sorted_contains(t.write_keys, k);
        let i = choose|i: int| 0 <= i < keys.len() && keys[i] == k;
        assert(alloc[i] == (k, v));
    }
}

/// After a successful commit the staged writes with a spilled body are gone,
/// with the body, whose file is noted for removal. Staged writes with their
/// body in the store stay, and so do those of other transactions.
pub proof fn law_commit_lets_go_of_spilled_writes(
    c: CoordView,
    txn: Seq<char>,
    reads: Seq<SpillReadView>,
    now: i64,
    age_ms: u64,
    key: (Seq<char>, Seq<char>),
    handle: Seq<char>,
)
    requires
        c.store.txns.contains_key(txn),
        c.store.txns[txn].status == TxnStatus::Active,
        c.has_room(txn),
        c.committed(txn, reads, now, age_ms).1 is Ok,
        c.store.writes.dom().finite(),
        forall|k: (Seq<char>, Seq<char>)| #[trigger]
            c.store.writes.contains_key(k) ==> c.store.writes[k].backend_key == k.1,
    ensures
        ({
            let n = c.committed(txn, reads, now, age_ms).0;
            &&& n.store.writes.contains_key(key) <==> c.store.writes.contains_key(key) && !(key.0
                == txn && c.store.writes[key].body_handle is Some)
            &&& n.store.writes.contains_key(key) ==> n.store.writes[key] == c.store.writes[key]
            &&& n.store.blobs.contains_key(handle) <==> c.store.blobs.contains_key(handle)
                && !points_to(c.store, txn, handle)
            &&& n.store.blobs.contains_key(handle) ==> n.store.blobs[handle]
                == c.store.blobs[handle]
            &&& c.store.blobs.contains_key(handle) && points_to(c.store, txn, handle)
                ==> n.garbage.contains(c.store.blobs[handle].path)
        }),
{
    lemma_commit_parts(c, txn, reads, now, age_ms);
    law_dropping_spills_keeps_the_rest(c.cleanup(), txn, key, handle);
}

// ----- when a commit succeeds -----

/// The body of the staged write can be had: it is in the store, or there is
/// none, or its spill file is known and the first read of it succeeded.
pub open spec fn body_can_be_had(
    s: StoreView,
    reads: Seq<SpillReadView>,
    w: crate::txn_state::WriteSetEntryView,
) -> bool {
    ||| w.inline_body is Some
    ||| w.body_handle is None
    ||| s.blobs.contains_key(w.body_handle->0) && exists|i: int|
        0 <= i < reads.len() && (#[trigger] reads[i]).handle == w.body_handle->0
            && reads[i].content is Ok && forall|j: int|
            0 <= j < i ==> (#[trigger] reads[j]).handle != w.body_handle->0
}

/// The bytes of a staged write: those in the store, those of the first read of
/// its spill file, or none.
pub open spec fn body_of_write(
    reads: Seq<SpillReadView>,
    w: crate::txn_state::WriteSetEntryView,
    body: Seq<u8>,
) -> bool {
    match w.inline_body {
        Some(b) => body == b,
        None => match w.body_handle {
            None => body.len() == 0,
            Some(h) => exists|i: int|
                0 <= i < reads.len() && (#[trigger] reads[i]).handle == h && reads[i].content
                    is Ok && reads[i].content->Ok_0 == body && forall|j: int|
                    0 <= j < i ==> (#[trigger] reads[j]).handle != h,
        },
    }
}

/// The first read of a spill file, or that there is none.
pub proof fn lemma_spill_index(reads: Seq<SpillReadView>, h: Seq<char>, i: int)
    requires
        0 <= i <= reads.len(),
    ensures
        match crate::commit_steps::spill_index(reads, h, i) {
            Some(k) => i <= k < reads.len() && reads[k].handle == h && forall|j: int|
                i <= j < k ==> (#[trigger] reads[j]).handle != h,
            None => forall|j: int| i <= j < reads.len() ==> (#[trigger] reads[j]).handle != h,
        },
    decreases reads.len() - i,
{
    if i < reads.len() && reads[i].handle != h {
        lemma_spill_index(reads, h, i + 1);
    }
}

proof fn lemma_body_of(
    s: StoreView,
    reads: Seq<SpillReadView>,
    w: crate::txn_state::WriteSetEntryView,
)
    ensures
        crate::commit_steps::body_to_commit(s, reads, w) is Ok <==> body_can_be_had(s, reads, w),
        crate::commit_steps::body_to_commit(s, reads, w) matches Ok(b) ==> body_of_write(
            reads,
            w,
            b,
        ),
        crate::commit_steps::body_to_commit(s, reads, w) matches Err(e) ==> e.0
            == crate::types::ErrorKind::Storage,
{
    if w.inline_body is None && w.body_handle is Some {
        let h = w.body_handle->0;
        lemma_spill_index(reads, h, 0);
        if let Some(k) = crate::commit_steps::spill_index(reads, h, 0) {
            assert(reads[k].handle == h);
            if body_can_be_had(s, reads, w) {
                let i = choose|i: int|
                    0 <= i < reads.len() && (#[trigger] reads[i]).handle == h && reads[i].content
                        is Ok && forall|j: int|
                        0 <= j < i ==> (#[trigger] reads[j]).handle != h;
                assert(i == k);
            }
        }
    }
}

/// Bodies can be had of all rows exactly if of each.
proof fn lemma_all_bodies(
    s: StoreView,
    reads: Seq<SpillReadView>,
    rows: crate::cleanup::WriteRows,
    n: nat,
)
    requires
        n <= rows.len(),
    ensures
        bodies_to_commit(s, reads, rows, n) is Ok <==> forall|i: int|
            0 <= i < n ==> body_can_be_had(s, reads, (#[trigger] rows[i]).1),
        bodies_to_commit(s, reads, rows, n) matches Err(e) ==> e.0
            == crate::types::ErrorKind::Storage,
    decreases n,
{
    if n > 0 {
        lemma_all_bodies(s, reads, rows, (n - 1) as nat);
        lemma_body_of(s, reads, rows[n - 1].1);
        if forall|i: int|
            0 <= i < n - 1 ==> body_can_be_had(s, reads, (#[trigger] rows[i]).1) {
            if body_can_be_had(s, reads, rows[n - 1].1) {
                assert forall|i: int| 0 <= i < n implies body_can_be_had(
                    s,
                    reads,
                    (#[trigger] rows[i]).1,
                ) by {
                    if i == n - 1 {
                        assert(body_can_be_had(s, reads, rows[n - 1].1));
                    }
                }
            }
        } else {
            let i = choose|i: int|
                0 <= i < n - 1 && !body_can_be_had(s, reads, (#[trigger] rows[i]).1);
            assert(!body_can_be_had(s, reads, rows[i].1));
        }
    }
}

/// Some peer reads what the transaction wrote and wrote what it read.
pub open spec fn has_two_way_peer(l: crate::si_lock_manager::LocksView, txn: Seq<char>) -> bool {
    l.by_txn.contains_key(txn) && exists|i: int, j: int|
        0 <= i < l.by_txn[txn].in_edges.len() && 0 <= j < l.by_txn[txn].out_edges.len() && (
        #[trigger] l.by_txn[txn].in_edges[i]).peer == (#[trigger] l.by_txn[txn].out_edges[j]).peer
            && l.by_txn[txn].in_edges[i].peer != txn
}

proof fn lemma_danger_is_two_way(l: crate::si_lock_manager::LocksView, txn: Seq<char>)
    ensures
        l.danger(txn) is Some <==> has_two_way_peer(l, txn),
{
    if l.by_txn.contains_key(txn) {
        let ins = l.by_txn[txn].in_edges;
        let outs = l.by_txn[txn].out_edges;
        crate::cahill::law_detection_is_exact(txn, ins, outs);
        if let Some(p) = l.danger(txn) {
            let i = choose|i: int| 0 <= i < ins.len() && (#[trigger] ins[i]).peer == p;
            let j = choose|j: int| 0 <= j < outs.len() && (#[trigger] outs[j]).peer == p;
            assert(l.by_txn[txn].in_edges[i].peer == l.by_txn[txn].out_edges[j].peer);
        }
        if has_two_way_peer(l, txn) {
            let (i, j) = choose|i: int, j: int|
                0 <= i < l.by_txn[txn].in_edges.len() && 0 <= j < l.by_txn[txn].out_edges.len() && (
                #[trigger] l.by_txn[txn].in_edges[i]).peer == (
                #[trigger] l.by_txn[txn].out_edges[j]).peer && l.by_txn[txn].in_edges[i].peer
                    != txn;
            assert(ins[i].peer == outs[j].peer);
            assert(crate::cahill::dangerous(txn, ins, outs, ins[i].peer));
        }
    }
}

/// Some written key has a version above the transaction's snapshot.
pub open spec fn wrote_a_newer_key(s: StoreView, txn: Seq<char>) -> bool {
    exists|k: Seq<char>| #[trigger]
        s.txns[txn].write_keys.contains(k) && entries_at(s.chains, k).len() > 0 && entries_at(
            s.chains,
            k,
        ).last().commit_version > s.txns[txn].snapshot_version
}

/// In a sound store a commit of an active transaction succeeds exactly if the
/// body of every staged write can be had, no peer is tied to it both ways, and
/// no key that it wrote has a version above its snapshot. A missing body is a
/// storage error; of the other two each is a conflict.
pub proof fn law_commit_succeeds_exactly_if_unopposed(
    c: CoordView,
    txn: Seq<char>,
    reads: Seq<SpillReadView>,
    now: i64,
    age_ms: u64,
)
    requires
        sound(c.store),
        c.store.writes.dom().finite(),
        c.store.txns.contains_key(txn),
        c.store.txns[txn].status == TxnStatus::Active,
        c.has_room(txn),
    ensures
        ({
            let r = c.committed(txn, reads, now, age_ms).1;
            let bodies = forall|k: Seq<char>| #[trigger]
                c.store.writes.contains_key((txn, k)) ==> body_can_be_had(
                    c.store,
                    reads,
                    c.store.writes[(txn, k)],
                );
            let opposed = has_two_way_peer(c.locks, txn) || wrote_a_newer_key(c.store, txn);
            &&& r is Ok <==> bodies && !opposed
            &&& !bodies ==> (r matches Err(e) && e.0 == crate::types::ErrorKind::Storage)
            &&& bodies && opposed ==> (r matches Err(e) && e.0
                == crate::types::ErrorKind::Conflict)
        }),
{
    let t = c.store.txns[txn];
    let owned = CoordView { store: c.store.with_status(txn, TxnStatus::Committing), ..c };
    let rows = write_rows(c.store, txn);
    let ws = c.store.write_set(txn);
    assert(write_rows(owned.store, txn) == rows);
    lemma_same_bodies(c.store, owned.store, reads, rows, rows.len());
    lemma_all_bodies(c.store, reads, rows, rows.len());
    crate::cleanup::lemma_write_set_finite(c.store, txn);
    crate::table::lemma_finite_listing::<String, crate::txn_state::WriteSetEntryView>(ws);
    let bodies = forall|k: Seq<char>| #[trigger]
        c.store.writes.contains_key((txn, k)) ==> body_can_be_had(
            c.store,
            reads,
            c.store.writes[(txn, k)],
        );
    assert(bodies <==> bodies_to_commit(c.store, reads, rows, rows.len()) is Ok) by {
        if bodies {
            assert forall|i: int| 0 <= i < rows.len() implies body_can_be_had(
                c.store,
                reads,
                (#[trigger] rows[i]).1,
            ) by {
                crate::table::lemma_listed::<String, crate::txn_state::WriteSetEntryView>(rows, i);
                assert(ws.contains_key(rows[i].0));
                assert(c.store.writes.contains_key((txn, rows[i].0)));
            }
        } else {
            let k = choose|k: Seq<char>| #[trigger]
                c.store.writes.contains_key((txn, k)) && !body_can_be_had(
                    c.store,
                    reads,
                    c.store.writes[(txn, k)],
                );
            assert(ws.contains_key(k));
            assert(crate::table::rows_map(rows).contains_key(k));
            let i = choose|i: int| 0 <= i < rows.len() && (#[trigger] rows[i]).0 == k;
            crate::table::lemma_listed::<String, crate::txn_state::WriteSetEntryView>(rows, i);
            assert(!body_can_be_had(c.store, reads, rows[i].1));
        }
    }
    lemma_danger_is_two_way(c.locks, txn);
    let keys = sorted_texts(t.write_keys);
    lemma_conflict_is_newer(c.store, txn);
    if bodies && !has_two_way_peer(c.locks, txn) && !wrote_a_newer_key(c.store, txn) {
        assert forall|k: Seq<char>| #[trigger] t.write_keys.contains(k) implies chain_at(
            c.store.chains,
            k,
        ).entries.len() == 0 || crate::version_chain::latest_version(
            chain_at(c.store.chains, k).entries,
        ) <= t.snapshot_version by {
            assert(entries_at(c.store.chains, k) == chain_at(c.store.chains, k).entries);
        }
        crate::commit_laws::law_unopposed_commit_succeeds(c, txn, reads, now, age_ms);
    }
}

proof fn lemma_conflict_is_newer(s: StoreView, txn: Seq<char>)
    ensures
        first_conflict(
            s.chains,
            sorted_texts(s.txns[txn].write_keys),
            s.txns[txn].snapshot_version,
            0,
        ) is Some <==> wrote_a_newer_key(s, txn),
{
    let t = s.txns[txn];
    let keys = sorted_texts(t.write_keys);
    lemma_sorted(t.write_keys);
    lemma_first_conflict(s.chains, keys, t.snapshot_version, 0);
    if let Some(i) = first_conflict(s.chains, keys, t.snapshot_version, 0) {
        assert(t.write_keys.contains(keys[i]));
    }
    if wrote_a_newer_key(s, txn) {
        let k = choose|k: Seq<char>| #[trigger]
            t.write_keys.contains(k) && entries_at(s.chains, k).len() > 0 && entries_at(
                s.chains,
                k,
            ).last().commit_version > t.snapshot_version;
        lemma_sorted_contains(t.write_keys, k);
        let i = choose|i: int| 0 <= i < keys.len() && keys[i] == k;
        assert(entries_at(s.chains, keys[i]).len() > 0);
    }
}

proof fn lemma_first_conflict(chains: Chains, keys: Seq<Seq<char>>, snapshot: u64, i: int)
    requires
        0 <= i <= keys.len(),
    ensures
        match first_conflict(chains, keys, snapshot, i) {
            Some(k) => i <= k < keys.len() && entries_at(chains, keys[k]).len() > 0 && entries_at(
                chains,
                keys[k],
            ).last().commit_version > snapshot,
            None => forall|j: int|
                i <= j < keys.len() ==> entries_at(chains, #[trigger] keys[j]).len() == 0
                    || entries_at(chains, keys[j]).last().commit_version <= snapshot,
        },
    decreases keys.len() - i,
{
    if i < keys.len() {
        lemma_first_conflict(chains, keys, snapshot, i + 1);
    }
}

// ----- what readers and callers get -----

/// From the version of a commit on, a read of the record of a staged write
/// gives its bytes, its delete flag, content type and metadata, the version and
/// the transaction, where no other staged write names the same record.
pub proof fn law_committed_write_reads_back(
    c: CoordView,
    txn: Seq<char>,
    reads: Seq<SpillReadView>,
    now: i64,
    age_ms: u64,
    key: Seq<char>,
    s: StoreView,
    snapshot: u64,
)
    requires
        c.store.txns.contains_key(txn),
        c.store.txns[txn].status == TxnStatus::Active,
        c.store.txns[txn].write_keys.len() > 0,
        c.store.writes.dom().finite(),
        c.store.writes.contains_key((txn, key)),
        forall|k: Seq<char>| #[trigger]
            c.store.writes.contains_key((txn, k)) && k != key ==> crate::record_key::memtable_key(k)
                != crate::record_key::memtable_key(key),
        forall|i: int, j: int|
            0 <= i < j < c.mem.active.entries.len() ==> (#[trigger] c.mem.active.entries[i]).key
                != (#[trigger] c.mem.active.entries[j]).key,
        c.has_room(txn),
        c.committed(txn, reads, now, age_ms).1 is Ok,
        c.store.global_version + 1 < u64::MAX,
        c.store.global_version < snapshot,
    ensures
        ({
            let w = c.store.writes[(txn, key)];
            let n = c.committed(txn, reads, now, age_ms).0;
            let found = crate::read::lookup(
                n.mem,
                s,
                crate::record_key::memtable_key(key),
                snapshot,
            );
            &&& found matches crate::read::LookupView::Answer(Some(r)) && body_of_write(
                reads,
                w,
                r.body,
            ) && r.commit_version == c.store.global_version + 1 && r.txn_id == txn && r.deleted
                == w.deleted && r.content_type == w.content_type && r.user_meta == w.user_meta
                && r.schema_version == 0
        }),
{
    let ws = c.store.write_set(txn);
    let rows = write_rows(c.store, txn);
    let (n, r) = c.committed(txn, reads, now, age_ms);
    let v = r->Ok_0;
    lemma_commit_parts(c, txn, reads, now, age_ms);
    crate::cleanup::lemma_write_set_finite(c.store, txn);
    crate::table::lemma_finite_listing::<String, crate::txn_state::WriteSetEntryView>(ws);
    assert(ws.contains_key(key));
    assert(crate::table::rows_map(rows).contains_key(key));
    let at = choose|at: int| 0 <= at < rows.len() && (#[trigger] rows[at]).0 == key;
    crate::table::lemma_listed::<String, crate::txn_state::WriteSetEntryView>(rows, at);
    assert(rows[at].1 == c.store.writes[(txn, key)]);
    assert forall|j: int| at < j < rows.len() implies crate::record_key::memtable_key(
        (#[trigger] rows[j]).0,
    ) != crate::record_key::memtable_key(rows[at].0) by {
        crate::table::lemma_listed::<String, crate::txn_state::WriteSetEntryView>(rows, j);
        assert(ws.contains_key(rows[j].0));
        assert(c.store.writes.contains_key((txn, rows[j].0)));
        crate::table::lemma_ascending::<String, crate::txn_state::WriteSetEntryView>(rows, at, j);
        if rows[j].0 == key {
            crate::order::lemma_text_irreflexive(key);
        }
    }
    let bodies = bodies_to_commit(c.store, reads, rows, rows.len())->Ok_0;
    crate::commit_laws::lemma_bodies(c.store, reads, rows, rows.len());
    crate::commit_laws::lemma_row_held(
        c.mem,
        rows,
        bodies,
        txn,
        v,
        age_ms,
        at,
        rows.len(),
        snapshot,
    );
    assert(crate::commit_steps::body_to_commit(c.store, reads, rows[at].1) is Ok);
    lemma_body_of(c.store, reads, rows[at].1);
}

/// A refused commit of an active transaction of a sound store aborts it and
/// says so in the log. One pin leaves its snapshot; all staged writes, bodies,
/// chains, versions, memtables and events stay, and so do other transactions.
pub proof fn law_refused_commit_only_aborts(
    c: CoordView,
    txn: Seq<char>,
    reads: Seq<SpillReadView>,
    now: i64,
    age_ms: u64,
    other: Seq<char>,
    snapshot: u64,
)
    requires
        sound(c.store),
        c.store.txns.contains_key(txn),
        c.store.txns[txn].status == TxnStatus::Active,
        c.has_room(txn),
        c.committed(txn, reads, now, age_ms).1 is Err,
        other != txn,
    ensures
        ({
            let t = c.store.txns[txn];
            let n = c.committed(txn, reads, now, age_ms).0;
            let u = n.store.txns[txn];
            &&& n.store.txns.contains_key(txn)
            &&& u.status == TxnStatus::Aborted
            &&& u.snapshot_version == t.snapshot_version
            &&& u.read_keys == t.read_keys
            &&& u.write_keys == t.write_keys
            &&& u.started_at_ms == t.started_at_ms
            &&& u.last_heartbeat_ms == t.last_heartbeat_ms
            &&& u.idempotency_key == t.idempotency_key
            &&& n.store.txns.contains_key(other) <==> c.store.txns.contains_key(other)
            &&& c.store.txns.contains_key(other) ==> n.store.txns[other] == c.store.txns[other]
            &&& c.store.last_wal_seq < n.store.last_wal_seq
            &&& n.store.wal.contains_key(n.store.last_wal_seq)
            &&& (n.store.wal[n.store.last_wal_seq] matches WalRecordView::Aborted { txn_id, .. }
                && txn_id == txn)
            &&& n.store.pins(snapshot) == if snapshot == t.snapshot_version && c.store.pins(
                snapshot,
            ) > 0 {
                c.store.pins(snapshot) - 1
            } else {
                c.store.pins(snapshot) as int
            }
            &&& n.store.writes == c.store.writes
            &&& n.store.blobs == c.store.blobs
            &&& n.store.chains == c.store.chains
            &&& n.store.versions == c.store.versions
            &&& n.store.records == c.store.records
            &&& n.store.record_versions == c.store.record_versions
            &&& n.store.chunks == c.store.chunks
            &&& n.mem == c.mem
            &&& n.events == c.events
            &&& n.garbage == c.garbage
            &&& n.locks == c.locks.aborted(txn)
        }),
{
    crate::txn_laws::law_failed_commit_aborts(c, txn, reads, now, age_ms);
}

/// A commit of a transaction that has ended before, or is on its way to, or is
/// unknown, changes nothing. One that committed answers the highest of its
/// versions, or its snapshot where it has none; any other is an error, each of
/// its kind.
pub proof fn law_commit_of_the_rest_changes_nothing(
    c: CoordView,
    txn: Seq<char>,
    reads: Seq<SpillReadView>,
    now: i64,
    age_ms: u64,
)
    requires
        !(c.store.txns.contains_key(txn) && c.store.txns[txn].status == TxnStatus::Active),
    ensures
        ({
            let (n, r) = c.committed(txn, reads, now, age_ms);
            let t = c.store.txns[txn];
            &&& n == c
            &&& !c.store.txns.contains_key(txn) ==> (r matches Err(e) && e.0
                == crate::types::ErrorKind::UnknownTxn && e.1 == txn)
            &&& c.store.txns.contains_key(txn) && t.status == TxnStatus::Aborted ==> (
            r matches Err(e) && e.0 == crate::types::ErrorKind::Conflict)
            &&& c.store.txns.contains_key(txn) && t.status == TxnStatus::Committing ==> (
            r matches Err(e) && e.0 == crate::types::ErrorKind::Internal)
            &&& c.store.txns.contains_key(txn) && t.status == TxnStatus::Committed ==> (
            r matches Ok(v) && (t.alloc_versions.len() == 0 ==> v == t.snapshot_version) && (
            t.alloc_versions.len() > 0 ==> (exists|i: int|
                0 <= i < t.alloc_versions.len() && (#[trigger] t.alloc_versions[i]).1 == v)) && (
            forall|i: int|
                0 <= i < t.alloc_versions.len() ==> (#[trigger] t.alloc_versions[i]).1 <= v))
        }),
{
    if c.store.txns.contains_key(txn) {
        let a = c.store.txns[txn].alloc_versions;
        lemma_max_alloc(a, a.len());
    }
}

/// The highest allocated version is one of them, and above all.
pub proof fn lemma_max_alloc(s: Seq<(Seq<char>, u64)>, n: nat)
    requires
        n <= s.len(),
    ensures
        forall|i: int|
            0 <= i < n ==> (#[trigger] s[i]).1 <= crate::commit_steps::max_alloc(s, n),
        n > 0 ==> exists|i: int|
            0 <= i < n && (#[trigger] s[i]).1 == crate::commit_steps::max_alloc(s, n),
    decreases n,
{
    if n > 0 {
        lemma_max_alloc(s, (n - 1) as nat);
        assert(s[n - 1] == s[n - 1]);
        if n > 1 {
            let i = choose|i: int|
                0 <= i < n - 1 && (#[trigger] s[i]).1 == crate::commit_steps::max_alloc(
                    s,
                    (n - 1) as nat,
                );
            assert(s[i] == s[i]);
        }
    }
}

/// The chain of the key holds an entry of the transaction at the version.
pub open spec fn holds_version(
    chains: Chains,
    key: Seq<char>,
    txn: Seq<char>,
    version: u64,
) -> bool {
    chains.contains_key(key) && exists|j: int|
        0 <= j < chains[key].entries.len() && (#[trigger] chains[key].entries[j]).txn_id == txn
            && chains[key].entries[j].commit_version == version
}

/// A chain holds a version exactly if some entry of it is the one.
pub proof fn lemma_holds_version(chains: Chains, key: Seq<char>, txn: Seq<char>, version: u64)
    ensures
        holds_version(chains, key, txn, version) <==> crate::commit_steps::chain_has_own(
            chain_at(chains, key).entries,
            txn,
            version,
        ),
{
    let e = chain_at(chains, key).entries;
    if crate::commit_steps::chain_has_own(e, txn, version) {
        let j = choose|j: int|
            0 <= j < e.len() && (#[trigger] e[j]).txn_id == txn && e[j].commit_version == version;
        assert(chains[key].entries[j] == e[j]);
    }
    if holds_version(chains, key, txn, version) {
        let j = choose|j: int|
            0 <= j < chains[key].entries.len() && (#[trigger] chains[key].entries[j]).txn_id == txn
                && chains[key].entries[j].commit_version == version;
        assert(e[j] == chains[key].entries[j]);
    }
}

/// A commit that failed on the way counts as committed exactly if it has
/// versions allocated and the chain of each of their keys holds the
/// transaction's own entry at that version; else it is aborted. A transaction
/// that is not on its way to commit is left alone.
pub proof fn law_failed_commit_is_settled_by_the_chains(
    c: CoordView,
    txn: Seq<char>,
    cause: Seq<char>,
    now: i64,
)
    requires
        c.store.txns.contains_key(txn),
    ensures
        ({
            let t = c.store.txns[txn];
            let n = c.reconciled(txn, cause, now);
            let published = t.alloc_versions.len() > 0 && forall|i: int|
                0 <= i < t.alloc_versions.len() ==> holds_version(
                    c.store.chains,
                    (#[trigger] t.alloc_versions[i]).0,
                    txn,
                    t.alloc_versions[i].1,
                );
            &&& t.status != TxnStatus::Committing ==> n == c
            &&& t.status == TxnStatus::Committing ==> n.store.txns[txn].status == if published {
                TxnStatus::Committed
            } else {
                TxnStatus::Aborted
            }
            &&& n.store.chains == c.store.chains
            &&& n.store.versions == c.store.versions
            &&& n.store.writes == c.store.writes
            &&& n.store.blobs == c.store.blobs
            &&& n.mem == c.mem
            &&& n.events == c.events
        }),
{
    let t = c.store.txns[txn];
    let alloc = t.alloc_versions;
    let chains = c.store.chains;
    if crate::commit_steps::all_published(c.store, txn) {
        assert forall|i: int| 0 <= i < alloc.len() implies holds_version(
            chains,
            (#[trigger] alloc[i]).0,
            txn,
            alloc[i].1,
        ) by {
            lemma_holds_version(chains, alloc[i].0, txn, alloc[i].1);
        }
    } else if alloc.len() > 0 {
        let i = choose|i: int|
            0 <= i < alloc.len() && !crate::commit_steps::chain_has_own(
                chain_at(chains, (#[trigger] alloc[i]).0).entries,
                txn,
                alloc[i].1,
            );
        lemma_holds_version(chains, alloc[i].0, txn, alloc[i].1);
        assert(!holds_version(chains, alloc[i].0, txn, alloc[i].1));
    }
}

} // verus!
