//! Laws of the periodic sweep, said of statuses and heartbeats: which
//! transactions it ends, and what it leaves of them.

use crate::cleanup::{law_dropping_a_write_set_empties_it, lemma_rows_dropped, points_to, Cleanup};
use crate::commit_steps::write_rows;
use crate::gc::{
    all_swept, lemma_stale_ids, lemma_stale_len, stale_ids, stale_swept, swept, swept_count,
    txn_rows,
};
use crate::store::StoreView;
use crate::table::{ascending, lemma_finite_listing, lemma_listed, rows_map, TableKey};
use crate::txn_state::TxnStateRecordView;
use crate::types::TxnStatus;
use crate::wal::WalRecordView;
use vstd::prelude::*;

verus! {

/// The active transactions that were last heard of more than `timeout_secs`
/// before `now`.
pub open spec fn silent_txns(s: StoreView, now: i64, timeout_secs: i64) -> Set<Seq<char>> {
    s.txns.dom().filter(
        |t: Seq<char>|
            s.txns[t].status == TxnStatus::Active && s.txns[t].last_heartbeat_ms + 1000
                * timeout_secs < now,
    )
}

/// The staged writes are finitely many, each under the key that it names.
pub open spec fn writes_in_order(s: StoreView) -> bool {
    &&& s.writes.dom().finite()
    &&& forall|k: (Seq<char>, Seq<char>)| #[trigger]
        s.writes.contains_key(k) ==> s.writes[k].backend_key == k.1
}

/// One active transaction is swept: it alone ends, with its writes.
proof fn lemma_swept_step(m: Cleanup, id: Seq<char>, p: (Seq<char>, Seq<char>), h: Seq<char>)
    requires
        writes_in_order(m.store),
        m.store.txns.contains_key(id),
        m.store.txns[id].status == TxnStatus::Active,
    ensures
        ({
            let a = m.store;
            let b = swept(m, id).store;
            &&& b == (StoreView {
                wal: b.wal,
                last_wal_seq: b.last_wal_seq,
                txns: b.txns,
                writes: b.writes,
                blobs: b.blobs,
                snapshots: b.snapshots,
                ..a
            })
            &&& b.txns == a.txns.insert(
                id,
                TxnStateRecordView { status: TxnStatus::Aborted, ..a.txns[id] },
            )
            &&& b.last_wal_seq == (a.last_wal_seq + 1) as u64
            &&& b.wal == a.wal.insert(
                b.last_wal_seq,
                WalRecordView::Aborted { txn_id: id, reason: "GC: stale txn timeout"@ },
            )
            &&& b.snapshots == a.unpin(a.txns[id].snapshot_version).snapshots
            &&& b.writes.contains_key(p) <==> a.writes.contains_key(p) && p.0 != id
            &&& b.writes.contains_key(p) ==> b.writes[p] == a.writes[p]
            &&& b.blobs.contains_key(h) <==> a.blobs.contains_key(h) && !points_to(a, id, h)
            &&& b.blobs.contains_key(h) ==> b.blobs[h] == a.blobs[h]
            &&& b.writes.dom().subset_of(a.writes.dom())
        }),
{
    let c = Cleanup { store: m.store.with_status(id, TxnStatus::Aborted), ..m };
    let rows = write_rows(m.store, id);
    assert(c.store.write_set(id) == m.store.write_set(id));
    lemma_rows_dropped(c, rows, id, rows.len());
    law_dropping_a_write_set_empties_it(c, id, p, h);
    assert(points_to(c.store, id, h) == points_to(m.store, id, h)) by {
        if points_to(c.store, id, h) {
            let k = choose|k: Seq<char>| #[trigger]
                c.store.writes.contains_key((id, k)) && c.store.writes[(id, k)].body_handle
                    == Some(h);
            assert(m.store.writes.contains_key((id, k)));
        }
        if points_to(m.store, id, h) {
            let k = choose|k: Seq<char>| #[trigger]
                m.store.writes.contains_key((id, k)) && m.store.writes[(id, k)].body_handle
                    == Some(h);
            assert(c.store.writes.contains_key((id, k)));
        }
    }
}

proof fn lemma_swept_in_order(m: Cleanup, id: Seq<char>)
    requires
        writes_in_order(m.store),
    ensures
        writes_in_order(swept(m, id).store),
{
    if m.store.txns.contains_key(id) && m.store.txns[id].status == TxnStatus::Active {
        let b = swept(m, id).store;
        assert forall|k: (Seq<char>, Seq<char>)| #[trigger]
            b.writes.contains_key(k) implies b.writes[k].backend_key == k.1 by {
            lemma_swept_step(m, id, k, Seq::empty());
        }
        lemma_swept_step(m, id, (id, id), Seq::empty());
        vstd::set_lib::lemma_set_subset_finite(m.store.writes.dom(), b.writes.dom());
    }
}

/// The swept ones at a snapshot, among the first `n`.
spec fn swept_at(s: StoreView, ids: Seq<Seq<char>>, snapshot: u64, n: nat) -> nat
    decreases n,
{
    if n == 0 {
        0
    } else {
        swept_at(s, ids, snapshot, (n - 1) as nat) + if s.txns[ids[n - 1]].snapshot_version
            == snapshot {
            1nat
        } else {
            0nat
        }
    }
}

/// Some of the first `n` transactions points to the body.
spec fn any_points_to(s: StoreView, ids: Seq<Seq<char>>, h: Seq<char>, n: nat) -> bool {
    exists|i: int| 0 <= i < n && points_to(s, #[trigger] ids[i], h)
}

/// What the sweep of the first `n` of distinct active transactions leaves.
#[verifier::spinoff_prover]
proof fn lemma_all_swept_leaves(
    k: Cleanup,
    ids: Seq<Seq<char>>,
    n: nat,
    t: Seq<char>,
    p: (Seq<char>, Seq<char>),
    h: Seq<char>,
    snapshot: u64,
)
    requires
        n <= ids.len(),
        ids.no_duplicates(),
        forall|i: int|
            0 <= i < ids.len() ==> k.store.txns.contains_key(#[trigger] ids[i])
                && k.store.txns[ids[i]].status == TxnStatus::Active,
        writes_in_order(k.store),
        k.store.last_wal_seq + ids.len() <= u64::MAX,
    ensures
        ({
            let a = k.store;
            let b = all_swept(k, ids, n).store;
            let hit = ids.take(n as int).contains(t);
            &&& writes_in_order(b)
            &&& b == (StoreView {
                wal: b.wal,
                last_wal_seq: b.last_wal_seq,
                txns: b.txns,
                writes: b.writes,
                blobs: b.blobs,
                snapshots: b.snapshots,
                ..a
            })
            &&& b.txns.contains_key(t) <==> a.txns.contains_key(t)
            &&& hit ==> b.txns[t] == (TxnStateRecordView {
                status: TxnStatus::Aborted,
                ..a.txns[t]
            })
            &&& !hit && a.txns.contains_key(t) ==> b.txns[t] == a.txns[t]
            &&& b.writes.contains_key(p) <==> a.writes.contains_key(p) && !ids.take(
                n as int,
            ).contains(p.0)
            &&& b.writes.contains_key(p) ==> b.writes[p] == a.writes[p]
            &&& b.blobs.contains_key(h) <==> a.blobs.contains_key(h) && !any_points_to(
                a,
                ids,
                h,
                n,
            )
            &&& b.blobs.contains_key(h) ==> b.blobs[h] == a.blobs[h]
            &&& b.last_wal_seq == a.last_wal_seq + n
            &&& forall|q: u64|
                q <= a.last_wal_seq ==> (#[trigger] b.wal.contains_key(q) <==> a.wal.contains_key(q))
                    && (a.wal.contains_key(q) ==> b.wal[q] == a.wal[q])
            &&& forall|i: int|
                #![trigger ids[i]]
                0 <= i < n ==> {
                    let q = (a.last_wal_seq + 1 + i) as u64;
                    b.wal.contains_key(q) && b.wal[q] == (WalRecordView::Aborted {
                        txn_id: ids[i],
                        reason: "GC: stale txn timeout"@,
                    })
                }
            &&& b.pins(snapshot) == if a.pins(snapshot) >= swept_at(a, ids, snapshot, n) {
                a.pins(snapshot) - swept_at(a, ids, snapshot, n)
            } else {
                0
            }
            &&& swept_count(k, ids, n) == n
        }),
    decreases n,
{
    if n > 0 {
        lemma_all_swept_leaves(k, ids, (n - 1) as nat, t, p, h, snapshot);
        let id = ids[n - 1];
        lemma_all_swept_leaves(k, ids, (n - 1) as nat, id, p, h, snapshot);
        let m = all_swept(k, ids, (n - 1) as nat);
        let before = ids.take(n - 1);
        let after = ids.take(n as int);
        assert(after =~= before.push(id));
        assert(!before.contains(id)) by {
            if before.contains(id) {
                let j = choose|j: int| 0 <= j < before.len() && before[j] == id;
                assert(ids[j] == ids[n - 1]);
            }
        }
        assert(after.contains(t) <==> before.contains(t) || t == id) by {
            lemma_push_has(before, id, t);
        }
        assert(after.contains(p.0) <==> before.contains(p.0) || p.0 == id) by {
            lemma_push_has(before, id, p.0);
        }
        assert(k.store.txns.contains_key(ids[n - 1]));
        lemma_swept_step(m, id, p, h);
        lemma_swept_in_order(m, id);
        assert(points_to(m.store, id, h) == points_to(k.store, id, h)) by {
            lemma_points_kept(k, ids, (n - 1) as nat, id, h);
        }
        assert(any_points_to(k.store, ids, h, n) <==> any_points_to(
            k.store,
            ids,
            h,
            (n - 1) as nat,
        ) || points_to(k.store, id, h));
    }
}

proof fn lemma_push_has(s: Seq<Seq<char>>, x: Seq<char>, t: Seq<char>)
    ensures
        s.push(x).contains(t) <==> s.contains(t) || t == x,
{
    if s.contains(t) {
        let i = choose|i: int| 0 <= i < s.len() && s[i] == t;
        assert(s.push(x)[i] == t);
    }
    if t == x {
        assert(s.push(x)[s.len() as int] == t);
    }
}

/// The writes of a transaction that is not among the first `n` are untouched.
proof fn lemma_points_kept(k: Cleanup, ids: Seq<Seq<char>>, n: nat, id: Seq<char>, h: Seq<char>)
    requires
        n <= ids.len(),
        writes_in_order(k.store),
        !ids.take(n as int).contains(id),
    ensures
        points_to(all_swept(k, ids, n).store, id, h) == points_to(k.store, id, h),
        writes_in_order(all_swept(k, ids, n).store),
    decreases n,
{
    if n > 0 {
        let last = ids[n - 1];
        let m = all_swept(k, ids, (n - 1) as nat);
        let before = ids.take(n - 1);
        assert(ids.take(n as int) =~= before.push(last));
        lemma_push_has(before, last, id);
        lemma_points_kept(k, ids, (n - 1) as nat, id, h);
        lemma_swept_in_order(m, last);
        if m.store.txns.contains_key(last) && m.store.txns[last].status == TxnStatus::Active {
            let b = swept(m, last);
            if points_to(m.store, id, h) {
                let x = choose|x: Seq<char>| #[trigger]
                    m.store.writes.contains_key((id, x)) && m.store.writes[(id, x)].body_handle
                        == Some(h);
                lemma_swept_step(m, last, (id, x), h);
                assert(b.store.writes.contains_key((id, x)));
            }
            if points_to(b.store, id, h) {
                let x = choose|x: Seq<char>| #[trigger]
                    b.store.writes.contains_key((id, x)) && b.store.writes[(id, x)].body_handle
                        == Some(h);
                lemma_swept_step(m, last, (id, x), h);
                assert(m.store.writes.contains_key((id, x)));
            }
        }
    }
}

/// The ids that a sweep picks are those of the silent transactions, each once.
proof fn lemma_picked(s: StoreView, now: i64, timeout_secs: i64, t: Seq<char>)
    requires
        s.txns.dom().finite(),
    ensures
        ({
            let rows = txn_rows(s);
            let ids = stale_ids(rows, now, timeout_secs, rows.len());
            &&& ids.contains(t) <==> silent_txns(s, now, timeout_secs).contains(t)
            &&& ids.no_duplicates()
            &&& ids.len() <= rows.len()
        }),
{
    let rows = txn_rows(s);
    let ids = stale_ids(rows, now, timeout_secs, rows.len());
    lemma_finite_listing::<String, TxnStateRecordView>(s.txns);
    lemma_stale_ids(rows, now, timeout_secs, rows.len(), t);
    lemma_stale_len(rows, now, timeout_secs, rows.len());
    lemma_picked_once(rows, now, timeout_secs, rows.len());
    if ids.contains(t) {
        let i = choose|i: int|
            0 <= i < rows.len() && (#[trigger] rows[i]).0 == t && crate::gc::stale(
                rows[i].1,
                now,
                timeout_secs,
            );
        lemma_listed::<String, TxnStateRecordView>(rows, i);
    }
    if s.txns.contains_key(t) {
        assert(rows_map(rows).contains_key(t));
        let i = choose|i: int| 0 <= i < rows.len() && (#[trigger] rows[i]).0 == t;
        lemma_listed::<String, TxnStateRecordView>(rows, i);
    }
}

proof fn lemma_picked_once(
    rows: Seq<(Seq<char>, TxnStateRecordView)>,
    now: i64,
    timeout_secs: i64,
    n: nat,
)
    requires
        n <= rows.len(),
        ascending::<String, TxnStateRecordView>(rows),
    ensures
        stale_ids(rows, now, timeout_secs, n).no_duplicates(),
    decreases n,
{
    if n > 0 {
        lemma_picked_once(rows, now, timeout_secs, (n - 1) as nat);
        lemma_stale_ids(rows, now, timeout_secs, (n - 1) as nat, rows[n - 1].0);
        let done = stale_ids(rows, now, timeout_secs, (n - 1) as nat);
        let all = stale_ids(rows, now, timeout_secs, n);
        if done.contains(rows[n - 1].0) {
            let i = choose|i: int| 0 <= i < n - 1 && (#[trigger] rows[i]).0 == rows[n - 1].0;
            assert(String::before(rows[i].0, rows[n - 1].0));
            String::lemma_irreflexive(rows[i].0);
        }
        assert forall|i: int, j: int| 0 <= i < all.len() && 0 <= j < all.len() && i != j implies all[i]
            != all[j] by {
            if i < done.len() && j < done.len() {
                assert(done[i] != done[j]);
            } else if i < done.len() {
                assert(done.contains(done[i]));
            } else if j < done.len() {
                assert(done.contains(done[j]));
            }
        }
    }
}

/// After a sweep, every transaction that was active and silent for longer than
/// the timeout is aborted and has no staged write left, whatever it had read or
/// written. Every other transaction is as it was, with all its staged writes.
pub proof fn law_sweep_ends_the_silent_and_no_other(
    k: Cleanup,
    now: i64,
    timeout_secs: i64,
    txn: Seq<char>,
    key: Seq<char>,
)
    requires
        k.store.txns.dom().finite(),
        k.store.writes.dom().finite(),
        forall|p: (Seq<char>, Seq<char>)| #[trigger]
            k.store.writes.contains_key(p) ==> k.store.writes[p].backend_key == p.1,
        k.store.last_wal_seq + txn_rows(k.store).len() <= u64::MAX,
        k.store.txns.contains_key(txn),
    ensures
        ({
            let t = k.store.txns[txn];
            let n = stale_swept(k, now, timeout_secs).0.store;
            let silent = t.status == TxnStatus::Active && t.last_heartbeat_ms < now - 1000
                * timeout_secs;
            &&& n.txns.contains_key(txn)
            &&& silent ==> n.txns[txn].status == TxnStatus::Aborted && !n.writes.contains_key(
                (txn, key),
            )
            &&& !silent ==> n.txns[txn] == t && (n.writes.contains_key((txn, key))
                <==> k.store.writes.contains_key((txn, key)))
            &&& n.writes.contains_key((txn, key)) ==> n.writes[(txn, key)]
                == k.store.writes[(txn, key)]
            &&& n.txns[txn].snapshot_version == t.snapshot_version
            &&& n.txns[txn].last_heartbeat_ms == t.last_heartbeat_ms
            &&& n.txns[txn].read_keys == t.read_keys
            &&& n.txns[txn].write_keys == t.write_keys
            &&& n.txns[txn].alloc_versions == t.alloc_versions
        }),
{
    let rows = txn_rows(k.store);
    let ids = stale_ids(rows, now, timeout_secs, rows.len());
    lemma_picked(k.store, now, timeout_secs, txn);
    assert forall|i: int| 0 <= i < ids.len() implies k.store.txns.contains_key(#[trigger] ids[i])
        && k.store.txns[ids[i]].status == TxnStatus::Active by {
        assert(ids.contains(ids[i]));
        lemma_picked(k.store, now, timeout_secs, ids[i]);
    }
    assert(ids.take(ids.len() as int) =~= ids);
    lemma_all_swept_leaves(k, ids, ids.len(), txn, (txn, key), Seq::empty(), 0);
}

/// Of distinct ids, as many are counted as a set of them has members.
proof fn lemma_swept_at(s: StoreView, ids: Seq<Seq<char>>, snapshot: u64, n: nat)
    requires
        n <= ids.len(),
        ids.no_duplicates(),
    ensures
        ids.take(n as int).to_set().finite(),
        swept_at(s, ids, snapshot, n) == ids.take(n as int).to_set().filter(
            |t: Seq<char>| s.txns[t].snapshot_version == snapshot,
        ).len(),
    decreases n,
{
    let at = |t: Seq<char>| s.txns[t].snapshot_version == snapshot;
    let all = ids.take(n as int).to_set();
    vstd::seq_lib::seq_to_set_is_finite(ids.take(n as int));
    if n > 0 {
        lemma_swept_at(s, ids, snapshot, (n - 1) as nat);
        let id = ids[n - 1];
        let before = ids.take(n - 1);
        assert(ids.take(n as int) =~= before.push(id));
        assert forall|t: Seq<char>| all.contains(t) <==> #[trigger] before.to_set().contains(t)
            || t == id by {
            lemma_push_has(before, id, t);
        }
        assert(!before.contains(id)) by {
            if before.contains(id) {
                let j = choose|j: int| 0 <= j < before.len() && before[j] == id;
                assert(ids[j] == ids[n - 1]);
            }
        }
        let old_at = before.to_set().filter(at);
        before.to_set().lemma_len_filter(at);
        if at(id) {
            assert forall|t: Seq<char>| #[trigger] all.filter(at).contains(t) <==> old_at.insert(
                id,
            ).contains(t) by {
                assert(all.contains(t) <==> before.to_set().contains(t) || t == id);
                assert(old_at.contains(t) <==> before.to_set().contains(t) && at(t));
            }
            assert(all.filter(at) =~= old_at.insert(id));
            assert(!old_at.contains(id));
        } else {
            assert(all.filter(at) =~= old_at);
        }
    } else {
        assert(all =~= Set::empty());
        assert(all.filter(at) =~= Set::empty());
    }
}

/// A sweep counts the transactions that it ends, writes one record of the
/// abort of each to the log, which keeps what it held, and releases one pin per
/// ended transaction. Bodies leave exactly where an ended transaction points to
/// them. Versions, records, chunks and chains stay.
pub proof fn law_sweep_accounts_for_what_it_ends(
    k: Cleanup,
    now: i64,
    timeout_secs: i64,
    txn: Seq<char>,
    handle: Seq<char>,
    snapshot: u64,
)
    requires
        k.store.txns.dom().finite(),
        k.store.writes.dom().finite(),
        forall|p: (Seq<char>, Seq<char>)| #[trigger]
            k.store.writes.contains_key(p) ==> k.store.writes[p].backend_key == p.1,
        k.store.last_wal_seq + txn_rows(k.store).len() <= u64::MAX,
    ensures
        ({
            let a = k.store;
            let (m, count) = stale_swept(k, now, timeout_secs);
            let b = m.store;
            let silent = silent_txns(a, now, timeout_secs);
            let freed = silent.filter(|t: Seq<char>| a.txns[t].snapshot_version == snapshot).len();
            &&& count == silent.len()
            &&& b.txns.dom() == a.txns.dom()
            &&& b.last_wal_seq == a.last_wal_seq + count
            &&& silent.contains(txn) ==> exists|q: u64|
                a.last_wal_seq < q <= b.last_wal_seq && #[trigger] b.wal.contains_key(q) && b.wal[q]
                    == (WalRecordView::Aborted {
                    txn_id: txn,
                    reason: "GC: stale txn timeout"@,
                })
            &&& forall|q: u64|
                q <= a.last_wal_seq ==> (#[trigger] b.wal.contains_key(q) <==> a.wal.contains_key(q))
                    && (a.wal.contains_key(q) ==> b.wal[q] == a.wal[q])
            &&& b.pins(snapshot) == if a.pins(snapshot) >= freed {
                a.pins(snapshot) - freed
            } else {
                0
            }
            &&& a.blobs.contains_key(handle) ==> (!b.blobs.contains_key(handle) <==> exists|
                t: Seq<char>,
            |
                silent.contains(t) && #[trigger] points_to(a, t, handle))
            &&& b.blobs.contains_key(handle) ==> a.blobs.contains_key(handle) && b.blobs[handle]
                == a.blobs[handle]
            &&& b.chains == a.chains
            &&& b.versions == a.versions
            &&& b.records == a.records
            &&& b.record_versions == a.record_versions
            &&& b.chunks == a.chunks
            &&& b.schemas == a.schemas
            &&& b.multipart == a.multipart
            &&& b.global_version == a.global_version
            &&& b.last_flushed_seq == a.last_flushed_seq
        }),
{
    let a = k.store;
    let rows = txn_rows(a);
    let ids = stale_ids(rows, now, timeout_secs, rows.len());
    let silent = silent_txns(a, now, timeout_secs);
    let b = stale_swept(k, now, timeout_secs).0.store;
    lemma_picked(a, now, timeout_secs, txn);
    assert forall|i: int| 0 <= i < ids.len() implies a.txns.contains_key(#[trigger] ids[i])
        && a.txns[ids[i]].status == TxnStatus::Active by {
        assert(ids.contains(ids[i]));
        lemma_picked(a, now, timeout_secs, ids[i]);
    }
    assert(ids.take(ids.len() as int) =~= ids);
    lemma_all_swept_leaves(k, ids, ids.len(), txn, (txn, txn), handle, snapshot);
    assert forall|t: Seq<char>| b.txns.contains_key(t) <==> #[trigger] a.txns.contains_key(t) by {
        lemma_all_swept_leaves(k, ids, ids.len(), t, (txn, txn), handle, snapshot);
    }
    assert(b.txns.dom() =~= a.txns.dom());
    assert forall|t: Seq<char>| ids.to_set().contains(t) <==> #[trigger] silent.contains(t) by {
        lemma_picked(a, now, timeout_secs, t);
    }
    assert(ids.to_set() =~= silent);
    ids.unique_seq_to_set();
    lemma_swept_at(a, ids, snapshot, ids.len());
    if silent.contains(txn) {
        let i = choose|i: int| 0 <= i < ids.len() && ids[i] == txn;
        let q = (a.last_wal_seq + 1 + i) as u64;
        assert(ids[i] == txn);
        assert(b.wal.contains_key(q));
    }
    if any_points_to(a, ids, handle, ids.len()) {
        let i = choose|i: int| 0 <= i < ids.len() && points_to(a, #[trigger] ids[i], handle);
        assert(ids.to_set().contains(ids[i]));
        assert(points_to(a, ids[i], handle));
    }
    if exists|t: Seq<char>| silent.contains(t) && #[trigger] points_to(a, t, handle) {
        let t = choose|t: Seq<char>| silent.contains(t) && #[trigger] points_to(a, t, handle);
        assert(ids.contains(t));
        let i = choose|i: int| 0 <= i < ids.len() && ids[i] == t;
        assert(points_to(a, ids[i], handle));
    }
}

} // verus!
