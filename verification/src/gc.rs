//! Periodic collection: abort stale transactions, drop their staged bodies,
//! and prune version chains below the least active snapshot.

use crate::cleanup::{cleanup_of, drop_rows, lemma_rows_dropped, Cleanup};
use crate::commit_steps::write_rows;
use crate::outside::now_ms;
use crate::store::{min_snapshot, LocalStore, StoreView};
use crate::store_chains::{after_gc, chain_at, chain_bound, gc_counts};
use crate::store_laws::law_gc_keeps_newest;
use crate::table::{
    lemma_finite_listing, lemma_listed, lemma_listing, listing, pair_views, rows_map,
};
use crate::text::texts;
use crate::txn_laws::{lemma_ended, running_at, sound};
use crate::txn_state::{TxnStateRecord, TxnStateRecordView, WriteSetEntryView};
use crate::types::TxnStatus;
use crate::version_chain::{lemma_prune_count, prune_count, strictly_ascending};
use crate::wal::{WalRecord, WalRecordView};
use vstd::prelude::*;

verus! {

/// Result of a combined sweep.
#[derive(Debug, Clone, Copy, PartialEq, Eq, Structural)]
pub struct CombinedSweep {
    pub aborted_txns: usize,
    pub chains_pruned: usize,
    pub entries_removed: usize,
}

/// The transaction is active and was last heard of before the cutoff.
pub open spec fn stale(t: TxnStateRecordView, now: i64, timeout_secs: i64) -> bool {
    t.status == TxnStatus::Active && t.last_heartbeat_ms < now - timeout_secs * 1000
}

/// Ids of the stale ones among the first `n` transactions.
pub open spec fn stale_ids(
    rows: Seq<(Seq<char>, TxnStateRecordView)>,
    now: i64,
    timeout_secs: i64,
    n: nat,
) -> Seq<Seq<char>>
    decreases n,
{
    if n == 0 {
        Seq::empty()
    } else {
        let done = stale_ids(rows, now, timeout_secs, (n - 1) as nat);
        if stale(rows[n - 1].1, now, timeout_secs) {
            done.push(rows[n - 1].0)
        } else {
            done
        }
    }
}

/// States of the transactions, in the order of their ids.
pub open spec fn txn_rows(s: StoreView) -> Seq<(Seq<char>, TxnStateRecordView)> {
    listing::<String, TxnStateRecordView>(s.txns)
}

/// The transaction can be aborted by a sweep.
pub open spec fn can_sweep(s: StoreView, txn: Seq<char>) -> bool {
    s.txns.contains_key(txn) && s.txns[txn].status == TxnStatus::Active
}

/// An active transaction is aborted by a sweep; any other is left alone.
pub open spec fn swept(k: Cleanup, txn: Seq<char>) -> Cleanup {
    if !can_sweep(k.store, txn) {
        k
    } else {
        let rows = write_rows(k.store, txn);
        let d = Cleanup {
            store: k.store.with_status(txn, TxnStatus::Aborted),
            ..k
        }.rows_dropped(rows, txn, rows.len());
        Cleanup {
            store: d.store.log(
                WalRecordView::Aborted { txn_id: txn, reason: "GC: stale txn timeout"@ },
            ).unpin(k.store.txns[txn].snapshot_version),
            ..d
        }
    }
}

/// The first `n` transactions are swept.
pub open spec fn all_swept(k: Cleanup, ids: Seq<Seq<char>>, n: nat) -> Cleanup
    decreases n,
{
    if n == 0 {
        k
    } else {
        swept(all_swept(k, ids, (n - 1) as nat), ids[n - 1])
    }
}

/// Number of the first `n` transactions that a sweep aborts.
pub open spec fn swept_count(k: Cleanup, ids: Seq<Seq<char>>, n: nat) -> nat
    decreases n,
{
    if n == 0 {
        0
    } else {
        swept_count(k, ids, (n - 1) as nat) + if can_sweep(
            all_swept(k, ids, (n - 1) as nat).store,
            ids[n - 1],
        ) {
            1nat
        } else {
            0nat
        }
    }
}

/// State and count after all stale transactions are swept.
pub open spec fn stale_swept(k: Cleanup, now: i64, timeout_secs: i64) -> (Cleanup, nat) {
    let rows = txn_rows(k.store);
    let ids = stale_ids(rows, now, timeout_secs, rows.len());
    (all_swept(k, ids, ids.len()), swept_count(k, ids, ids.len()))
}

/// No more transactions are picked than there are.
pub proof fn lemma_stale_len(
    rows: Seq<(Seq<char>, TxnStateRecordView)>,
    now: i64,
    timeout_secs: i64,
    n: nat,
)
    ensures
        stale_ids(rows, now, timeout_secs, n).len() <= n,
    decreases n,
{
    if n > 0 {
        lemma_stale_len(rows, now, timeout_secs, (n - 1) as nat);
    }
}

proof fn lemma_swept_bounds(k: Cleanup, ids: Seq<Seq<char>>, n: nat)
    requires
        k.store.last_wal_seq + n <= u64::MAX,
    ensures
        all_swept(k, ids, n).store.last_wal_seq <= k.store.last_wal_seq + n,
        swept_count(k, ids, n) <= n,
    decreases n,
{
    if n > 0 {
        lemma_swept_bounds(k, ids, (n - 1) as nat);
        let m = all_swept(k, ids, (n - 1) as nat);
        let a = Cleanup { store: m.store.with_status(ids[n - 1], TxnStatus::Aborted), ..m };
        let rows = write_rows(m.store, ids[n - 1]);
        lemma_rows_dropped(a, rows, ids[n - 1], rows.len());
    }
}

/// Aborts a transaction if it is active. Returns whether it was.
pub fn abort_txn_local(store: &mut LocalStore, garbage: &mut Vec<String>, txn_id: &str) -> (r: bool)
    requires
        old(store)@.last_wal_seq < u64::MAX,
    ensures
        r == can_sweep(old(store)@, txn_id@),
        cleanup_of(*final(store), *final(garbage)) == swept(
            cleanup_of(*old(store), *old(garbage)),
            txn_id@,
        ),
{
    let state = match store.get_txn_state(txn_id) {
        Some(s) => s,
        None => {
            return false;
        },
    };
    if state.status != TxnStatus::Active || !store.compare_and_set_txn_status(
        txn_id,
        TxnStatus::Active,
        TxnStatus::Aborted,
    ) {
        return false;
    }
    let rows = store.iter_write_set(txn_id);
    proof {
        lemma_listing::<String, WriteSetEntryView>(
            pair_views(rows@),
            store@.write_set(txn_id@),
        );
        assert(store@.writes == old(store)@.writes);
        lemma_rows_dropped(
            cleanup_of(*store, *garbage),
            pair_views(rows@),
            txn_id@,
            rows@.len(),
        );
    }
    drop_rows(store, garbage, &rows, txn_id);
    store.append_wal(
        &WalRecord::Aborted {
            txn_id: txn_id.to_owned(),
            reason: "GC: stale txn timeout".to_owned(),
        },
    );
    store.unregister_snapshot(state.snapshot_version);
    true
}

/// Whether the transaction is stale.
pub fn is_stale(t: &TxnStateRecord, now_ms: i64, timeout_secs: i64) -> (r: bool)
    ensures
        r == stale(t@, now_ms, timeout_secs),
{
    let cutoff: i128 = now_ms as i128 - timeout_secs as i128 * 1000;
    t.status == TxnStatus::Active && (t.last_heartbeat_ms as i128) < cutoff
}

/// Aborts, at the given time, all active transactions that were last heard of
/// more than `timeout_secs` ago. Returns how many there were. Paths of spill
/// files that are no longer needed are added to `garbage`.
pub fn sweep_stale_txns_at(
    store: &mut LocalStore,
    garbage: &mut Vec<String>,
    timeout_secs: i64,
    now_ms: i64,
) -> (r: usize)
    requires
        old(store)@.last_wal_seq + txn_rows(old(store)@).len() <= u64::MAX,
    ensures
        (cleanup_of(*final(store), *final(garbage)), r as nat) == stale_swept(
            cleanup_of(*old(store), *old(garbage)),
            now_ms,
            timeout_secs,
        ),
{
    let ghost k = cleanup_of(*store, *garbage);
    let rows = store.txns.list();
    let ghost views = pair_views(rows@);
    proof {
        lemma_listing::<String, TxnStateRecordView>(views, store@.txns);
    }
    let mut ids: Vec<String> = Vec::new();
    let mut i: usize = 0;
    assert(texts(ids@) =~= Seq::empty());
    while i < rows.len()
        invariant
            i <= rows.len(),
            views == pair_views(rows@),
            texts(ids@) == stale_ids(views, now_ms, timeout_secs, i as nat),
        decreases rows.len() - i,
    {
        assert(views[i as int] == (rows@[i as int].0@, rows@[i as int].1@));
        if is_stale(&rows[i].1, now_ms, timeout_secs) {
            let ghost before = texts(ids@);
            ids.push(rows[i].0.clone());
            assert(texts(ids@) =~= before.push(rows@[i as int].0@));
        }
        i += 1;
    }
    let ghost names = texts(ids@);
    proof {
        lemma_stale_len(views, now_ms, timeout_secs, views.len());
        assert(names.len() == ids@.len());
    }
    let mut aborted: usize = 0;
    let mut j: usize = 0;
    while j < ids.len()
        invariant
            j <= ids.len(),
            names == texts(ids@),
            k.store.last_wal_seq + ids@.len() <= u64::MAX,
            cleanup_of(*store, *garbage) == all_swept(k, names, j as nat),
            aborted == swept_count(k, names, j as nat),
        decreases ids.len() - j,
    {
        proof {
            assert(names[j as int] == ids@[j as int]@);
            lemma_swept_bounds(k, names, j as nat);
        }
        if abort_txn_local(store, garbage, ids[j].as_str()) {
            aborted = aborted + 1;
        }
        j += 1;
    }
    aborted
}

/// Aborts all active transactions that were last heard of more than
/// `timeout_secs` ago. Returns how many there were. Paths of spill files that
/// are no longer needed are added to `garbage`.
pub fn sweep_stale_txns(store: &mut LocalStore, garbage: &mut Vec<String>, timeout_secs: i64) -> (r:
    usize)
    requires
        old(store)@.last_wal_seq + txn_rows(old(store)@).len() <= u64::MAX,
    ensures
        exists|now: i64|
            (cleanup_of(*final(store), *final(garbage)), r as nat) == #[trigger] stale_swept(
                cleanup_of(*old(store), *old(garbage)),
                now,
                timeout_secs,
            ),
{
    let now = now_ms();
    sweep_stale_txns_at(store, garbage, timeout_secs, now)
}

/// Prunes version chains and record history below the least active snapshot.
/// Returns the number of chains visited and of chain entries removed.
pub fn gc_version_chains(store: &mut LocalStore) -> (r: (usize, usize))
    ensures
        final(store)@ == after_gc(old(store)@, None),
        gc_counts(old(store)@, None, r),
{
    store.gc_chains_at_active_snapshot()
}

/// One combined sweep at the given time: stale transactions, then chains.
pub fn sweep_all_at(
    store: &mut LocalStore,
    garbage: &mut Vec<String>,
    txn_timeout_secs: i64,
    now_ms: i64,
) -> (r: CombinedSweep)
    requires
        old(store)@.last_wal_seq + txn_rows(old(store)@).len() <= u64::MAX,
    ensures
        ({
            let (k, n) = stale_swept(
                cleanup_of(*old(store), *old(garbage)),
                now_ms,
                txn_timeout_secs,
            );
            &&& r.aborted_txns == n
            &&& cleanup_of(*final(store), *final(garbage)) == (Cleanup {
                store: after_gc(k.store, None),
                ..k
            })
            &&& gc_counts(k.store, None, (r.chains_pruned, r.entries_removed))
        }),
{
    let aborted_txns = sweep_stale_txns_at(store, garbage, txn_timeout_secs, now_ms);
    let (chains_pruned, entries_removed) = gc_version_chains(store);
    CombinedSweep { aborted_txns, chains_pruned, entries_removed }
}

/// One combined sweep: stale transactions, then chains.
pub fn sweep_all(store: &mut LocalStore, garbage: &mut Vec<String>, txn_timeout_secs: i64) -> (r:
    CombinedSweep)
    requires
        old(store)@.last_wal_seq + txn_rows(old(store)@).len() <= u64::MAX,
    ensures
        exists|now: i64|
            {
                let (k, n) = #[trigger] stale_swept(
                    cleanup_of(*old(store), *old(garbage)),
                    now,
                    txn_timeout_secs,
                );
                &&& r.aborted_txns == n
                &&& cleanup_of(*final(store), *final(garbage)) == (Cleanup {
                    store: after_gc(k.store, None),
                    ..k
                })
                &&& gc_counts(k.store, None, (r.chains_pruned, r.entries_removed))
            },
{
    let now = now_ms();
    let ghost k = cleanup_of(*store, *garbage);
    let r = sweep_all_at(store, garbage, txn_timeout_secs, now);
    assert(stale_swept(k, now, txn_timeout_secs).1 == r.aborted_txns);
    r
}

// ----- laws -----

/// The picked ids are those of the stale rows.
pub proof fn lemma_stale_ids(
    rows: Seq<(Seq<char>, TxnStateRecordView)>,
    now: i64,
    timeout_secs: i64,
    n: nat,
    id: Seq<char>,
)
    requires
        n <= rows.len(),
    ensures
        stale_ids(rows, now, timeout_secs, n).contains(id) <==> exists|i: int|
            0 <= i < n && (#[trigger] rows[i]).0 == id && stale(rows[i].1, now, timeout_secs),
    decreases n,
{
    if n > 0 {
        lemma_stale_ids(rows, now, timeout_secs, (n - 1) as nat, id);
        let done = stale_ids(rows, now, timeout_secs, (n - 1) as nat);
        let all = stale_ids(rows, now, timeout_secs, n);
        if done.contains(id) {
            let j = choose|j: int| 0 <= j < done.len() && done[j] == id;
            assert(all[j] == id);
        }
        if stale(rows[n - 1].1, now, timeout_secs) && rows[n - 1].0 == id {
            assert(all[done.len() as int] == id);
        }
        if all.contains(id) {
            let j = choose|j: int| 0 <= j < all.len() && all[j] == id;
            if j < done.len() {
                assert(done[j] == id);
                assert(done.contains(id));
            } else {
                assert(rows[n - 1].0 == id);
            }
        }
    }
}

proof fn lemma_all_swept(k: Cleanup, ids: Seq<Seq<char>>, n: nat, t: Seq<char>)
    requires
        n <= ids.len(),
    ensures
        ({
            let s = all_swept(k, ids, n).store;
            &&& s.chains == k.store.chains
            &&& s.versions == k.store.versions
            &&& s.global_version == k.store.global_version
            &&& s.txns.contains_key(t) <==> k.store.txns.contains_key(t)
            &&& !ids.take(n as int).contains(t) && k.store.txns.contains_key(t) ==> s.txns[t]
                == k.store.txns[t]
            &&& ids.take(n as int).contains(t) && can_sweep(k.store, t) ==> s.txns[t].status
                == TxnStatus::Aborted
            &&& k.store.txns.contains_key(t) && k.store.txns[t].status != TxnStatus::Active
                ==> s.txns[t] == k.store.txns[t]
            &&& k.store.txns.contains_key(t) ==> s.txns[t] == k.store.txns[t] || s.txns[t]
                == (TxnStateRecordView { status: TxnStatus::Aborted, ..k.store.txns[t] })
        }),
    decreases n,
{
    if n > 0 {
        lemma_all_swept(k, ids, (n - 1) as nat, t);
        let m = all_swept(k, ids, (n - 1) as nat);
        let id = ids[n - 1];
        let a = Cleanup { store: m.store.with_status(id, TxnStatus::Aborted), ..m };
        let rows = write_rows(m.store, id);
        lemma_rows_dropped(a, rows, id, rows.len());
        let before = ids.take(n - 1);
        let after = ids.take(n as int);
        assert(after =~= before.push(id));
        if before.contains(t) {
            let j = choose|j: int| 0 <= j < before.len() && before[j] == t;
            assert(after[j] == t);
        }
        if id == t {
            assert(after[n - 1] == t);
        }
        if after.contains(t) && id != t {
            let j = choose|j: int| 0 <= j < after.len() && after[j] == t;
            assert(before[j] == t);
        }
    }
}

/// A sweep aborts exactly the stale transactions: every transaction that is
/// active and was last heard of before the cutoff ends, and every other one is
/// as it was. It changes no chain and no version.
pub proof fn law_sweep_aborts_exactly_the_stale(
    k: Cleanup,
    now: i64,
    timeout_secs: i64,
    txn: Seq<char>,
)
    requires
        k.store.txns.contains_key(txn),
        k.store.txns.dom().finite(),
    ensures
        ({
            let s = stale_swept(k, now, timeout_secs).0.store;
            let t = k.store.txns[txn];
            &&& s.chains == k.store.chains
            &&& s.versions == k.store.versions
            &&& s.global_version == k.store.global_version
            &&& s.txns.contains_key(txn)
            &&& s.txns[txn] == if stale(t, now, timeout_secs) {
                TxnStateRecordView { status: TxnStatus::Aborted, ..t }
            } else {
                t
            }
        }),
{
    let rows = txn_rows(k.store);
    lemma_finite_listing::<String, TxnStateRecordView>(k.store.txns);
    let ids = stale_ids(rows, now, timeout_secs, rows.len());
    lemma_stale_ids(rows, now, timeout_secs, rows.len(), txn);
    lemma_all_swept(k, ids, ids.len(), txn);
    assert(ids.take(ids.len() as int) =~= ids);
    assert(rows_map(rows).contains_key(txn));
    let i = choose|i: int| 0 <= i < rows.len() && (#[trigger] rows[i]).0 == txn;
    lemma_listed::<String, TxnStateRecordView>(rows, i);
    assert(rows[i].1 == k.store.txns[txn]);
    if exists|j: int|
        0 <= j < rows.len() && (#[trigger] rows[j]).0 == txn && stale(
            rows[j].1,
            now,
            timeout_secs,
        ) {
        let j = choose|j: int|
            0 <= j < rows.len() && (#[trigger] rows[j]).0 == txn && stale(
                rows[j].1,
                now,
                timeout_secs,
            );
        lemma_listed::<String, TxnStateRecordView>(rows, j);
    }
}

/// A sweep keeps the store sound.
pub proof fn law_sweep_keeps_soundness(k: Cleanup, now: i64, timeout_secs: i64)
    requires
        sound(k.store),
        k.store.last_wal_seq + txn_rows(k.store).len() <= u64::MAX,
    ensures
        sound(stale_swept(k, now, timeout_secs).0.store),
{
    let rows = txn_rows(k.store);
    lemma_stale_len(rows, now, timeout_secs, rows.len());
    let ids = stale_ids(rows, now, timeout_secs, rows.len());
    lemma_all_swept_sound(k, ids, ids.len());
}

proof fn lemma_all_swept_sound(k: Cleanup, ids: Seq<Seq<char>>, n: nat)
    requires
        sound(k.store),
        n <= ids.len(),
        k.store.last_wal_seq + n <= u64::MAX,
    ensures
        sound(all_swept(k, ids, n).store),
    decreases n,
{
    if n > 0 {
        lemma_all_swept_sound(k, ids, (n - 1) as nat);
        lemma_swept_bounds(k, ids, (n - 1) as nat);
        let m = all_swept(k, ids, (n - 1) as nat);
        let id = ids[n - 1];
        if can_sweep(m.store, id) {
            let a = Cleanup { store: m.store.with_status(id, TxnStatus::Aborted), ..m };
            let rows = write_rows(m.store, id);
            lemma_rows_dropped(a, rows, id, rows.len());
            let s = swept(m, id).store;
            assert(s.txns =~= m.store.txns.insert(id, s.txns[id]));
            lemma_ended(m.store, s, id);
        }
    }
}

/// Collection keeps the store sound.
pub proof fn law_gc_keeps_soundness(s: StoreView, requested: Option<u64>)
    requires
        sound(s),
    ensures
        sound(after_gc(s, requested)),
{
    let n = after_gc(s, requested);
    let active = min_snapshot(s.snapshots);
    assert forall|k: Seq<char>| strictly_ascending(#[trigger] chain_at(n.chains, k).entries) by {
        law_gc_keeps_newest(s, requested, k);
    }
    assert forall|k: Seq<char>, i: int|
        0 <= i < chain_at(n.chains, k).entries.len() implies (#[trigger] chain_at(
        n.chains,
        k,
    ).entries[i]).commit_version <= n.global_version by {
        let a = chain_at(s.chains, k).entries;
        let bound = chain_bound(a, active, requested);
        let c = prune_count(a, bound);
        lemma_prune_count(a, bound);
        assert(chain_at(n.chains, k).entries[i] == chain_at(s.chains, k).entries[i + c]);
    }
    assert forall|snapshot: u64| #[trigger] running_at(n, snapshot).len() <= n.pins(snapshot) by {
        assert(running_at(n, snapshot) =~= running_at(s, snapshot));
        assert(running_at(s, snapshot).len() <= s.pins(snapshot));
    }
}

} // verus!
