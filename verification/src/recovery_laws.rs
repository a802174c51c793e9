//! Laws of crash recovery, said of the log and the chains: how each
//! transaction ends, and what is left of it.

use crate::cleanup::{law_dropping_a_write_set_empties_it, lemma_rows_dropped, Cleanup};
use crate::commit_steps::write_rows;
use crate::outcome_laws::{holds_version, lemma_holds_version};
use crate::recovery::{
    all_settled, log_states, named_count, named_published, recovered, report_counts, settled,
    settled_counts, settlement, state_rows, LogStateView, RecoveryReport, Settlement,
};
use crate::store::{log_rows, StoreView};
use crate::sweep_laws::writes_in_order;
use crate::table::{ascending, lemma_finite_listing, lemma_listed, rows_map, TableKey};
use crate::txn_state::TxnStateRecordView;
use crate::types::TxnStatus;
use crate::wal::WalRecordView;
use vstd::prelude::*;

verus! {

// ----- what the log says -----

/// The record is one of the transaction.
pub open spec fn names(rec: WalRecordView, txn: Seq<char>) -> bool {
    match rec {
        WalRecordView::Begin { txn_id, .. } => txn_id == txn,
        WalRecordView::Stage { txn_id, .. } => txn_id == txn,
        WalRecordView::CahillEdge { txn_id, .. } => txn_id == txn,
        WalRecordView::Committing { txn_id, .. } => txn_id == txn,
        WalRecordView::Committed { txn_id, .. } => txn_id == txn,
        WalRecordView::CommitResult { txn_id, .. } => txn_id == txn,
        WalRecordView::Commit { txn_id, .. } => txn_id == txn,
        WalRecordView::Aborted { txn_id, .. } => txn_id == txn,
        WalRecordView::MemtableFlushed { .. } => false,
    }
}

/// The record says that the transaction has ended.
pub open spec fn ends(rec: WalRecordView, txn: Seq<char>) -> bool {
    match rec {
        WalRecordView::Committed { txn_id, .. } => txn_id == txn,
        WalRecordView::CommitResult { txn_id, .. } => txn_id == txn,
        WalRecordView::Commit { txn_id, .. } => txn_id == txn,
        WalRecordView::Aborted { txn_id, .. } => txn_id == txn,
        _ => false,
    }
}

/// The record says that the transaction is on its way to commit, or has ended.
pub open spec fn decides(rec: WalRecordView, txn: Seq<char>) -> bool {
    ends(rec, txn) || (rec is Committing && names(rec, txn))
}

/// What the records of a log leave of one transaction.
proof fn lemma_replayed(log: Seq<(u64, WalRecordView)>, n: nat, t: Seq<char>)
    requires
        n <= log.len(),
    ensures
        ({
            let st = log_states(log, n);
            &&& st.contains_key(t) <==> exists|i: int| 0 <= i < n && names((#[trigger] log[i]).1, t)
            &&& (forall|i: int| 0 <= i < n ==> !decides((#[trigger] log[i]).1, t))
                && st.contains_key(t) ==> st[t].status == TxnStatus::Active
            &&& (exists|i: int| 0 <= i < n && decides((#[trigger] log[i]).1, t)) ==> exists|i: int|
                0 <= i < n && #[trigger] last_decision(log, n, i, t)
            &&& forall|i: int| #[trigger]
                last_decision(log, n, i, t) ==> st.contains_key(t) && (log[i].1 is Committing
                    ==> st[t].status == TxnStatus::Committing && st[t].upload_keys
                    == log[i].1->upload_keys) && (ends(log[i].1, t) ==> st[t].status
                    == TxnStatus::Committed || st[t].status == TxnStatus::Aborted)
        }),
    decreases n,
{
    if n > 0 {
        lemma_replayed(log, (n - 1) as nat, t);
        let before = log_states(log, (n - 1) as nat);
        let st = log_states(log, n);
        let rec = log[n - 1].1;
        assert(names(rec, t) || (st.contains_key(t) <==> before.contains_key(t)));
        if names(rec, t) {
            assert(names(log[n - 1].1, t));
            assert(st.contains_key(t));
        }
        if exists|i: int| 0 <= i < n - 1 && names((#[trigger] log[i]).1, t) {
            let i = choose|i: int| 0 <= i < n - 1 && names((#[trigger] log[i]).1, t);
            assert(names(log[i].1, t));
        }
        if decides(rec, t) {
            assert(last_decision(log, n, n - 1, t));
            assert forall|i: int| #[trigger] last_decision(log, n, i, t) implies i == n - 1 by {
                if i < n - 1 {
                    assert(!decides(log[n - 1].1, t));
                }
            }
        } else {
            assert(before.contains_key(t) ==> st[t] == before[t]);
            assert forall|i: int| #[trigger] last_decision(log, n, i, t) implies last_decision(
                log,
                (n - 1) as nat,
                i,
                t,
            ) by {
            }
            if exists|i: int| 0 <= i < n && decides((#[trigger] log[i]).1, t) {
                let i = choose|i: int| 0 <= i < n && decides((#[trigger] log[i]).1, t);
                assert(i < n - 1);
                let j = choose|j: int|
                    0 <= j < n - 1 && #[trigger] last_decision(log, (n - 1) as nat, j, t);
                assert(last_decision(log, n, j, t));
            }
            if forall|i: int| 0 <= i < n ==> !decides((#[trigger] log[i]).1, t) {
                assert forall|i: int| 0 <= i < n - 1 implies !decides((#[trigger] log[i]).1, t) by {
                }
            }
        }
    }
}

/// Position `i` holds the last of the first `n` records that decides.
spec fn last_decision(log: Seq<(u64, WalRecordView)>, n: nat, i: int, t: Seq<char>) -> bool {
    &&& 0 <= i < n
    &&& decides(log[i].1, t)
    &&& forall|j: int| i < j < n ==> !decides((#[trigger] log[j]).1, t)
}

/// What the log of a store leaves of one transaction.
proof fn lemma_log_state(s: StoreView, t: Seq<char>)
    requires
        s.wal.dom().finite(),
    ensures
        ({
            let st = log_states(log_rows(s), log_rows(s).len());
            &&& st.contains_key(t) <==> exists|q: u64| #[trigger]
                s.wal.contains_key(q) && names(s.wal[q], t)
            &&& (forall|q: u64| #[trigger] s.wal.contains_key(q) ==> !decides(s.wal[q], t))
                && st.contains_key(t) ==> st[t].status == TxnStatus::Active
            &&& forall|q: u64| #[trigger]
                last_word(s, t, q) ==> st.contains_key(t) && (s.wal[q] is Committing
                    ==> st[t].status == TxnStatus::Committing && st[t].upload_keys
                    == s.wal[q]->upload_keys) && (ends(s.wal[q], t) ==> st[t].status
                    == TxnStatus::Committed || st[t].status == TxnStatus::Aborted)
            &&& (exists|q: u64| #[trigger] s.wal.contains_key(q) && decides(s.wal[q], t))
                ==> exists|q: u64| #[trigger] last_word(s, t, q)
        }),
{
    let log = log_rows(s);
    let n = log.len();
    lemma_finite_listing::<u64, WalRecordView>(s.wal);
    lemma_replayed(log, n, t);
    assert forall|i: int| 0 <= i < n implies s.wal.contains_key((#[trigger] log[i]).0)
        && s.wal[log[i].0] == log[i].1 by {
        lemma_listed::<u64, WalRecordView>(log, i);
    }
    assert forall|q: u64| #[trigger] s.wal.contains_key(q) implies exists|i: int|
        0 <= i < n && (#[trigger] log[i]).0 == q && log[i].1 == s.wal[q] by {
        assert(rows_map(log).contains_key(q));
        let i = choose|i: int| 0 <= i < log.len() && (#[trigger] log[i]).0 == q;
        lemma_listed::<u64, WalRecordView>(log, i);
    }
    assert forall|i: int, j: int| 0 <= i < j < n implies (#[trigger] log[i]).0 < (
    #[trigger] log[j]).0 by {
        assert(u64::before(log[i].0, log[j].0));
    }
    if exists|q: u64| #[trigger] s.wal.contains_key(q) && names(s.wal[q], t) {
        let q = choose|q: u64| #[trigger] s.wal.contains_key(q) && names(s.wal[q], t);
        let i = choose|i: int|
            0 <= i < n && (#[trigger] log[i]).0 == q && log[i].1 == s.wal[q];
        assert(names(log[i].1, t));
    }
    if exists|i: int| 0 <= i < n && names((#[trigger] log[i]).1, t) {
        let i = choose|i: int| 0 <= i < n && names((#[trigger] log[i]).1, t);
        assert(s.wal.contains_key(log[i].0));
    }
    assert forall|q: u64| #[trigger] last_word(s, t, q) implies exists|i: int|
        0 <= i < n && (#[trigger] log[i]).0 == q && last_decision(log, n, i, t) && log[i].1
            == s.wal[q] by {
        let i = choose|i: int|
            0 <= i < n && (#[trigger] log[i]).0 == q && log[i].1 == s.wal[q];
        assert forall|j: int| i < j < n implies !decides((#[trigger] log[j]).1, t) by {
            assert(log[i].0 < log[j].0);
            assert(s.wal.contains_key(log[j].0));
        }
        assert(last_decision(log, n, i, t));
    }
    if exists|q: u64| #[trigger] s.wal.contains_key(q) && decides(s.wal[q], t) {
        let q = choose|q: u64| #[trigger] s.wal.contains_key(q) && decides(s.wal[q], t);
        let i = choose|i: int|
            0 <= i < n && (#[trigger] log[i]).0 == q && log[i].1 == s.wal[q];
        assert(decides(log[i].1, t));
        let j = choose|j: int| 0 <= j < n && #[trigger] last_decision(log, n, j, t);
        let w = log[j].0;
        assert(s.wal.contains_key(w));
        assert forall|p: u64| #[trigger] s.wal.contains_key(p) && p > w implies !decides(
            s.wal[p],
            t,
        ) by {
            let k = choose|k: int|
                0 <= k < n && (#[trigger] log[k]).0 == p && log[k].1 == s.wal[p];
            if k <= j {
                if k < j {
                    assert(log[k].0 < log[j].0);
                }
            }
        }
        assert(last_word(s, t, w));
    }
    if forall|q: u64| #[trigger] s.wal.contains_key(q) ==> !decides(s.wal[q], t) {
        assert forall|i: int| 0 <= i < n implies !decides((#[trigger] log[i]).1, t) by {
            assert(s.wal.contains_key(log[i].0));
        }
    }
}

/// The record under `q` is the last one that decides about the transaction.
pub open spec fn last_word(s: StoreView, txn: Seq<char>, q: u64) -> bool {
    &&& s.wal.contains_key(q)
    &&& decides(s.wal[q], txn)
    &&& forall|p: u64| #[trigger] s.wal.contains_key(p) && p > q ==> !decides(s.wal[p], txn)
}

// ----- how transactions are settled -----

/// How a transaction is settled depends on its state and the chains alone.
proof fn lemma_same_settlement(a: StoreView, b: StoreView, t: Seq<char>, log: LogStateView)
    requires
        a.chains == b.chains,
        a.txns.contains_key(t) <==> b.txns.contains_key(t),
        a.txns.contains_key(t) ==> a.txns[t] == b.txns[t],
    ensures
        settlement(a, t, log) == settlement(b, t, log),
{
}

/// What settling one transaction does to the store.
proof fn lemma_settled_step(
    m: Cleanup,
    id: Seq<char>,
    log: LogStateView,
    now: i64,
    p: (Seq<char>, Seq<char>),
)
    requires
        writes_in_order(m.store),
        m.store.last_wal_seq + 2 <= u64::MAX,
    ensures
        ({
            let a = m.store;
            let b = settled(m, id, log, now).store;
            let how = settlement(a, id, log);
            let aborts = how is Aborted || how is AbortedPartial;
            &&& b == (StoreView {
                wal: b.wal,
                last_wal_seq: b.last_wal_seq,
                txns: b.txns,
                writes: b.writes,
                blobs: b.blobs,
                snapshots: b.snapshots,
                ..a
            })
            &&& a.last_wal_seq <= b.last_wal_seq <= a.last_wal_seq + 2
            &&& forall|q: u64|
                q <= a.last_wal_seq ==> (#[trigger] b.wal.contains_key(q) <==> a.wal.contains_key(q))
                    && (a.wal.contains_key(q) ==> b.wal[q] == a.wal[q])
            &&& b.writes.dom().subset_of(a.writes.dom())
            &&& b.writes.contains_key(p) <==> a.writes.contains_key(p) && !(aborts && p.0 == id)
            &&& b.writes.contains_key(p) ==> b.writes[p] == a.writes[p]
            &&& !(aborts || how is Backfilled) ==> b == a
            &&& aborts || how is Backfilled ==> b.txns == a.txns.insert(id, b.txns[id])
            &&& aborts ==> b.txns[id] == (TxnStateRecordView {
                status: TxnStatus::Aborted,
                last_heartbeat_ms: now,
                ..a.txns[id]
            })
            &&& aborts ==> b.last_wal_seq == a.last_wal_seq + 1 && b.wal.contains_key(
                b.last_wal_seq,
            ) && b.wal[b.last_wal_seq] == (WalRecordView::Aborted {
                txn_id: id,
                reason: "crash recovery"@,
            })
            &&& how is Backfilled ==> b.txns[id] == (TxnStateRecordView {
                status: TxnStatus::Committed,
                ..a.txns[id]
            })
            &&& how is Backfilled ==> {
                let v = crate::commit_steps::reported_version(a.txns[id]);
                let q = b.last_wal_seq;
                &&& q == a.last_wal_seq + 2
                &&& b.wal.contains_key((q - 1) as u64)
                &&& b.wal.contains_key(q)
                &&& b.wal[(q - 1) as u64] == (WalRecordView::Committed {
                    txn_id: id,
                    commit_version: v,
                })
                &&& b.wal[q] == (WalRecordView::CommitResult {
                    txn_id: id,
                    commit_version: v,
                    success: true,
                })
            }
        }),
{
    let rows = write_rows(m.store, id);
    lemma_rows_dropped(m, rows, id, rows.len());
    law_dropping_a_write_set_empties_it(m, id, p, Seq::empty());
}

proof fn lemma_settled_in_order(m: Cleanup, id: Seq<char>, log: LogStateView, now: i64)
    requires
        writes_in_order(m.store),
        m.store.last_wal_seq + 2 <= u64::MAX,
    ensures
        writes_in_order(settled(m, id, log, now).store),
{
    let b = settled(m, id, log, now).store;
    assert forall|k: (Seq<char>, Seq<char>)| #[trigger]
        b.writes.contains_key(k) implies b.writes[k].backend_key == k.1 by {
        lemma_settled_step(m, id, log, now, k);
    }
    lemma_settled_step(m, id, log, now, (id, id));
    vstd::set_lib::lemma_set_subset_finite(m.store.writes.dom(), b.writes.dom());
}

/// The transaction is among the first `n` rows.
spec fn listed_at(rows: Seq<(Seq<char>, LogStateView)>, n: nat, t: Seq<char>) -> bool {
    exists|i: int| 0 <= i < n && (#[trigger] rows[i]).0 == t
}

/// What settling the first `n` transactions leaves of `t`.
proof fn lemma_all_settled_leaves(
    k: Cleanup,
    rows: Seq<(Seq<char>, LogStateView)>,
    now: i64,
    n: nat,
    t: Seq<char>,
    key: Seq<char>,
)
    requires
        n <= rows.len(),
        ascending::<String, LogStateView>(rows),
        writes_in_order(k.store),
        k.store.last_wal_seq + 2 * rows.len() <= u64::MAX,
    ensures
        ({
            let a = k.store;
            let b = all_settled(k, rows, now, n).store;
            let p = (t, key);
            &&& writes_in_order(b)
            &&& b.chains == a.chains
            &&& b == (StoreView {
                wal: b.wal,
                last_wal_seq: b.last_wal_seq,
                txns: b.txns,
                writes: b.writes,
                blobs: b.blobs,
                snapshots: b.snapshots,
                ..a
            })
            &&& a.last_wal_seq <= b.last_wal_seq <= a.last_wal_seq + 2 * n
            &&& forall|q: u64|
                q <= a.last_wal_seq ==> (#[trigger] b.wal.contains_key(q) <==> a.wal.contains_key(q))
                    && (a.wal.contains_key(q) ==> b.wal[q] == a.wal[q])
            &&& b.txns.contains_key(t) <==> a.txns.contains_key(t)
            &&& b.writes.contains_key(p) ==> a.writes.contains_key(p) && b.writes[p] == a.writes[p]
            &&& !listed_at(rows, n, t) ==> (a.txns.contains_key(t) ==> b.txns[t] == a.txns[t])
                && (b.writes.contains_key(p) <==> a.writes.contains_key(p))
            &&& forall|i: int|
                0 <= i < n && (#[trigger] rows[i]).0 == t ==> settled_as(
                    a,
                    b,
                    settlement(a, t, rows[i].1),
                    t,
                    key,
                    now,
                )
        }),
    decreases n,
{
    if n > 0 {
        lemma_all_settled_leaves(k, rows, now, (n - 1) as nat, t, key);
        let id = rows[n - 1].0;
        let log = rows[n - 1].1;
        let m = all_settled(k, rows, now, (n - 1) as nat);
        lemma_settled_step(m, id, log, now, (t, key));
        lemma_settled_in_order(m, id, log, now);
        assert forall|i: int| 0 <= i < n - 1 implies (#[trigger] rows[i]).0 != id by {
            assert(String::before(rows[i].0, rows[n - 1].0));
            String::lemma_irreflexive(id);
        }
        let b = all_settled(k, rows, now, n).store;
        if id == t {
            assert(!listed_at(rows, (n - 1) as nat, t));
            lemma_same_settlement(k.store, m.store, t, log);
            assert(rows[n - 1].0 == t);
            let how = settlement(k.store, t, log);
            if how is Aborted || how is AbortedPartial {
                assert(b.wal.contains_key(b.last_wal_seq));
                assert(logged_abort(k.store, b, b.last_wal_seq, t));
            }
            if how is Backfilled {
                let alloc = k.store.txns[t].alloc_versions;
                let q = (b.last_wal_seq - 1) as u64;
                crate::outcome_laws::lemma_max_alloc(alloc, alloc.len());
                assert(alloc.len() > 0);
                assert((q + 1) as u64 == b.last_wal_seq);
                assert(b.wal.contains_key(q));
                assert(logged_commit(k.store, b, q, t));
            }
            assert(settled_as(k.store, b, how, t, key, now));
        } else {
            if listed_at(rows, (n - 1) as nat, t) {
                let i = choose|i: int| 0 <= i < n - 1 && (#[trigger] rows[i]).0 == t;
                assert(rows[i].0 == t);
            }
            assert forall|i: int| 0 <= i < n && (#[trigger] rows[i]).0 == t implies settled_as(
                k.store,
                b,
                settlement(k.store, t, rows[i].1),
                t,
                key,
                now,
            ) by {
                let how = settlement(k.store, t, rows[i].1);
                assert(settled_as(k.store, m.store, how, t, key, now));
                if how is Aborted || how is AbortedPartial {
                    let q = choose|q: u64| #[trigger] m.store.wal.contains_key(q) && logged_abort(
                        k.store,
                        m.store,
                        q,
                        t,
                    );
                    assert(b.wal.contains_key(q));
                }
                if how is Backfilled {
                    let q = choose|q: u64| #[trigger] m.store.wal.contains_key(q) && logged_commit(
                        k.store,
                        m.store,
                        q,
                        t,
                    );
                    assert(b.wal.contains_key(q));
                    assert(b.wal.contains_key((q + 1) as u64));
                }
            }
        }
    }
}

/// The record under `q` is new and says that recovery aborted the transaction.
pub open spec fn logged_abort(a: StoreView, b: StoreView, q: u64, t: Seq<char>) -> bool {
    &&& a.last_wal_seq < q <= b.last_wal_seq
    &&& b.wal.contains_key(q)
    &&& b.wal[q] == (WalRecordView::Aborted { txn_id: t, reason: "crash recovery"@ })
}

/// The records under `q` and after it are new and say that the transaction
/// committed, at the highest of its versions.
pub open spec fn logged_commit(a: StoreView, b: StoreView, q: u64, t: Seq<char>) -> bool {
    &&& a.last_wal_seq < q < b.last_wal_seq
    &&& b.wal.contains_key(q)
    &&& b.wal.contains_key((q + 1) as u64)
    &&& b.wal[q] matches WalRecordView::Committed { txn_id, commit_version: v }
    &&& b.wal[(q + 1) as u64] matches WalRecordView::CommitResult {
        txn_id: other,
        commit_version: w,
        success,
    }
    &&& txn_id == t && other == t && success && v == w
    &&& forall|i: int|
        0 <= i < a.txns[t].alloc_versions.len() ==> (#[trigger] a.txns[t].alloc_versions[i]).1 <= v
    &&& exists|i: int|
        0 <= i < a.txns[t].alloc_versions.len() && (#[trigger] a.txns[t].alloc_versions[i]).1 == v
}

/// What a settlement leaves of the transaction.
spec fn settled_as(
    a: StoreView,
    b: StoreView,
    how: Settlement,
    t: Seq<char>,
    key: Seq<char>,
    now: i64,
) -> bool {
    let p = (t, key);
    match how {
        Settlement::Left | Settlement::AlreadyCommitted => {
            &&& a.txns.contains_key(t) ==> b.txns[t] == a.txns[t]
            &&& b.writes.contains_key(p) <==> a.writes.contains_key(p)
        },
        Settlement::Aborted | Settlement::AbortedPartial => {
            &&& b.txns[t] == (TxnStateRecordView {
                status: TxnStatus::Aborted,
                last_heartbeat_ms: now,
                ..a.txns[t]
            })
            &&& !b.writes.contains_key(p)
            &&& exists|q: u64| #[trigger] b.wal.contains_key(q) && logged_abort(a, b, q, t)
        },
        Settlement::Backfilled => {
            &&& b.txns[t] == (TxnStateRecordView { status: TxnStatus::Committed, ..a.txns[t] })
            &&& b.writes.contains_key(p) <==> a.writes.contains_key(p)
            &&& exists|q: u64| #[trigger] b.wal.contains_key(q) && logged_commit(a, b, q, t)
        },
    }
}

proof fn lemma_named_count(alloc: Seq<(Seq<char>, u64)>, keys: Seq<Seq<char>>, n: nat)
    requires
        n <= alloc.len(),
    ensures
        named_count(alloc, keys, n) > 0 <==> exists|i: int|
            0 <= i < n && keys.contains((#[trigger] alloc[i]).0),
    decreases n,
{
    if n > 0 {
        lemma_named_count(alloc, keys, (n - 1) as nat);
        if keys.contains(alloc[n - 1].0) {
            assert(keys.contains(alloc[n - 1].0));
        }
        if exists|i: int| 0 <= i < n - 1 && keys.contains((#[trigger] alloc[i]).0) {
            let i = choose|i: int| 0 <= i < n - 1 && keys.contains((#[trigger] alloc[i]).0);
            assert(keys.contains(alloc[i].0));
        }
    }
}

/// The transaction has versions allocated for some of the keys, and all of
/// those are in the chains of their keys.
pub open spec fn published(s: StoreView, txn: Seq<char>, keys: Seq<Seq<char>>) -> bool {
    let alloc = s.txns[txn].alloc_versions;
    &&& exists|i: int| 0 <= i < alloc.len() && keys.contains((#[trigger] alloc[i]).0)
    &&& forall|i: int|
        0 <= i < alloc.len() && keys.contains((#[trigger] alloc[i]).0) ==> holds_version(
            s.chains,
            alloc[i].0,
            txn,
            alloc[i].1,
        )
}

proof fn lemma_published(s: StoreView, txn: Seq<char>, keys: Seq<Seq<char>>)
    ensures
        ({
            let alloc = s.txns[txn].alloc_versions;
            published(s, txn, keys) <==> named_published(s, txn, keys) && named_count(
                alloc,
                keys,
                alloc.len(),
            ) > 0
        }),
{
    let alloc = s.txns[txn].alloc_versions;
    lemma_named_count(alloc, keys, alloc.len());
    if named_published(s, txn, keys) {
        assert forall|i: int|
            0 <= i < alloc.len() && keys.contains((#[trigger] alloc[i]).0) implies holds_version(
            s.chains,
            alloc[i].0,
            txn,
            alloc[i].1,
        ) by {
            lemma_holds_version(s.chains, alloc[i].0, txn, alloc[i].1);
        }
    }
    if published(s, txn, keys) {
        assert forall|i: int|
            0 <= i < alloc.len() && keys.contains(
                (#[trigger] alloc[i]).0,
            ) implies crate::commit_steps::chain_has_own(
            crate::store_chains::chain_at(s.chains, alloc[i].0).entries,
            txn,
            alloc[i].1,
        ) by {
            lemma_holds_version(s.chains, alloc[i].0, txn, alloc[i].1);
        }
    }
}

/// The store can be recovered: log and staged writes are finite, every write
/// is under the key that it names, and the log has room.
pub open spec fn recoverable(s: StoreView) -> bool {
    &&& s.wal.dom().finite()
    &&& s.writes.dom().finite()
    &&& forall|k: (Seq<char>, Seq<char>)| #[trigger]
        s.writes.contains_key(k) ==> s.writes[k].backend_key == k.1
    &&& s.last_wal_seq + 2 * state_rows(s).len() <= u64::MAX
}

/// A finite log names finitely many transactions.
proof fn lemma_states_finite(log: Seq<(u64, WalRecordView)>, n: nat)
    ensures
        log_states(log, n).dom().finite(),
    decreases n,
{
    if n > 0 {
        lemma_states_finite(log, (n - 1) as nat);
    }
}

/// What recovery leaves of one transaction, by its log state.
proof fn lemma_recovered(k: Cleanup, now: i64, t: Seq<char>, key: Seq<char>)
    requires
        recoverable(k.store),
    ensures
        ({
            let a = k.store;
            let b = recovered(k, now).0.store;
            let st = log_states(log_rows(a), log_rows(a).len());
            let how = if st.contains_key(t) {
                settlement(a, t, st[t])
            } else {
                Settlement::Left
            };
            &&& settled_as(a, b, how, t, key, now)
            &&& b.chains == a.chains
            &&& b.txns.contains_key(t) <==> a.txns.contains_key(t)
            &&& b.writes.contains_key((t, key)) ==> a.writes.contains_key((t, key)) && b.writes[(
                t,
                key,
            )] == a.writes[(t, key)]
            &&& b == (StoreView {
                wal: b.wal,
                last_wal_seq: b.last_wal_seq,
                txns: b.txns,
                writes: b.writes,
                blobs: b.blobs,
                snapshots: b.snapshots,
                ..a
            })
            &&& a.last_wal_seq <= b.last_wal_seq
            &&& forall|q: u64|
                q <= a.last_wal_seq ==> (#[trigger] b.wal.contains_key(q) <==> a.wal.contains_key(q))
                    && (a.wal.contains_key(q) ==> b.wal[q] == a.wal[q])
        }),
{
    let a = k.store;
    let st = log_states(log_rows(a), log_rows(a).len());
    let rows = state_rows(a);
    lemma_states_finite(log_rows(a), log_rows(a).len());
    lemma_finite_listing::<String, LogStateView>(st);
    lemma_all_settled_leaves(k, rows, now, rows.len(), t, key);
    if st.contains_key(t) {
        assert(rows_map(rows).contains_key(t));
        let i = choose|i: int| 0 <= i < rows.len() && (#[trigger] rows[i]).0 == t;
        lemma_listed::<String, LogStateView>(rows, i);
        assert(rows[i].1 == st[t]);
    } else if listed_at(rows, rows.len(), t) {
        let i = choose|i: int| 0 <= i < rows.len() && (#[trigger] rows[i]).0 == t;
        lemma_listed::<String, LogStateView>(rows, i);
    }
}

/// A running transaction of which the log says no more than that it began,
/// staged writes or met conflicts is aborted by recovery, whatever it wrote: it
/// has no staged write left, and the log says so. Nothing else of it changes
/// but the time when it was last heard of.
pub proof fn law_recovery_aborts_what_never_got_to_commit(
    k: Cleanup,
    now: i64,
    txn: Seq<char>,
    key: Seq<char>,
)
    requires
        recoverable(k.store),
        k.store.txns.contains_key(txn),
        k.store.txns[txn].status == TxnStatus::Active || k.store.txns[txn].status
            == TxnStatus::Committing,
        exists|q: u64| #[trigger] k.store.wal.contains_key(q) && names(k.store.wal[q], txn),
        forall|q: u64| #[trigger]
            k.store.wal.contains_key(q) ==> !decides(k.store.wal[q], txn),
    ensures
        ({
            let t = k.store.txns[txn];
            let n = recovered(k, now).0.store;
            let u = n.txns[txn];
            &&& n.txns.contains_key(txn)
            &&& u.status == TxnStatus::Aborted
            &&& u.last_heartbeat_ms == now
            &&& u.snapshot_version == t.snapshot_version
            &&& u.read_keys == t.read_keys
            &&& u.write_keys == t.write_keys
            &&& u.alloc_versions == t.alloc_versions
            &&& u.started_at_ms == t.started_at_ms
            &&& u.idempotency_key == t.idempotency_key
            &&& !n.writes.contains_key((txn, key))
            &&& exists|q: u64| #[trigger]
                n.wal.contains_key(q) && logged_abort(k.store, n, q, txn)
        }),
{
    lemma_log_state(k.store, txn);
    lemma_recovered(k, now, txn, key);
}

/// A running transaction whose last word in the log is that it is committing
/// the keys is committed by recovery exactly if it has versions allocated for
/// some of them and all of those are in their chains. Else it is aborted, with
/// no staged write left. The log says which.
pub proof fn law_recovery_decides_by_the_chains(
    k: Cleanup,
    now: i64,
    txn: Seq<char>,
    key: Seq<char>,
    q: u64,
)
    requires
        recoverable(k.store),
        k.store.txns.contains_key(txn),
        k.store.txns[txn].status == TxnStatus::Active || k.store.txns[txn].status
            == TxnStatus::Committing,
        last_word(k.store, txn, q),
        k.store.wal[q] is Committing,
    ensures
        ({
            let t = k.store.txns[txn];
            let n = recovered(k, now).0.store;
            let u = n.txns[txn];
            let all = published(k.store, txn, k.store.wal[q]->upload_keys);
            &&& n.txns.contains_key(txn)
            &&& u.status == if all {
                TxnStatus::Committed
            } else {
                TxnStatus::Aborted
            }
            &&& u.last_heartbeat_ms == if all {
                t.last_heartbeat_ms
            } else {
                now
            }
            &&& u.snapshot_version == t.snapshot_version
            &&& u.read_keys == t.read_keys
            &&& u.write_keys == t.write_keys
            &&& u.alloc_versions == t.alloc_versions
            &&& u.started_at_ms == t.started_at_ms
            &&& u.idempotency_key == t.idempotency_key
            &&& n.writes.contains_key((txn, key)) <==> all && k.store.writes.contains_key(
                (txn, key),
            )
            &&& n.writes.contains_key((txn, key)) ==> n.writes[(txn, key)]
                == k.store.writes[(txn, key)]
            &&& all ==> exists|p: u64| #[trigger]
                n.wal.contains_key(p) && logged_commit(k.store, n, p, txn)
            &&& !all ==> exists|p: u64| #[trigger]
                n.wal.contains_key(p) && logged_abort(k.store, n, p, txn)
        }),
{
    lemma_log_state(k.store, txn);
    lemma_recovered(k, now, txn, key);
    lemma_published(k.store, txn, k.store.wal[q]->upload_keys);
}

/// Recovery leaves a transaction alone that the store shows as ended, whose
/// last word in the log is that it has ended, or that the log does not name.
pub proof fn law_recovery_leaves_the_ended_alone(
    k: Cleanup,
    now: i64,
    txn: Seq<char>,
    key: Seq<char>,
)
    requires
        recoverable(k.store),
        k.store.txns.contains_key(txn),
        ({
            ||| k.store.txns[txn].status == TxnStatus::Committed
            ||| k.store.txns[txn].status == TxnStatus::Aborted
            ||| exists|q: u64| #[trigger]
                last_word(k.store, txn, q) && ends(k.store.wal[q], txn)
            ||| forall|q: u64| #[trigger]
                k.store.wal.contains_key(q) ==> !names(k.store.wal[q], txn)
        }),
    ensures
        ({
            let n = recovered(k, now).0.store;
            &&& n.txns.contains_key(txn)
            &&& n.txns[txn] == k.store.txns[txn]
            &&& n.writes.contains_key((txn, key)) <==> k.store.writes.contains_key((txn, key))
            &&& n.writes.contains_key((txn, key)) ==> n.writes[(txn, key)]
                == k.store.writes[(txn, key)]
        }),
{
    lemma_log_state(k.store, txn);
    lemma_recovered(k, now, txn, key);
}

/// Whatever the log says of a running transaction, recovery makes it committed
/// only if some record says that it was committing keys, it has versions
/// allocated for some of these, and all of those are in their chains.
pub proof fn law_recovery_commits_only_what_was_published(
    k: Cleanup,
    now: i64,
    txn: Seq<char>,
)
    requires
        recoverable(k.store),
        k.store.txns.contains_key(txn),
        k.store.txns[txn].status == TxnStatus::Active || k.store.txns[txn].status
            == TxnStatus::Committing,
        recovered(k, now).0.store.txns[txn].status == TxnStatus::Committed,
    ensures
        exists|q: u64| #[trigger]
            last_word(k.store, txn, q) && k.store.wal[q] is Committing && published(
                k.store,
                txn,
                k.store.wal[q]->upload_keys,
            ),
{
    let a = k.store;
    lemma_log_state(a, txn);
    lemma_recovered(k, now, txn, txn);
    let st = log_states(log_rows(a), log_rows(a).len());
    assert(st.contains_key(txn));
    assert(settlement(a, txn, st[txn]) is Backfilled);
    assert(exists|q: u64| #[trigger] a.wal.contains_key(q) && decides(a.wal[q], txn)) by {
        if forall|q: u64| #[trigger] a.wal.contains_key(q) ==> !decides(a.wal[q], txn) {
            assert(st[txn].status == TxnStatus::Active);
        }
    }
    let q = choose|q: u64| #[trigger] last_word(a, txn, q);
    assert(last_word(a, txn, q));
    lemma_published(a, txn, a.wal[q]->upload_keys);
}

/// Recovery changes transactions, staged writes, spilled bodies, pins and the
/// end of the log, and nothing else; it brings no transaction into the store.
pub proof fn law_recovery_changes_only_the_unfinished(k: Cleanup, now: i64, t: Seq<char>, q: u64)
    requires
        recoverable(k.store),
        q <= k.store.last_wal_seq,
    ensures
        ({
            let a = k.store;
            let b = recovered(k, now).0.store;
            &&& b.txns.contains_key(t) <==> a.txns.contains_key(t)
            &&& b.wal.contains_key(q) <==> a.wal.contains_key(q)
            &&& a.wal.contains_key(q) ==> b.wal[q] == a.wal[q]
            &&& b.chains == a.chains
            &&& b.versions == a.versions
            &&& b.records == a.records
            &&& b.record_versions == a.record_versions
            &&& b.chunks == a.chunks
            &&& b.schemas == a.schemas
            &&& b.multipart == a.multipart
            &&& b.global_version == a.global_version
            &&& b.last_flushed_seq == a.last_flushed_seq
        }),
{
    lemma_recovered(k, now, t, t);
}

// ----- counts -----

/// The transactions among the first `n` rows that are settled in one of the
/// counted ways.
spec fn counted(
    a: StoreView,
    rows: Seq<(Seq<char>, LogStateView)>,
    n: nat,
    way: spec_fn(Settlement) -> bool,
) -> Set<Seq<char>> {
    Set::new(
        |t: Seq<char>|
            exists|i: int|
                0 <= i < n && (#[trigger] rows[i]).0 == t && way(settlement(a, t, rows[i].1)),
    )
}

proof fn lemma_counted_step(
    a: StoreView,
    rows: Seq<(Seq<char>, LogStateView)>,
    n: nat,
    way: spec_fn(Settlement) -> bool,
)
    requires
        0 < n <= rows.len(),
        ascending::<String, LogStateView>(rows),
        counted(a, rows, (n - 1) as nat, way).finite(),
    ensures
        counted(a, rows, n, way).finite(),
        counted(a, rows, n, way).len() == counted(a, rows, (n - 1) as nat, way).len() + if way(
            settlement(a, rows[n - 1].0, rows[n - 1].1),
        ) {
            1nat
        } else {
            0nat
        },
{
    let before = counted(a, rows, (n - 1) as nat, way);
    let after = counted(a, rows, n, way);
    let id = rows[n - 1].0;
    assert forall|i: int| 0 <= i < n - 1 implies (#[trigger] rows[i]).0 != id by {
        assert(String::before(rows[i].0, rows[n - 1].0));
        String::lemma_irreflexive(id);
    }
    assert(!before.contains(id));
    assert forall|t: Seq<char>| #[trigger] before.contains(t) implies after.contains(t) by {
        let i = choose|i: int|
            0 <= i < n - 1 && (#[trigger] rows[i]).0 == t && way(settlement(a, t, rows[i].1));
        assert(rows[i].0 == t);
    }
    assert forall|t: Seq<char>| #[trigger] after.contains(t) && t != id implies before.contains(
        t,
    ) by {
        let i = choose|i: int|
            0 <= i < n && (#[trigger] rows[i]).0 == t && way(settlement(a, t, rows[i].1));
        assert(rows[i].0 == t);
    }
    if way(settlement(a, id, rows[n - 1].1)) {
        assert(rows[n - 1].0 == id);
        assert(after.contains(id));
        assert(after =~= before.insert(id));
    } else {
        assert(!after.contains(id)) by {
            if after.contains(id) {
                let i = choose|i: int|
                    0 <= i < n && (#[trigger] rows[i]).0 == id && way(
                        settlement(a, id, rows[i].1),
                    );
                assert(i == n - 1);
            }
        }
        assert(after =~= before);
    }
}

proof fn lemma_counts(k: Cleanup, rows: Seq<(Seq<char>, LogStateView)>, now: i64, n: nat)
    requires
        n <= rows.len(),
        ascending::<String, LogStateView>(rows),
        writes_in_order(k.store),
        k.store.last_wal_seq + 2 * rows.len() <= u64::MAX,
    ensures
        ({
            let already = |h: Settlement| h is AlreadyCommitted;
            let won = |h: Settlement| h is Backfilled;
            let partial = |h: Settlement| h is AbortedPartial;
            &&& counted(k.store, rows, n, already).finite()
            &&& counted(k.store, rows, n, won).finite()
            &&& counted(k.store, rows, n, partial).finite()
            &&& settled_counts(k, rows, now, n) == (
                counted(k.store, rows, n, already).len(),
                counted(k.store, rows, n, won).len(),
                counted(k.store, rows, n, partial).len(),
            )
        }),
    decreases n,
{
    let already = |h: Settlement| h is AlreadyCommitted;
    let won = |h: Settlement| h is Backfilled;
    let partial = |h: Settlement| h is AbortedPartial;
    if n > 0 {
        lemma_counts(k, rows, now, (n - 1) as nat);
        lemma_counted_step(k.store, rows, n, already);
        lemma_counted_step(k.store, rows, n, won);
        lemma_counted_step(k.store, rows, n, partial);
        let id = rows[n - 1].0;
        let m = all_settled(k, rows, now, (n - 1) as nat);
        lemma_all_settled_leaves(k, rows, now, (n - 1) as nat, id, id);
        assert(!listed_at(rows, (n - 1) as nat, id)) by {
            assert forall|i: int| 0 <= i < n - 1 implies (#[trigger] rows[i]).0 != id by {
                assert(String::before(rows[i].0, rows[n - 1].0));
                String::lemma_irreflexive(id);
            }
        }
        lemma_same_settlement(k.store, m.store, id, rows[n - 1].1);
    } else {
        assert(counted(k.store, rows, 0, already) =~= Set::empty());
        assert(counted(k.store, rows, 0, won) =~= Set::empty());
        assert(counted(k.store, rows, 0, partial) =~= Set::empty());
    }
}

/// The committed transactions that the log names.
pub open spec fn committed_before(s: StoreView) -> Set<Seq<char>> {
    Set::new(
        |t: Seq<char>|
            s.txns.contains_key(t) && s.txns[t].status == TxnStatus::Committed && exists|q: u64|
                #[trigger] s.wal.contains_key(q) && names(s.wal[q], t),
    )
}

/// The running transactions whose last word is that they are committing keys,
/// and of which all that was to be published is.
pub open spec fn published_before(s: StoreView) -> Set<Seq<char>> {
    Set::new(
        |t: Seq<char>|
            s.txns.contains_key(t) && (s.txns[t].status == TxnStatus::Active || s.txns[t].status
                == TxnStatus::Committing) && exists|q: u64| #[trigger]
                last_word(s, t, q) && s.wal[q] is Committing && published(
                    s,
                    t,
                    s.wal[q]->upload_keys,
                ),
    )
}

/// Some version of the transaction for one of the keys is not in its chain.
pub open spec fn lacks_version(s: StoreView, txn: Seq<char>, keys: Seq<Seq<char>>) -> bool {
    let alloc = s.txns[txn].alloc_versions;
    exists|i: int|
        0 <= i < alloc.len() && keys.contains((#[trigger] alloc[i]).0) && !holds_version(
            s.chains,
            alloc[i].0,
            txn,
            alloc[i].1,
        )
}

/// The running transactions whose last word is that they are committing keys,
/// and of which some version is missing in its chain.
pub open spec fn partly_published_before(s: StoreView) -> Set<Seq<char>> {
    Set::new(
        |t: Seq<char>|
            s.txns.contains_key(t) && (s.txns[t].status == TxnStatus::Active || s.txns[t].status
                == TxnStatus::Committing) && exists|q: u64| #[trigger]
                last_word(s, t, q) && s.wal[q] is Committing && lacks_version(
                    s,
                    t,
                    s.wal[q]->upload_keys,
                ),
    )
}

proof fn lemma_lacks_version(s: StoreView, txn: Seq<char>, keys: Seq<Seq<char>>)
    ensures
        lacks_version(s, txn, keys) <==> !named_published(s, txn, keys),
{
    let alloc = s.txns[txn].alloc_versions;
    if lacks_version(s, txn, keys) {
        let i = choose|i: int|
            0 <= i < alloc.len() && keys.contains((#[trigger] alloc[i]).0) && !holds_version(
                s.chains,
                alloc[i].0,
                txn,
                alloc[i].1,
            );
        lemma_holds_version(s.chains, alloc[i].0, txn, alloc[i].1);
        assert(alloc[i] == alloc[i]);
    }
    if !named_published(s, txn, keys) {
        let i = choose|i: int|
            0 <= i < alloc.len() && keys.contains(
                (#[trigger] alloc[i]).0,
            ) && !crate::commit_steps::chain_has_own(
                crate::store_chains::chain_at(s.chains, alloc[i].0).entries,
                txn,
                alloc[i].1,
            );
        lemma_holds_version(s.chains, alloc[i].0, txn, alloc[i].1);
        assert(alloc[i] == alloc[i]);
    }
}

/// How a transaction of the log is settled, in words of the log.
proof fn lemma_settlement_by_log(s: StoreView, t: Seq<char>)
    requires
        s.wal.dom().finite(),
    ensures
        ({
            let st = log_states(log_rows(s), log_rows(s).len());
            let how = settlement(s, t, st[t]);
            &&& st.contains_key(t) && how is AlreadyCommitted <==> committed_before(s).contains(t)
            &&& st.contains_key(t) && how is Backfilled <==> published_before(s).contains(t)
            &&& st.contains_key(t) && how is AbortedPartial <==> partly_published_before(
                s,
            ).contains(t)
        }),
{
    let st = log_states(log_rows(s), log_rows(s).len());
    lemma_log_state(s, t);
    if st.contains_key(t) && s.txns.contains_key(t) {
        if exists|q: u64| #[trigger] s.wal.contains_key(q) && decides(s.wal[q], t) {
            let q = choose|q: u64| #[trigger] last_word(s, t, q);
            assert(last_word(s, t, q));
            assert forall|p: u64| #[trigger] last_word(s, t, p) implies p == q by {
                if p < q {
                    assert(s.wal.contains_key(q));
                } else if q < p {
                    assert(s.wal.contains_key(p));
                }
            }
            lemma_published(s, t, s.wal[q]->upload_keys);
            lemma_lacks_version(s, t, s.wal[q]->upload_keys);
        } else {
            assert forall|p: u64| !#[trigger] last_word(s, t, p) by {
                if last_word(s, t, p) {
                    assert(s.wal.contains_key(p));
                }
            }
        }
    }
    if published_before(s).contains(t) || partly_published_before(s).contains(t) {
        let q = choose|q: u64| #[trigger] last_word(s, t, q);
        assert(last_word(s, t, q));
        assert(s.wal.contains_key(q) && names(s.wal[q], t));
    }
}

/// The report of recovery counts the transactions of the log that were
/// committed before, those that recovery found published and committed, and
/// those that it aborted for a version that is missing.
pub proof fn law_recovery_counts_what_it_settles(k: Cleanup, now: i64)
    requires
        recoverable(k.store),
    ensures
        recovered(k, now).1 == (
            committed_before(k.store).len(),
            published_before(k.store).len(),
            partly_published_before(k.store).len(),
        ),
{
    let a = k.store;
    let st = log_states(log_rows(a), log_rows(a).len());
    let rows = state_rows(a);
    lemma_states_finite(log_rows(a), log_rows(a).len());
    lemma_finite_listing::<String, LogStateView>(st);
    lemma_counts(k, rows, now, rows.len());
    let already = |h: Settlement| h is AlreadyCommitted;
    let won = |h: Settlement| h is Backfilled;
    let partial = |h: Settlement| h is AbortedPartial;
    lemma_counted_is(a, already);
    lemma_counted_is(a, won);
    lemma_counted_is(a, partial);
    assert forall|t: Seq<char>| #[trigger] counted(a, rows, rows.len(), already).contains(t)
        <==> committed_before(a).contains(t) by {
        lemma_settlement_by_log(a, t);
    }
    assert forall|t: Seq<char>| #[trigger] counted(a, rows, rows.len(), won).contains(t)
        <==> published_before(a).contains(t) by {
        lemma_settlement_by_log(a, t);
    }
    assert forall|t: Seq<char>| #[trigger] counted(a, rows, rows.len(), partial).contains(t)
        <==> partly_published_before(a).contains(t) by {
        lemma_settlement_by_log(a, t);
    }
    assert(counted(a, rows, rows.len(), already) =~= committed_before(a));
    assert(counted(a, rows, rows.len(), won) =~= published_before(a));
    assert(counted(a, rows, rows.len(), partial) =~= partly_published_before(a));
}

/// The report of recovery says in its own field how many transactions had
/// committed before, how many turned out to be published, and how many were
/// aborted half published.
pub proof fn law_recovery_report_says_what_it_settles(k: Cleanup, now: i64, r: RecoveryReport)
    requires
        recoverable(k.store),
        report_counts(r) == recovered(k, now).1,
    ensures
        r.already_committed == committed_before(k.store).len(),
        r.chain_won_wal_race == published_before(k.store).len(),
        r.partial_uploads_aborted == partly_published_before(k.store).len(),
{
    law_recovery_counts_what_it_settles(k, now);
}

proof fn lemma_counted_is(a: StoreView, way: spec_fn(Settlement) -> bool)
    requires
        a.wal.dom().finite(),
    ensures
        ({
            let st = log_states(log_rows(a), log_rows(a).len());
            let rows = state_rows(a);
            forall|t: Seq<char>| #[trigger]
                counted(a, rows, rows.len(), way).contains(t) <==> st.contains_key(t) && way(
                    settlement(a, t, st[t]),
                )
        }),
{
    let st = log_states(log_rows(a), log_rows(a).len());
    let rows = state_rows(a);
    lemma_states_finite(log_rows(a), log_rows(a).len());
    lemma_finite_listing::<String, LogStateView>(st);
    assert forall|t: Seq<char>| #[trigger]
        counted(a, rows, rows.len(), way).contains(t) <==> st.contains_key(t) && way(
        settlement(a, t, st[t]),
    ) by {
        if counted(a, rows, rows.len(), way).contains(t) {
            let i = choose|i: int|
                0 <= i < rows.len() && (#[trigger] rows[i]).0 == t && way(
                    settlement(a, t, rows[i].1),
                );
            lemma_listed::<String, LogStateView>(rows, i);
        }
        if st.contains_key(t) {
            assert(rows_map(rows).contains_key(t));
            let i = choose|i: int| 0 <= i < rows.len() && (#[trigger] rows[i]).0 == t;
            lemma_listed::<String, LogStateView>(rows, i);
            assert(rows[i].1 == st[t]);
        }
    }
}

} // verus!
