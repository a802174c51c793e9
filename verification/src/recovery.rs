//! Crash recovery on startup.
//!
//! - A transaction whose log ends in `Committed` or `CommitResult` has ended
//!   already.
//! - A transaction whose log ends in `Committing` and whose versions are all
//!   in their chains is committed; only the end of its log is missing and is
//!   written now.
//! - Any other transaction that has not ended is aborted.

use crate::cleanup::{cleanup_of, drop_rows, lemma_rows_dropped, Cleanup};
use crate::commit_steps::{chain_has_own, reported_version, write_rows};
use crate::coordinator::{chain_holds_own, version_to_report};
use crate::outside::now_ms;
use crate::store::{log_rows, LocalStore, StoreView};
use crate::store_chains::chain_at;
use crate::table::{lemma_listing, listing, pair_views, Row, Table};
use crate::text::{copy_texts, holds_text, texts};
use crate::txn_state::{
    active_state, text_versions, TxnStateRecord, TxnStateRecordView, WriteSetEntryView,
};
use crate::txn_laws::{lemma_ended, lemma_same_running, running, sound};
use crate::types::TxnStatus;
use crate::wal::{WalRecord, WalRecordView};
use vstd::prelude::*;

verus! {

/// Counts that recovery reports.
#[derive(Debug, Clone, Copy, PartialEq, Eq, Structural)]
pub struct RecoveryReport {
    pub already_committed: usize,
    /// Transactions whose versions were published and whose log was completed.
    pub chain_won_wal_race: usize,
    pub partial_uploads_aborted: usize,
}

impl Default for RecoveryReport {
    fn default() -> (r: Self)
        ensures
            r == (RecoveryReport {
                already_committed: 0,
                chain_won_wal_race: 0,
                partial_uploads_aborted: 0,
            }),
    {
        RecoveryReport { already_committed: 0, chain_won_wal_race: 0, partial_uploads_aborted: 0 }
    }
}

/// What the log says of one transaction: its last status, and the keys of its
/// last `Committing` record.
pub struct LogState {
    pub status: TxnStatus,
    pub upload_keys: Vec<String>,
}

/// Mathematical view of a [`LogState`].
pub ghost struct LogStateView {
    pub status: TxnStatus,
    pub upload_keys: Seq<Seq<char>>,
}

impl View for LogState {
    type V = LogStateView;

    open spec fn view(&self) -> LogStateView {
        LogStateView { status: self.status, upload_keys: texts(self.upload_keys@) }
    }
}

impl Row for LogState {
    fn copy_row(&self) -> (r: Self) {
        LogState { status: self.status, upload_keys: copy_texts(&self.upload_keys) }
    }
}

/// States of all transactions of a log.
pub type LogStates = Map<Seq<char>, LogStateView>;

/// The keys that the log names for the transaction.
pub open spec fn upload_keys_of(states: LogStates, txn: Seq<char>) -> Seq<Seq<char>> {
    if states.contains_key(txn) {
        states[txn].upload_keys
    } else {
        Seq::empty()
    }
}

/// The transaction has the given last status.
pub open spec fn log_status(states: LogStates, txn: Seq<char>, status: TxnStatus) -> LogStates {
    states.insert(txn, LogStateView { status, upload_keys: upload_keys_of(states, txn) })
}

/// One more record of the log.
pub open spec fn log_step(states: LogStates, rec: WalRecordView) -> LogStates {
    match rec {
        WalRecordView::Begin { txn_id, .. } => first_seen(states, txn_id),
        WalRecordView::Stage { txn_id, .. } => first_seen(states, txn_id),
        WalRecordView::CahillEdge { txn_id, .. } => first_seen(states, txn_id),
        WalRecordView::Committing { txn_id, upload_keys } => states.insert(
            txn_id,
            LogStateView { status: TxnStatus::Committing, upload_keys },
        ),
        WalRecordView::Committed { txn_id, .. } => log_status(
            states,
            txn_id,
            TxnStatus::Committed,
        ),
        WalRecordView::CommitResult { txn_id, .. } => log_status(
            states,
            txn_id,
            TxnStatus::Committed,
        ),
        WalRecordView::Commit { txn_id, .. } => log_status(states, txn_id, TxnStatus::Committed),
        WalRecordView::Aborted { txn_id, .. } => log_status(states, txn_id, TxnStatus::Aborted),
        WalRecordView::MemtableFlushed { .. } => states,
    }
}

/// A record that does not change the status of a known transaction.
pub open spec fn first_seen(states: LogStates, txn: Seq<char>) -> LogStates {
    if states.contains_key(txn) {
        states
    } else {
        log_status(states, txn, TxnStatus::Active)
    }
}

/// States after the first `n` records of the log.
pub open spec fn log_states(log: Seq<(u64, WalRecordView)>, n: nat) -> LogStates
    decreases n,
{
    if n == 0 {
        Map::empty()
    } else {
        log_step(log_states(log, (n - 1) as nat), log[n - 1].1)
    }
}

/// States of the transactions in a log, in the order of their ids.
pub open spec fn state_rows(s: StoreView) -> Seq<(Seq<char>, LogStateView)> {
    listing::<String, LogStateView>(log_states(log_rows(s), log_rows(s).len()))
}

/// Number of the transaction's versions, among the first `n`, for keys that
/// the log names.
pub open spec fn named_count(alloc: Seq<(Seq<char>, u64)>, keys: Seq<Seq<char>>, n: nat) -> nat
    decreases n,
{
    if n == 0 {
        0
    } else {
        named_count(alloc, keys, (n - 1) as nat) + if keys.contains(alloc[n - 1].0) {
            1nat
        } else {
            0nat
        }
    }
}

/// Every version of the transaction for a key that the log names is in its
/// chain.
pub open spec fn named_published(s: StoreView, txn: Seq<char>, keys: Seq<Seq<char>>) -> bool {
    let alloc = s.txns[txn].alloc_versions;
    forall|i: int|
        0 <= i < alloc.len() && keys.contains((#[trigger] alloc[i]).0) ==> chain_has_own(
            chain_at(s.chains, alloc[i].0).entries,
            txn,
            alloc[i].1,
        )
}

/// The transaction is aborted by recovery.
pub open spec fn recovery_aborted(k: Cleanup, txn: Seq<char>, now: i64) -> Cleanup {
    let rows = write_rows(k.store, txn);
    let d = k.rows_dropped(rows, txn, rows.len());
    let s = d.store.log(WalRecordView::Aborted { txn_id: txn, reason: "crash recovery"@ });
    Cleanup {
        store: if s.txns.contains_key(txn) {
            s.unpin(s.txns[txn].snapshot_version).with_txn(
                txn,
                TxnStateRecordView {
                    status: TxnStatus::Aborted,
                    last_heartbeat_ms: now,
                    ..s.txns[txn]
                },
            )
        } else {
            s.with_txn(
                txn,
                TxnStateRecordView { status: TxnStatus::Aborted, ..active_state(0, None, now) },
            )
        },
        garbage: d.garbage,
    }
}

/// The end of a published transaction's log is written.
pub open spec fn backfilled(k: Cleanup, txn: Seq<char>) -> Cleanup {
    let version = reported_version(k.store.txns[txn]);
    Cleanup {
        store: k.store.log(
            WalRecordView::Committed { txn_id: txn, commit_version: version },
        ).log(
            WalRecordView::CommitResult { txn_id: txn, commit_version: version, success: true },
        ).with_status(txn, TxnStatus::Committed),
        ..k
    }
}

/// How recovery settles one transaction.
pub enum Settlement {
    /// Unknown to the store, or its end is in doubt for nobody.
    Left,
    /// Committed before the crash.
    AlreadyCommitted,
    /// Nothing was published.
    Aborted,
    /// Not all was published.
    AbortedPartial,
    /// All was published.
    Backfilled,
}

/// How a transaction with the given log state is settled.
pub open spec fn settlement(s: StoreView, txn: Seq<char>, log: LogStateView) -> Settlement {
    if !s.txns.contains_key(txn) {
        Settlement::Left
    } else {
        let t = s.txns[txn];
        match t.status {
            TxnStatus::Committed => Settlement::AlreadyCommitted,
            TxnStatus::Aborted => Settlement::Left,
            _ => match log.status {
                TxnStatus::Active => Settlement::Aborted,
                TxnStatus::Committing => if !named_published(s, txn, log.upload_keys) {
                    Settlement::AbortedPartial
                } else if named_count(t.alloc_versions, log.upload_keys, t.alloc_versions.len())
                    > 0 {
                    Settlement::Backfilled
                } else {
                    Settlement::Aborted
                },
                _ => Settlement::Left,
            },
        }
    }
}

/// State after one transaction is settled.
pub open spec fn settled(k: Cleanup, txn: Seq<char>, log: LogStateView, now: i64) -> Cleanup {
    match settlement(k.store, txn, log) {
        Settlement::Left | Settlement::AlreadyCommitted => k,
        Settlement::Aborted | Settlement::AbortedPartial => recovery_aborted(k, txn, now),
        Settlement::Backfilled => backfilled(k, txn),
    }
}

/// State after the first `n` transactions are settled.
pub open spec fn all_settled(
    k: Cleanup,
    rows: Seq<(Seq<char>, LogStateView)>,
    now: i64,
    n: nat,
) -> Cleanup
    decreases n,
{
    if n == 0 {
        k
    } else {
        settled(all_settled(k, rows, now, (n - 1) as nat), rows[n - 1].0, rows[n - 1].1, now)
    }
}

/// Counts after the first `n` transactions are settled.
pub open spec fn settled_counts(
    k: Cleanup,
    rows: Seq<(Seq<char>, LogStateView)>,
    now: i64,
    n: nat,
) -> (nat, nat, nat)
    decreases n,
{
    if n == 0 {
        (0, 0, 0)
    } else {
        let (a, b, c) = settled_counts(k, rows, now, (n - 1) as nat);
        match settlement(
            all_settled(k, rows, now, (n - 1) as nat).store,
            rows[n - 1].0,
            rows[n - 1].1,
        ) {
            Settlement::AlreadyCommitted => (a + 1, b, c),
            Settlement::Backfilled => (a, b + 1, c),
            Settlement::AbortedPartial => (a, b, c + 1),
            _ => (a, b, c),
        }
    }
}

/// State and counts after every transaction of the log is settled.
pub open spec fn recovered(k: Cleanup, now: i64) -> (Cleanup, (nat, nat, nat)) {
    let rows = state_rows(k.store);
    (all_settled(k, rows, now, rows.len()), settled_counts(k, rows, now, rows.len()))
}

/// The counts of a report.
pub open spec fn report_counts(r: RecoveryReport) -> (nat, nat, nat) {
    (
        r.already_committed as nat,
        r.chain_won_wal_race as nat,
        r.partial_uploads_aborted as nat,
    )
}

proof fn lemma_settled_counts(
    k: Cleanup,
    rows: Seq<(Seq<char>, LogStateView)>,
    now: i64,
    n: nat,
)
    ensures
        ({
            let (a, b, c) = settled_counts(k, rows, now, n);
            a <= n && b <= n && c <= n
        }),
    decreases n,
{
    if n > 0 {
        lemma_settled_counts(k, rows, now, (n - 1) as nat);
    }
}

proof fn lemma_settled_log(
    k: Cleanup,
    rows: Seq<(Seq<char>, LogStateView)>,
    now: i64,
    n: nat,
)
    requires
        k.store.last_wal_seq + 2 * n <= u64::MAX,
    ensures
        all_settled(k, rows, now, n).store.last_wal_seq <= k.store.last_wal_seq + 2 * n,
    decreases n,
{
    if n > 0 {
        lemma_settled_log(k, rows, now, (n - 1) as nat);
        let m = all_settled(k, rows, now, (n - 1) as nat);
        let w = write_rows(m.store, rows[n - 1].0);
        lemma_rows_dropped(m, w, rows[n - 1].0, w.len());
    }
}

/// Notes a status for a transaction of the log.
fn note_status(states: &mut Table<String, LogState>, txn_id: &str, status: TxnStatus)
    ensures
        final(states)@ == log_status(old(states)@, txn_id@, status),
{
    let key = txn_id.to_owned();
    let upload_keys: Vec<String> = match states.fetch(&key) {
        Some(s) => s.upload_keys,
        None => Vec::new(),
    };
    assert(texts(upload_keys@) =~= upload_keys_of(states@, txn_id@));
    states.insert(key, LogState { status, upload_keys });
}

/// Notes a transaction of the log that is not known yet.
fn note_seen(states: &mut Table<String, LogState>, txn_id: &str)
    ensures
        final(states)@ == first_seen(old(states)@, txn_id@),
{
    let key = txn_id.to_owned();
    if states.fetch(&key).is_none() {
        note_status(states, txn_id, TxnStatus::Active);
    }
}

/// States of the transactions in a log.
pub fn replay_log(log: &Vec<(u64, WalRecord)>) -> (r: Table<String, LogState>)
    ensures
        r@ == log_states(pair_views(log@), log@.len()),
{
    let ghost views = pair_views(log@);
    let mut states: Table<String, LogState> = Table::new();
    let mut i: usize = 0;
    while i < log.len()
        invariant
            i <= log.len(),
            views == pair_views(log@),
            states@ == log_states(views, i as nat),
        decreases log.len() - i,
    {
        assert(views[i as int] == (log@[i as int].0, log@[i as int].1@));
        match &log[i].1 {
            WalRecord::Begin { txn_id, .. } => note_seen(&mut states, txn_id.as_str()),
            WalRecord::Stage { txn_id, .. } => note_seen(&mut states, txn_id.as_str()),
            WalRecord::CahillEdge { txn_id, .. } => note_seen(&mut states, txn_id.as_str()),
            WalRecord::Committing { txn_id, upload_keys } => {
                states.insert(
                    txn_id.clone(),
                    LogState {
                        status: TxnStatus::Committing,
                        upload_keys: copy_texts(upload_keys),
                    },
                );
            },
            WalRecord::Committed { txn_id, .. } => note_status(
                &mut states,
                txn_id.as_str(),
                TxnStatus::Committed,
            ),
            WalRecord::CommitResult { txn_id, .. } => note_status(
                &mut states,
                txn_id.as_str(),
                TxnStatus::Committed,
            ),
            WalRecord::Commit { txn_id, .. } => note_status(
                &mut states,
                txn_id.as_str(),
                TxnStatus::Committed,
            ),
            WalRecord::Aborted { txn_id, .. } => note_status(
                &mut states,
                txn_id.as_str(),
                TxnStatus::Aborted,
            ),
            WalRecord::MemtableFlushed { .. } => {},
        }
        i += 1;
    }
    states
}

/// How a transaction with the given log state is settled.
pub fn settle_how(store: &LocalStore, txn_id: &str, log: &LogState) -> (r: Settlement)
    ensures
        r == settlement(store@, txn_id@, log@),
{
    let rec = match store.get_txn_state(txn_id) {
        Some(t) => t,
        None => {
            return Settlement::Left;
        },
    };
    match rec.status {
        TxnStatus::Committed => {
            return Settlement::AlreadyCommitted;
        },
        TxnStatus::Aborted => {
            return Settlement::Left;
        },
        _ => {},
    }
    match log.status {
        TxnStatus::Active => Settlement::Aborted,
        TxnStatus::Committing => {
            let ghost alloc = rec@.alloc_versions;
            let ghost keys = log@.upload_keys;
            let mut published: usize = 0;
            let mut pending: bool = false;
            let mut i: usize = 0;
            while i < rec.alloc_versions.len()
                invariant
                    i <= rec.alloc_versions.len(),
                    alloc == text_versions(rec.alloc_versions@),
                    keys == texts(log.upload_keys@),
                    published <= i,
                    pending || published == named_count(alloc, keys, i as nat),
                    !pending <==> forall|j: int|
                        0 <= j < i && keys.contains((#[trigger] alloc[j]).0) ==> chain_has_own(
                            chain_at(store@.chains, alloc[j].0).entries,
                            txn_id@,
                            alloc[j].1,
                        ),
                decreases rec.alloc_versions.len() - i,
            {
                assert(alloc[i as int] == (
                    rec.alloc_versions@[i as int].0@,
                    rec.alloc_versions@[i as int].1,
                ));
                let key = rec.alloc_versions[i].0.as_str();
                if holds_text(&log.upload_keys, key) {
                    if chain_holds_own(store, key, txn_id, rec.alloc_versions[i].1) {
                        published += 1;
                    } else {
                        pending = true;
                    }
                }
                i += 1;
            }
            if pending {
                Settlement::AbortedPartial
            } else if published > 0 {
                Settlement::Backfilled
            } else {
                Settlement::Aborted
            }
        },
        _ => Settlement::Left,
    }
}

/// Aborts a transaction that did not end before the crash.
pub fn abort_txn_no_uploads(
    store: &mut LocalStore,
    garbage: &mut Vec<String>,
    txn_id: &str,
    now_ms: i64,
)
    requires
        old(store)@.last_wal_seq < u64::MAX,
    ensures
        cleanup_of(*final(store), *final(garbage)) == recovery_aborted(
            cleanup_of(*old(store), *old(garbage)),
            txn_id@,
            now_ms,
        ),
{
    let rows = store.iter_write_set(txn_id);
    proof {
        lemma_listing::<String, WriteSetEntryView>(
            pair_views(rows@),
            store@.write_set(txn_id@),
        );
        lemma_rows_dropped(
            cleanup_of(*store, *garbage),
            pair_views(rows@),
            txn_id@,
            rows@.len(),
        );
    }
    drop_rows(store, garbage, &rows, txn_id);
    store.append_wal(
        &WalRecord::Aborted { txn_id: txn_id.to_owned(), reason: "crash recovery".to_owned() },
    );
    match store.get_txn_state(txn_id) {
        Some(t) => {
            let mut rec = t;
            store.unregister_snapshot(rec.snapshot_version);
            rec.status = TxnStatus::Aborted;
            rec.last_heartbeat_ms = now_ms;
            store.put_txn_state(txn_id, &rec);
        },
        None => {
            let mut rec = TxnStateRecord::new_active(0, None, now_ms);
            rec.status = TxnStatus::Aborted;
            store.put_txn_state(txn_id, &rec);
        },
    }
}

/// Writes the end of a published transaction's log.
fn backfill(store: &mut LocalStore, txn_id: &str)
    requires
        old(store)@.txns.contains_key(txn_id@),
        old(store)@.last_wal_seq + 2 <= u64::MAX,
    ensures
        forall|g: Seq<Seq<char>>|
            (Cleanup { store: final(store)@, garbage: g }) == #[trigger] backfilled(
                Cleanup { store: old(store)@, garbage: g },
                txn_id@,
            ),
{
    if let Some(t) = store.get_txn_state(txn_id) {
        let mut rec = t;
        let commit_version = version_to_report(&rec);
        store.append_wal(&WalRecord::Committed { txn_id: txn_id.to_owned(), commit_version });
        store.append_wal(
            &WalRecord::CommitResult { txn_id: txn_id.to_owned(), commit_version, success: true },
        );
        rec.status = TxnStatus::Committed;
        store.put_txn_state(txn_id, &rec);
    }
}

/// Settles every transaction of the log at the given time. Paths of spill
/// files that are no longer needed are added to `garbage`.
pub fn recover_at(store: &mut LocalStore, garbage: &mut Vec<String>, now_ms: i64) -> (r:
    RecoveryReport)
    requires
        old(store)@.last_wal_seq + 2 * state_rows(old(store)@).len() <= u64::MAX,
    ensures
        (cleanup_of(*final(store), *final(garbage)), report_counts(r)) == recovered(
            cleanup_of(*old(store), *old(garbage)),
            now_ms,
        ),
{
    let ghost k = cleanup_of(*store, *garbage);
    let log = store.iter_wal();
    let states = replay_log(&log);
    let rows = states.list();
    let ghost views = pair_views(rows@);
    proof {
        lemma_listing::<u64, WalRecordView>(pair_views(log@), store@.wal);
        lemma_listing::<String, LogStateView>(views, states@);
    }
    let mut report = RecoveryReport::default();
    let mut i: usize = 0;
    while i < rows.len()
        invariant
            i <= rows.len(),
            views == pair_views(rows@),
            k.store.last_wal_seq + 2 * rows@.len() <= u64::MAX,
            cleanup_of(*store, *garbage) == all_settled(k, views, now_ms, i as nat),
            report_counts(report) == settled_counts(k, views, now_ms, i as nat),
        decreases rows.len() - i,
    {
        proof {
            assert(views[i as int] == (rows@[i as int].0@, rows@[i as int].1@));
            lemma_settled_counts(k, views, now_ms, i as nat);
            lemma_settled_log(k, views, now_ms, i as nat);
        }
        let txn_id = rows[i].0.as_str();
        match settle_how(store, txn_id, &rows[i].1) {
            Settlement::Left => {},
            Settlement::AlreadyCommitted => {
                report.already_committed = report.already_committed + 1;
            },
            Settlement::Aborted => {
                abort_txn_no_uploads(store, garbage, txn_id, now_ms);
            },
            Settlement::AbortedPartial => {
                abort_txn_no_uploads(store, garbage, txn_id, now_ms);
                report.partial_uploads_aborted = report.partial_uploads_aborted + 1;
            },
            Settlement::Backfilled => {
                let ghost before = cleanup_of(*store, *garbage);
                backfill(store, txn_id);
                assert(cleanup_of(*store, *garbage) == backfilled(before, txn_id@));
                report.chain_won_wal_race = report.chain_won_wal_race + 1;
            },
        }
        i += 1;
    }
    report
}

/// Settles every transaction of the log. Paths of spill files that are no
/// longer needed are added to `garbage`.
pub fn recover(store: &mut LocalStore, garbage: &mut Vec<String>) -> (r: RecoveryReport)
    requires
        old(store)@.last_wal_seq + 2 * state_rows(old(store)@).len() <= u64::MAX,
    ensures
        exists|now: i64|
            (cleanup_of(*final(store), *final(garbage)), report_counts(r)) == #[trigger] recovered(
                cleanup_of(*old(store), *old(garbage)),
                now,
            ),
{
    let now = now_ms();
    recover_at(store, garbage, now)
}

// ----- laws -----

/// Settling one transaction touches no chain and no version, and changes the
/// state of that transaction only.
proof fn lemma_settled_frame(k: Cleanup, txn: Seq<char>, log: LogStateView, now: i64)
    ensures
        ({
            let n = settled(k, txn, log, now);
            &&& n.store.chains == k.store.chains
            &&& n.store.versions == k.store.versions
            &&& n.store.global_version == k.store.global_version
            &&& n.store.records == k.store.records
            &&& n.store.record_versions == k.store.record_versions
            &&& forall|t: Seq<char>|
                t != txn ==> (#[trigger] n.store.txns.contains_key(t) <==> k.store.txns.contains_key(
                    t,
                )) && (k.store.txns.contains_key(t) ==> n.store.txns[t] == k.store.txns[t])
            &&& k.store.txns.contains_key(txn) ==> n.store.txns.contains_key(txn)
            &&& k.store.txns.contains_key(txn) && !running(k.store.txns[txn])
                ==> n.store.txns[txn] == k.store.txns[txn]
            &&& k.store.txns.contains_key(txn) && (log.status == TxnStatus::Active || log.status
                == TxnStatus::Committing) ==> !running(n.store.txns[txn])
        }),
{
    let rows = write_rows(k.store, txn);
    lemma_rows_dropped(k, rows, txn, rows.len());
}

proof fn lemma_all_settled(
    k: Cleanup,
    rows: Seq<(Seq<char>, LogStateView)>,
    now: i64,
    n: nat,
    t: Seq<char>,
)
    requires
        n <= rows.len(),
    ensures
        ({
            let r = all_settled(k, rows, now, n);
            &&& r.store.chains == k.store.chains
            &&& r.store.versions == k.store.versions
            &&& r.store.global_version == k.store.global_version
            &&& r.store.records == k.store.records
            &&& r.store.record_versions == k.store.record_versions
            &&& k.store.txns.contains_key(t) ==> r.store.txns.contains_key(t)
            &&& k.store.txns.contains_key(t) && !running(k.store.txns[t]) ==> r.store.txns[t]
                == k.store.txns[t]
            &&& forall|i: int|
                0 <= i < n && (#[trigger] rows[i]).0 == t && k.store.txns.contains_key(t) && (
                rows[i].1.status == TxnStatus::Active || rows[i].1.status == TxnStatus::Committing)
                    ==> !running(r.store.txns[t])
        }),
    decreases n,
{
    if n > 0 {
        lemma_all_settled(k, rows, now, (n - 1) as nat, t);
        let m = all_settled(k, rows, now, (n - 1) as nat);
        lemma_settled_frame(m, rows[n - 1].0, rows[n - 1].1, now);
    }
}

/// After recovery every transaction that the log shows unfinished has ended,
/// one that had ended before is as it was, and no chain, version or record has
/// changed.
pub proof fn law_recovery_settles_the_unfinished(k: Cleanup, now: i64, i: int)
    requires
        0 <= i < state_rows(k.store).len(),
    ensures
        ({
            let n = recovered(k, now).0.store;
            let (t, log) = state_rows(k.store)[i];
            &&& n.chains == k.store.chains
            &&& n.versions == k.store.versions
            &&& n.global_version == k.store.global_version
            &&& n.records == k.store.records
            &&& n.record_versions == k.store.record_versions
            &&& k.store.txns.contains_key(t) && !running(k.store.txns[t]) ==> n.txns[t]
                == k.store.txns[t]
            &&& k.store.txns.contains_key(t) && (log.status == TxnStatus::Active || log.status
                == TxnStatus::Committing) ==> !running(n.txns[t])
        }),
{
    let rows = state_rows(k.store);
    lemma_all_settled(k, rows, now, rows.len(), rows[i].0);
    assert(rows[i].0 == rows[i].0);
}

/// A transaction whose versions are all in their chains is never aborted by
/// recovery, and one of which nothing is in a chain is never committed by it.
pub proof fn law_recovery_follows_the_chains(
    k: Cleanup,
    txn: Seq<char>,
    keys: Seq<Seq<char>>,
    now: i64,
)
    requires
        k.store.txns.contains_key(txn),
        running(k.store.txns[txn]),
    ensures
        ({
            let log = LogStateView { status: TxnStatus::Committing, upload_keys: keys };
            let alloc = k.store.txns[txn].alloc_versions;
            let n = settled(k, txn, log, now).store.txns[txn].status;
            n == TxnStatus::Committed <==> named_count(alloc, keys, alloc.len()) > 0
                && named_published(k.store, txn, keys)
        }),
{
    let rows = write_rows(k.store, txn);
    lemma_rows_dropped(k, rows, txn, rows.len());
}

/// Recovery keeps the store sound.
pub proof fn law_recovery_keeps_soundness(k: Cleanup, now: i64)
    requires
        sound(k.store),
        k.store.last_wal_seq + 2 * state_rows(k.store).len() <= u64::MAX,
    ensures
        sound(recovered(k, now).0.store),
{
    let rows = state_rows(k.store);
    lemma_settled_sound(k, rows, now, rows.len());
}

proof fn lemma_settled_sound(
    k: Cleanup,
    rows: Seq<(Seq<char>, LogStateView)>,
    now: i64,
    n: nat,
)
    requires
        sound(k.store),
        n <= rows.len(),
        k.store.last_wal_seq + 2 * n <= u64::MAX,
    ensures
        sound(all_settled(k, rows, now, n).store),
    decreases n,
{
    if n > 0 {
        lemma_settled_sound(k, rows, now, (n - 1) as nat);
        lemma_settled_log(k, rows, now, (n - 1) as nat);
        let m = all_settled(k, rows, now, (n - 1) as nat);
        let txn = rows[n - 1].0;
        let log = rows[n - 1].1;
        let s = settled(m, txn, log, now).store;
        let w = write_rows(m.store, txn);
        lemma_rows_dropped(m, w, txn, w.len());
        match settlement(m.store, txn, log) {
            Settlement::Left | Settlement::AlreadyCommitted => {},
            Settlement::Aborted | Settlement::AbortedPartial => {
                assert(s.txns =~= m.store.txns.insert(txn, s.txns[txn]));
                lemma_ended(m.store, s, txn);
            },
            Settlement::Backfilled => {
                assert(s.txns =~= m.store.txns.insert(txn, s.txns[txn]));
                lemma_same_running(m.store, s, txn);
            },
        }
    }
}

} // verus!
