//! Laws of write skew: of two transactions that each write what the other has
//! read, one commits.

use crate::cahill::has_peer;
use crate::cleanup::lemma_rows_dropped;
use crate::commit_laws::{
    bodies_at_hand, law_unopposed_commit_succeeds, lemma_same_bodies, writes_are_fresh,
};
use crate::commit_steps::{
    active_txn, bodies_to_commit, body_to_commit, spill_handle, spill_index, write_rows,
    SPILL_THRESHOLD, CoordView, Failure, SpillReadView,
};
use crate::si_lock_manager::{
    edge_free, endangered_only_by, law_abort_clears_the_peer, law_abort_frees_the_peer,
    law_current_read_adds_no_edge, law_fresh_writers_endanger_only_each_other,
    law_missed_write_endangers_the_reader, law_write_skew_endangers_both, lemma_committed_writers,
    lemma_committed_writes, lemma_written_writes, list_at, missed, misses_nothing, KeyWriterView,
    LocksView,
};
use crate::store::StoreView;
use crate::store_chains::{after_gc, chain_at};
use crate::store_laws::{law_gc_keeps_newest, newest_is_own};
use crate::table::{lemma_listing, lemma_lists};
use crate::txn_laws::{
    law_commit_is_atomic_at_one_version, law_commit_keeps_soundness,
    law_endangered_txn_cannot_commit, law_failed_commit_aborts, law_failed_commit_publishes_nothing,
    law_stage_keeps_soundness, law_stale_write_cannot_commit, sound,
};
use crate::txn_state::{TxnStateRecordView, WriteSetEntryView};
use crate::types::{ErrorKind, TxnStatus};
use crate::version_chain::latest_version;
use vstd::prelude::*;

verus! {

// ----- when one is refused -----

/// The chains of keys that the transaction did not write are as they were.
pub open spec fn chains_kept(c: CoordView, n: CoordView, t: TxnStateRecordView) -> bool {
    forall|k: Seq<char>|
        !t.write_keys.contains(k) ==> #[trigger] chain_at(n.store.chains, k).entries == chain_at(
            c.store.chains,
            k,
        ).entries
}

/// How a commit is asked for: what the reads of spill files gave, the time, and
/// the age of the active memtable.
pub ghost struct CommitCall {
    pub reads: Seq<SpillReadView>,
    pub now: i64,
    pub age_ms: u64,
}

/// The transaction asks to commit.
pub open spec fn commits(c: CoordView, txn: Seq<char>, p: CommitCall) -> (
    CoordView,
    Result<u64, Failure>,
) {
    c.committed(txn, p.reads, p.now, p.age_ms)
}

/// What `txn` needs to commit once `refused` has given way: nobody else
/// endangers it, nobody has written its keys since its snapshot, and its
/// bodies are at hand.
pub open spec fn may_follow(
    c: CoordView,
    txn: Seq<char>,
    refused: Seq<char>,
    reads: Seq<SpillReadView>,
) -> bool {
    &&& endangered_only_by(c.locks, txn, refused)
    &&& writes_are_fresh(c.store, txn)
    &&& bodies_at_hand(c.store, txn, reads)
}

/// The commit of `refused` is a conflict that aborts it and publishes nothing.
/// The commit of `peer` then succeeds and touches no chain but those of its
/// own keys.
pub open spec fn one_side_commits(
    c: CoordView,
    refused: Seq<char>,
    peer: Seq<char>,
    p: CommitCall,
    q: CommitCall,
) -> bool {
    let (n, first) = commits(c, refused, p);
    let (m, second) = commits(n, peer, q);
    &&& first matches Err(e) && e.0 == ErrorKind::Conflict
    &&& second is Ok
    &&& n.store.chains == c.store.chains
    &&& m.store.txns[refused].status == TxnStatus::Aborted
    &&& m.store.txns[peer].status == TxnStatus::Committed
    &&& chains_kept(c, m, c.store.txns[peer])
}

/// What the commit of an endangered transaction leaves of the rest.
proof fn lemma_refused_commit_rest(
    c: CoordView,
    txn: Seq<char>,
    reads: Seq<SpillReadView>,
    now: i64,
    age_ms: u64,
)
    requires
        sound(c.store),
        active_txn(c.store, txn) is Ok,
        c.locks.danger(txn) is Some,
        c.has_room(txn),
    ensures
        ({
            let (n, r) = c.committed(txn, reads, now, age_ms);
            &&& r is Err
            &&& bodies_at_hand(c.store, txn, reads) ==> (r matches Err(e) && e.0
                == ErrorKind::Conflict)
            &&& n.store.writes == c.store.writes
            &&& n.store.blobs == c.store.blobs
            &&& n.mem == c.mem
            &&& n.store.global_version == c.store.global_version
            &&& n.store.last_wal_seq == c.store.last_wal_seq + 1
        }),
{
    let owned = CoordView { store: c.store.with_status(txn, TxnStatus::Committing), ..c };
    let rows = write_rows(owned.store, txn);
    assert(owned.store.writes == c.store.writes);
    lemma_same_bodies(c.store, owned.store, reads, rows, rows.len());
    assert(c.store.txns[txn].alloc_versions.len() == 0);
}

/// A transaction that a peer endangers is refused and ends aborted, and
/// nothing is published; the refusal is a conflict where its bodies are at
/// hand. The peer then commits just when nobody else endangers it, nobody has
/// written its keys since its snapshot, and its bodies are at hand.
pub proof fn law_refused_txn_frees_its_peer(
    c: CoordView,
    refused: Seq<char>,
    peer: Seq<char>,
    p: CommitCall,
    q: CommitCall,
)
    requires
        sound(c.store),
        refused != peer,
        active_txn(c.store, refused) is Ok,
        active_txn(c.store, peer) is Ok,
        c.locks.danger(refused) is Some,
        c.has_room(refused),
        c.has_room(peer),
        c.store.last_wal_seq + 4 <= u64::MAX,
    ensures
        ({
            let (n, first) = commits(c, refused, p);
            let second = commits(n, peer, q).1;
            &&& first is Err
            &&& n.store.txns[refused].status == TxnStatus::Aborted
            &&& n.store.chains == c.store.chains
            &&& n.locks.danger(peer) != Some(refused)
            &&& bodies_at_hand(c.store, refused, p.reads) ==> (first matches Err(e) && e.0
                == ErrorKind::Conflict)
            &&& second is Ok <==> may_follow(c, peer, refused, q.reads)
            &&& second is Ok && bodies_at_hand(c.store, refused, p.reads) ==> one_side_commits(
                c,
                refused,
                peer,
                p,
                q,
            )
        }),
{
    let (n, first) = commits(c, refused, p);
    let second = commits(n, peer, q).1;
    law_endangered_txn_cannot_commit(c, refused, p.reads, p.now, p.age_ms);
    law_failed_commit_publishes_nothing(c, refused, p.reads, p.now, p.age_ms);
    law_failed_commit_aborts(c, refused, p.reads, p.now, p.age_ms);
    law_commit_keeps_soundness(c, refused, p.reads, p.now, p.age_ms);
    law_abort_frees_the_peer(c.locks, refused, peer);
    law_abort_clears_the_peer(c.locks, refused, peer);
    lemma_refused_commit_rest(c, refused, p.reads, p.now, p.age_ms);
    let rows = write_rows(c.store, peer);
    assert(write_rows(n.store, peer) == rows);
    lemma_same_bodies(c.store, n.store, q.reads, rows, rows.len());
    assert(n.store.txns[peer] == c.store.txns[peer]);
    assert(n.has_room(peer));
    if may_follow(c, peer, refused, q.reads) {
        law_unopposed_commit_succeeds(n, peer, q.reads, q.now, q.age_ms);
    }
    if !endangered_only_by(c.locks, peer, refused) {
        law_endangered_txn_cannot_commit(n, peer, q.reads, q.now, q.age_ms);
    }
    if !writes_are_fresh(c.store, peer) {
        let k = choose|k: Seq<char>| #[trigger]
            c.store.txns[peer].write_keys.contains(k) && !(chain_at(
                c.store.chains,
                k,
            ).entries.len() == 0 || latest_version(chain_at(c.store.chains, k).entries)
                <= c.store.txns[peer].snapshot_version);
        law_stale_write_cannot_commit(n, peer, q.reads, q.now, q.age_ms, k);
    }
    if !bodies_at_hand(c.store, peer, q.reads) {
        lemma_bodies_wanted(n, peer, q.reads, q.now, q.age_ms);
    }
    if second is Ok {
        law_commit_is_atomic_at_one_version(n, peer, q.reads, q.now, q.age_ms);
    }
}

/// A transaction whose bodies are not at hand does not commit.
proof fn lemma_bodies_wanted(
    c: CoordView,
    txn: Seq<char>,
    reads: Seq<SpillReadView>,
    now: i64,
    age_ms: u64,
)
    requires
        active_txn(c.store, txn) is Ok,
        !bodies_at_hand(c.store, txn, reads),
    ensures
        c.committed(txn, reads, now, age_ms).1 is Err,
{
    let owned = CoordView { store: c.store.with_status(txn, TxnStatus::Committing), ..c };
    let rows = write_rows(owned.store, txn);
    assert(owned.store.writes == c.store.writes);
    lemma_same_bodies(c.store, owned.store, reads, rows, rows.len());
}

// ----- reads that come before the writes -----

/// Write skew is refused: where each of two transactions has read what the
/// other then writes, the first that asks to commit is refused and aborted,
/// whichever it is, and nothing is published; the refusal is a conflict where
/// its bodies are at hand. The other then commits just when no third
/// transaction endangers it, nobody has written its keys since its snapshot,
/// and its bodies are at hand.
pub proof fn law_write_skew_is_refused(
    c: CoordView,
    a: Seq<char>,
    b: Seq<char>,
    body_a: Seq<u8>,
    body_b: Seq<u8>,
    write_a: WriteSetEntryView,
    write_b: WriteSetEntryView,
    at_a: i64,
    at_b: i64,
    p: CommitCall,
    q: CommitCall,
)
    requires
        sound(c.store),
        a != b,
        active_txn(c.store, a) is Ok,
        active_txn(c.store, b) is Ok,
        c.locks.by_txn.contains_key(a),
        c.locks.by_txn.contains_key(b),
        list_at(c.locks.readers_of, write_b.backend_key).contains(a),
        list_at(c.locks.readers_of, write_a.backend_key).contains(b),
        c.store.last_wal_seq + 6 <= u64::MAX,
        ({
            let d = c.staged(a, body_a, write_a, at_a).staged(b, body_b, write_b, at_b);
            d.has_room(a) && d.has_room(b)
        }),
    ensures
        ({
            let d = c.staged(a, body_a, write_a, at_a).staged(b, body_b, write_b, at_b);
            &&& refused_first(d, a, b, p, q)
            &&& refused_first(d, b, a, p, q)
            &&& d.store.chains == c.store.chains
        }),
{
    let d1 = c.staged(a, body_a, write_a, at_a);
    let d = d1.staged(b, body_b, write_b, at_b);
    lemma_skew_danger(c, a, b, body_a, body_b, write_a, write_b, at_a, at_b);
    law_stage_keeps_soundness(c, a, body_a, write_a, at_a);
    law_stage_keeps_soundness(d1, b, body_b, write_b, at_b);
    law_refused_txn_frees_its_peer(d, a, b, p, q);
    law_refused_txn_frees_its_peer(d, b, a, p, q);
}

/// `first` asks to commit first: it is refused and aborted, and nothing is
/// published. Whether `other` commits then rests on others alone.
pub open spec fn refused_first(
    d: CoordView,
    first: Seq<char>,
    other: Seq<char>,
    p: CommitCall,
    q: CommitCall,
) -> bool {
    let (n, r) = commits(d, first, p);
    &&& r is Err
    &&& bodies_at_hand(d.store, first, p.reads) ==> (r matches Err(e) && e.0 == ErrorKind::Conflict)
    &&& n.store.txns[first].status == TxnStatus::Aborted
    &&& n.store.chains == d.store.chains
    &&& commits(n, other, q).1 is Ok <==> may_follow(d, other, first, q.reads)
    &&& may_follow(d, other, first, q.reads) && bodies_at_hand(d.store, first, p.reads)
        ==> one_side_commits(d, first, other, p, q)
}

/// After both writes each of the two finds the other.
proof fn lemma_skew_danger(
    c: CoordView,
    a: Seq<char>,
    b: Seq<char>,
    body_a: Seq<u8>,
    body_b: Seq<u8>,
    write_a: WriteSetEntryView,
    write_b: WriteSetEntryView,
    at_a: i64,
    at_b: i64,
)
    requires
        a != b,
        c.locks.by_txn.contains_key(a),
        c.locks.by_txn.contains_key(b),
        list_at(c.locks.readers_of, write_b.backend_key).contains(a),
        list_at(c.locks.readers_of, write_a.backend_key).contains(b),
    ensures
        ({
            let d = c.staged(a, body_a, write_a, at_a).staged(b, body_b, write_b, at_b);
            d.locks.danger(a) is Some && d.locks.danger(b) is Some
        }),
        edge_free(c.locks, a) && edge_free(c.locks, b) ==> ({
            let d = c.staged(a, body_a, write_a, at_a).staged(b, body_b, write_b, at_b);
            endangered_only_by(d.locks, a, b) && endangered_only_by(d.locks, b, a)
        }),
{
    let d1 = c.staged(a, body_a, write_a, at_a);
    let va = if c.store.txns[a].snapshot_version < u64::MAX {
        (c.store.txns[a].snapshot_version + 1) as u64
    } else {
        u64::MAX
    };
    let vb = if d1.store.txns[b].snapshot_version < u64::MAX {
        (d1.store.txns[b].snapshot_version + 1) as u64
    } else {
        u64::MAX
    };
    let x = write_a.backend_key;
    let y = write_b.backend_key;
    law_write_skew_endangers_both(c.locks, a, b, y, x, va, vb);
    if edge_free(c.locks, a) && edge_free(c.locks, b) {
        law_fresh_writers_endanger_only_each_other(c.locks, a, b, x, y, va, vb);
    }
}

// ----- two transactions with one write each -----

/// A write that a transaction stages.
pub ghost struct OneWrite {
    pub txn: Seq<char>,
    pub key: Seq<char>,
    pub body: Seq<u8>,
    pub content_type: Option<Seq<char>>,
    pub user_meta: Seq<(Seq<char>, Seq<char>)>,
    pub deleted: bool,
    /// When it is staged.
    pub at: i64,
}

/// The entry that staging the write stores.
pub open spec fn entry_of(c: CoordView, w: OneWrite) -> WriteSetEntryView {
    c.staged_entry(w.txn, w.key, w.body, w.content_type, w.user_meta, w.deleted)
}

/// The write is staged.
pub open spec fn stages(c: CoordView, w: OneWrite) -> CoordView {
    c.staged(w.txn, w.body, entry_of(c, w), w.at)
}

/// The transaction has staged nothing yet.
pub open spec fn wrote_nothing(s: StoreView, txn: Seq<char>) -> bool {
    &&& s.txns[txn].write_keys.len() == 0
    &&& forall|k: Seq<char>| !#[trigger] s.writes.contains_key((txn, k))
}

/// No version of the key is above the transaction's snapshot.
pub open spec fn unwritten_since(s: StoreView, key: Seq<char>, txn: Seq<char>) -> bool {
    latest_version(chain_at(s.chains, key).entries) <= s.txns[txn].snapshot_version
}

/// The body is kept inline, or its spill file was read.
pub open spec fn body_readable(reads: Seq<SpillReadView>, w: OneWrite) -> bool {
    let file = spill_index(reads, spill_handle(w.txn, w.key), 0);
    w.body.len() > SPILL_THRESHOLD ==> (file matches Some(i) && reads[i].content is Ok)
}

/// A transaction with one staged write has one row, and needs one body.
proof fn lemma_one_write(
    s: StoreView,
    txn: Seq<char>,
    key: Seq<char>,
    e: WriteSetEntryView,
    reads: Seq<SpillReadView>,
)
    requires
        s.writes.contains_key((txn, key)),
        s.writes[(txn, key)] == e,
        forall|k: Seq<char>| #[trigger] s.writes.contains_key((txn, k)) ==> k == key,
        body_to_commit(s, reads, e) is Ok,
    ensures
        write_rows(s, txn).len() == 1,
        bodies_at_hand(s, txn, reads),
{
    let rows: Seq<(Seq<char>, WriteSetEntryView)> = seq![(key, e)];
    let m = s.write_set(txn);
    assert(m.contains_key(key));
    assert forall|k: Seq<char>| #[trigger] m.contains_key(k) implies exists|i: int|
        0 <= i < rows.len() && (#[trigger] rows[i]).0 == k by {
        assert(s.writes.contains_key((txn, k)));
        assert(rows[0].0 == k);
    }
    lemma_lists::<String, WriteSetEntryView>(rows, m);
    lemma_listing::<String, WriteSetEntryView>(rows, m);
    assert(write_rows(s, txn) == rows);
    assert(bodies_to_commit(s, reads, rows, 0) is Ok);
    assert(rows[0].1 == e);
    assert(bodies_to_commit(s, reads, rows, 1) is Ok);
}

/// What staging both writes leaves of one of them.
proof fn lemma_both_staged(
    c: CoordView,
    wa: OneWrite,
    wb: OneWrite,
    reads: Seq<SpillReadView>,
)
    requires
        wa.txn != wb.txn,
        active_txn(c.store, wa.txn) is Ok,
        active_txn(c.store, wb.txn) is Ok,
        wrote_nothing(c.store, wa.txn),
        wrote_nothing(c.store, wb.txn),
        unwritten_since(c.store, wa.key, wa.txn),
        unwritten_since(c.store, wb.key, wb.txn),
        body_readable(reads, wa),
        body_readable(reads, wb),
    ensures
        ({
            let d = stages(stages(c, wa), wb);
            &&& write_rows(d.store, wa.txn).len() == 1
            &&& write_rows(d.store, wb.txn).len() == 1
            &&& bodies_at_hand(d.store, wa.txn, reads)
            &&& bodies_at_hand(d.store, wb.txn, reads)
            &&& writes_are_fresh(d.store, wa.txn)
            &&& writes_are_fresh(d.store, wb.txn)
            &&& d.store.txns[wa.txn].write_keys == seq![wa.key]
            &&& d.store.txns[wb.txn].write_keys == seq![wb.key]
            &&& d.store.chains == c.store.chains
            &&& d.store.global_version == c.store.global_version
            &&& d.store.last_wal_seq == c.store.last_wal_seq + 2 || c.store.last_wal_seq + 2
                > u64::MAX
            &&& d.mem == c.mem
        }),
{
    let c1 = stages(c, wa);
    let d = stages(c1, wb);
    let ea = entry_of(c, wa);
    let eb = entry_of(c1, wb);
    assert(d.store.writes == c.store.writes.insert((wa.txn, wa.key), ea).insert(
        (wb.txn, wb.key),
        eb,
    ));
    lemma_one_write(d.store, wa.txn, wa.key, ea, reads);
    lemma_one_write(d.store, wb.txn, wb.key, eb, reads);
    assert(d.store.txns[wa.txn].write_keys =~= seq![wa.key]);
    assert(d.store.txns[wb.txn].write_keys =~= seq![wb.key]);
}

/// Write skew never commits on both sides, and always on one: where two
/// transactions have only read so far, each has read what the other then
/// writes, and nobody has written the two keys since their snapshots, the first
/// that asks to commit is refused with a conflict and aborted, the chain of its
/// key stays as it is, and the other commits. It does not matter what other
/// transactions there are.
pub proof fn law_write_skew_commits_on_one_side(
    c: CoordView,
    wa: OneWrite,
    wb: OneWrite,
    p: CommitCall,
    q: CommitCall,
)
    requires
        sound(c.store),
        wa.txn != wb.txn,
        active_txn(c.store, wa.txn) is Ok,
        active_txn(c.store, wb.txn) is Ok,
        edge_free(c.locks, wa.txn),
        edge_free(c.locks, wb.txn),
        wrote_nothing(c.store, wa.txn),
        wrote_nothing(c.store, wb.txn),
        list_at(c.locks.readers_of, wb.key).contains(wa.txn),
        list_at(c.locks.readers_of, wa.key).contains(wb.txn),
        unwritten_since(c.store, wa.key, wa.txn),
        unwritten_since(c.store, wb.key, wb.txn),
        body_readable(p.reads, wa) && body_readable(p.reads, wb),
        body_readable(q.reads, wa) && body_readable(q.reads, wb),
        c.store.last_wal_seq + 6 <= u64::MAX,
        c.store.global_version < u64::MAX,
        c.mem.active.id < u64::MAX,
    ensures
        ({
            let d = stages(stages(c, wa), wb);
            &&& one_side_commits(d, wa.txn, wb.txn, p, q)
            &&& one_side_commits(d, wb.txn, wa.txn, p, q)
            &&& d.store.chains == c.store.chains
            &&& d.store.txns[wa.txn].write_keys == seq![wa.key]
            &&& d.store.txns[wb.txn].write_keys == seq![wb.key]
        }),
{
    let c1 = stages(c, wa);
    let d = stages(c1, wb);
    lemma_both_staged(c, wa, wb, p.reads);
    lemma_both_staged(c, wa, wb, q.reads);
    lemma_skew_danger(
        c,
        wa.txn,
        wb.txn,
        wa.body,
        wb.body,
        entry_of(c, wa),
        entry_of(c1, wb),
        wa.at,
        wb.at,
    );
    law_write_skew_is_refused(
        c,
        wa.txn,
        wb.txn,
        wa.body,
        wb.body,
        entry_of(c, wa),
        entry_of(c1, wb),
        wa.at,
        wb.at,
        p,
        q,
    );
}

// ----- locks and chains -----

/// The lock manager is in step with the store: no committed writer is ahead of
/// the chain of its key, and an active transaction holds write locks only for
/// keys that it has staged.
pub open spec fn locks_in_step(c: CoordView) -> bool {
    &&& forall|k: Seq<char>, i: int|
        0 <= i < list_at(c.locks.writers_of, k).len() && (#[trigger] list_at(
            c.locks.writers_of,
            k,
        )[i]).is_recently_committed ==> list_at(c.locks.writers_of, k)[i].committed_version
            <= latest_version(chain_at(c.store.chains, k).entries)
    &&& forall|t: Seq<char>, i: int|
        active_txn(c.store, t) is Ok && c.locks.by_txn.contains_key(t) && 0 <= i
            < c.locks.by_txn[t].writes.len() ==> c.store.txns[t].write_keys.contains(
            (#[trigger] c.locks.by_txn[t].writes[i]).key,
        )
}

/// A coordinator without locks is in step, whatever its store holds.
pub proof fn law_no_locks_are_in_step(c: CoordView)
    requires
        c.locks == LocksView::empty(),
    ensures
        locks_in_step(c),
{
}

/// Beginning a transaction keeps the locks in step.
pub proof fn law_begin_keeps_locks_in_step(
    c: CoordView,
    txn: Seq<char>,
    idempotency_key: Option<Seq<char>>,
    now: i64,
)
    requires
        locks_in_step(c),
    ensures
        locks_in_step(c.begun(txn, idempotency_key, now).0),
{
    let n = c.begun(txn, idempotency_key, now).0;
    assert(n.locks.writers_of == c.locks.writers_of);
    assert forall|t: Seq<char>, i: int|
        active_txn(n.store, t) is Ok && n.locks.by_txn.contains_key(t) && 0 <= i
            < n.locks.by_txn[t].writes.len() implies n.store.txns[t].write_keys.contains(
        (#[trigger] n.locks.by_txn[t].writes[i]).key,
    ) by {
        if t != txn {
            assert(c.locks.by_txn[t].writes[i] == n.locks.by_txn[t].writes[i]);
        }
    }
}

/// Noting a read, or that a transaction is alive, keeps the locks in step.
pub proof fn law_read_keeps_locks_in_step(
    c: CoordView,
    txn: Seq<char>,
    key: Seq<char>,
    version: u64,
    etag: Seq<char>,
    now: i64,
)
    requires
        locks_in_step(c),
        active_txn(c.store, txn) is Ok,
    ensures
        locks_in_step(c.noted_read(txn, key, version, etag)),
        locks_in_step(c.alive(txn, now)),
{
    let n = c.noted_read(txn, key, version, etag);
    assert(n.locks.writers_of == c.locks.writers_of);
    assert forall|t: Seq<char>, i: int|
        active_txn(n.store, t) is Ok && n.locks.by_txn.contains_key(t) && 0 <= i
            < n.locks.by_txn[t].writes.len() implies n.store.txns[t].write_keys.contains(
        (#[trigger] n.locks.by_txn[t].writes[i]).key,
    ) by {
        assert(c.locks.by_txn[t].writes[i] == n.locks.by_txn[t].writes[i]);
    }
    let m = c.alive(txn, now);
    assert forall|t: Seq<char>, i: int|
        active_txn(m.store, t) is Ok && m.locks.by_txn.contains_key(t) && 0 <= i
            < m.locks.by_txn[t].writes.len() implies m.store.txns[t].write_keys.contains(
        (#[trigger] m.locks.by_txn[t].writes[i]).key,
    ) by {
        assert(c.locks.by_txn[t].writes[i] == m.locks.by_txn[t].writes[i]);
    }
}

/// Staging a write keeps the locks in step.
pub proof fn law_stage_keeps_locks_in_step(
    c: CoordView,
    txn: Seq<char>,
    body: Seq<u8>,
    e: WriteSetEntryView,
    now: i64,
)
    requires
        locks_in_step(c),
        active_txn(c.store, txn) is Ok,
    ensures
        locks_in_step(c.staged(txn, body, e, now)),
{
    let n = c.staged(txn, body, e, now);
    let key = e.backend_key;
    let before = c.store.txns[txn].write_keys;
    let after = n.store.txns[txn].write_keys;
    assert forall|k: Seq<char>, i: int|
        0 <= i < list_at(n.locks.writers_of, k).len() && (#[trigger] list_at(
            n.locks.writers_of,
            k,
        )[i]).is_recently_committed implies list_at(n.locks.writers_of, k)[i].committed_version
        <= latest_version(chain_at(n.store.chains, k).entries) by {
        let old = list_at(c.locks.writers_of, k);
        if i < old.len() {
            assert(list_at(n.locks.writers_of, k)[i] == old[i]);
        }
    }
    assert(after.contains(key)) by {
        if !before.contains(key) {
            assert(after[before.len() as int] == key);
        }
    }
    assert forall|t: Seq<char>, i: int|
        active_txn(n.store, t) is Ok && n.locks.by_txn.contains_key(t) && 0 <= i
            < n.locks.by_txn[t].writes.len() implies n.store.txns[t].write_keys.contains(
        (#[trigger] n.locks.by_txn[t].writes[i]).key,
    ) by {
        let next = if c.store.txns[txn].snapshot_version < u64::MAX {
            (c.store.txns[txn].snapshot_version + 1) as u64
        } else {
            u64::MAX
        };
        lemma_written_writes(c.locks, txn, key, next, t);
        let old = c.locks.by_txn[t].writes;
        if i < old.len() {
            let k = old[i].key;
            assert(c.store.txns[t].write_keys.contains(k));
            assert(n.locks.by_txn[t].writes[i] == old[i]);
            if t == txn && !before.contains(key) {
                let w = choose|w: int| 0 <= w < before.len() && before[w] == k;
                assert(after[w] == k);
            }
        }
    }
}

/// Aborting a transaction keeps the locks in step.
pub proof fn law_abort_keeps_locks_in_step(c: CoordView, txn: Seq<char>)
    requires
        locks_in_step(c),
    ensures
        locks_in_step(c.aborted(txn).0),
{
    let n = c.aborted(txn).0;
    if c.store.txns.contains_key(txn) && c.store.txns[txn].status == TxnStatus::Active {
        let rows = write_rows(c.store, txn);
        let m = CoordView { store: c.store.with_status(txn, TxnStatus::Aborted), ..c }.cleanup();
        lemma_rows_dropped(m, rows, txn, rows.len());
        lemma_aborted_in_step(c, n, txn);
    }
}

/// Locks stay in step where one transaction ends and releases its locks.
proof fn lemma_aborted_in_step(c: CoordView, n: CoordView, txn: Seq<char>)
    requires
        locks_in_step(c),
        n.locks == c.locks.aborted(txn),
        n.store.chains == c.store.chains,
        n.store.txns == c.store.txns.insert(txn, n.store.txns[txn]),
    ensures
        locks_in_step(n),
{
    let keep = |w: KeyWriterView| w.txn_id != txn;
    assert forall|k: Seq<char>, i: int|
        0 <= i < list_at(n.locks.writers_of, k).len() && (#[trigger] list_at(
            n.locks.writers_of,
            k,
        )[i]).is_recently_committed implies list_at(n.locks.writers_of, k)[i].committed_version
        <= latest_version(chain_at(n.store.chains, k).entries) by {
        let old = list_at(c.locks.writers_of, k);
        let new = list_at(n.locks.writers_of, k);
        assert(new == old.filter(keep));
        old.lemma_filter_contains_rev(keep, new[i]);
        let w = choose|w: int| 0 <= w < old.len() && old[w] == new[i];
        assert(old[w].is_recently_committed);
    }
    assert forall|t: Seq<char>, i: int|
        active_txn(n.store, t) is Ok && n.locks.by_txn.contains_key(t) && 0 <= i
            < n.locks.by_txn[t].writes.len() implies n.store.txns[t].write_keys.contains(
        (#[trigger] n.locks.by_txn[t].writes[i]).key,
    ) by {
        assert(c.locks.by_txn[t].writes[i] == n.locks.by_txn[t].writes[i]);
    }
}

/// Committing a transaction keeps the locks in step, whether or not it
/// succeeds.
pub proof fn law_commit_keeps_locks_in_step(
    c: CoordView,
    txn: Seq<char>,
    reads: Seq<SpillReadView>,
    now: i64,
    age_ms: u64,
)
    requires
        sound(c.store),
        locks_in_step(c),
        c.has_room(txn),
    ensures
        locks_in_step(c.committed(txn, reads, now, age_ms).0),
{
    let (n, r) = c.committed(txn, reads, now, age_ms);
    if active_txn(c.store, txn) is Ok {
        if r is Ok {
            law_commit_is_atomic_at_one_version(c, txn, reads, now, age_ms);
            lemma_commit_in_step(c, n, txn, r->Ok_0, now);
        } else {
            law_failed_commit_publishes_nothing(c, txn, reads, now, age_ms);
            law_failed_commit_aborts(c, txn, reads, now, age_ms);
            lemma_aborted_in_step(c, n, txn);
        }
    }
}

proof fn lemma_commit_in_step(
    c: CoordView,
    n: CoordView,
    txn: Seq<char>,
    version: u64,
    now: i64,
)
    requires
        sound(c.store),
        locks_in_step(c),
        active_txn(c.store, txn) is Ok,
        crate::txn_laws::commit_took(c, n, txn, version),
        n.locks == c.locks.committed(txn, version, now),
    ensures
        locks_in_step(n),
{
    let t = c.store.txns[txn];
    assert forall|k: Seq<char>, i: int|
        0 <= i < list_at(n.locks.writers_of, k).len() && (#[trigger] list_at(
            n.locks.writers_of,
            k,
        )[i]).is_recently_committed implies list_at(n.locks.writers_of, k)[i].committed_version
        <= latest_version(chain_at(n.store.chains, k).entries) by {
        let old = list_at(c.locks.writers_of, k);
        let new = list_at(n.locks.writers_of, k);
        let a = chain_at(c.store.chains, k).entries;
        let b = chain_at(n.store.chains, k).entries;
        lemma_committed_writers(c.locks, txn, version, now, k);
        assert(b == a || b == a.push(b.last()));
        if t.write_keys.contains(k) {
            assert(newest_is_own(b, txn, version));
            if a.len() > 0 {
                assert(chain_at(c.store.chains, k).entries[a.len() - 1].commit_version
                    <= c.store.global_version);
            }
        }
        if new[i] == old[i] {
            assert(old[i].is_recently_committed);
        } else {
            let j = choose|j: int|
                0 <= j < c.locks.by_txn[txn].writes.len() && (
                #[trigger] c.locks.by_txn[txn].writes[j]).key == k;
            assert(t.write_keys.contains(c.locks.by_txn[txn].writes[j].key));
        }
    }
    assert forall|u: Seq<char>, i: int|
        active_txn(n.store, u) is Ok && n.locks.by_txn.contains_key(u) && 0 <= i
            < n.locks.by_txn[u].writes.len() implies n.store.txns[u].write_keys.contains(
        (#[trigger] n.locks.by_txn[u].writes[i]).key,
    ) by {
        lemma_committed_writes(c.locks, txn, version, now, u);
        assert(c.locks.by_txn[u].writes[i] == n.locks.by_txn[u].writes[i]);
    }
}

/// Collecting old versions keeps the locks in step.
pub proof fn law_gc_keeps_locks_in_step(c: CoordView, requested: Option<u64>)
    requires
        sound(c.store),
        locks_in_step(c),
    ensures
        locks_in_step(CoordView { store: after_gc(c.store, requested), ..c }),
{
    let n = CoordView { store: after_gc(c.store, requested), ..c };
    assert forall|k: Seq<char>, i: int|
        0 <= i < list_at(n.locks.writers_of, k).len() && (#[trigger] list_at(
            n.locks.writers_of,
            k,
        )[i]).is_recently_committed implies list_at(n.locks.writers_of, k)[i].committed_version
        <= latest_version(chain_at(n.store.chains, k).entries) by {
        law_gc_keeps_newest(c.store, requested, k);
    }
}

// ----- the whole course -----

/// The id is of no transaction yet.
pub open spec fn new_id(c: CoordView, txn: Seq<char>) -> bool {
    &&& !c.store.txns.contains_key(txn)
    &&& !c.locks.by_txn.contains_key(txn)
    &&& forall|k: Seq<char>| !#[trigger] c.store.writes.contains_key((txn, k))
}

/// The version is that of the newest entry of the key, or above it.
pub open spec fn sees_newest(s: StoreView, key: Seq<char>, version: u64) -> bool {
    latest_version(chain_at(s.chains, key).entries) <= version
}

/// How a transaction begins: its idempotency key, and the time.
pub ghost struct BeginCall {
    pub idempotency_key: Option<Seq<char>>,
    pub now: i64,
}

/// What a read has seen of a key.
pub ghost struct SeenVersion {
    pub version: u64,
    pub etag: Seq<char>,
}

/// The transaction begins.
pub open spec fn begins(c: CoordView, txn: Seq<char>, b: BeginCall) -> CoordView {
    c.begun(txn, b.idempotency_key, b.now).0
}

/// The transaction notes a read.
pub open spec fn notes(c: CoordView, txn: Seq<char>, key: Seq<char>, v: SeenVersion) -> CoordView {
    c.noted_read(txn, key, v.version, v.etag)
}

/// Two transactions begin, both read `x` and `y`, and each stages its write.
pub open spec fn skewed(
    c: CoordView,
    wa: OneWrite,
    wb: OneWrite,
    begun: (BeginCall, BeginCall),
    x: SeenVersion,
    y: SeenVersion,
) -> CoordView {
    let c1 = begins(begins(c, wa.txn, begun.0), wb.txn, begun.1);
    let c2 = notes(notes(c1, wa.txn, wa.key, x), wa.txn, wb.key, y);
    let c3 = notes(notes(c2, wb.txn, wa.key, x), wb.txn, wb.key, y);
    stages(stages(c3, wa), wb)
}

/// A current read keeps a transaction that has only read so.
proof fn lemma_still_reading(
    c: CoordView,
    txn: Seq<char>,
    key: Seq<char>,
    v: SeenVersion,
    any: Seq<char>,
)
    requires
        sound(c.store),
        locks_in_step(c),
        active_txn(c.store, txn) is Ok,
        sees_newest(c.store, key, v.version),
        active_txn(c.store, any) is Ok,
        edge_free(c.locks, any),
        wrote_nothing(c.store, any),
    ensures
        ({
            let n = notes(c, txn, key, v);
            &&& sound(n.store)
            &&& locks_in_step(n)
            &&& active_txn(n.store, any) is Ok
            &&& n.store.txns[any].snapshot_version == c.store.txns[any].snapshot_version
            &&& edge_free(n.locks, any)
            &&& wrote_nothing(n.store, any)
            &&& n.store.chains == c.store.chains
            &&& n.store.global_version == c.store.global_version
            &&& n.store.last_wal_seq == c.store.last_wal_seq
            &&& n.mem == c.mem
            &&& list_at(n.locks.readers_of, key).contains(txn)
            &&& forall|k: Seq<char>, t: Seq<char>| #[trigger]
                list_at(c.locks.readers_of, k).contains(t) ==> list_at(
                    n.locks.readers_of,
                    k,
                ).contains(t)
        }),
{
    let n = notes(c, txn, key, v);
    crate::txn_laws::law_read_keeps_soundness(c, txn, key, v.version, v.etag);
    law_read_keeps_locks_in_step(c, txn, key, v.version, v.etag, 0);
    assert(misses_nothing(c.locks, key, v.version));
    law_current_read_adds_no_edge(c.locks, txn, key, v.version, v.etag, any);
    let readers = list_at(c.locks.readers_of, key);
    assert(list_at(n.locks.readers_of, key)[readers.len() as int] == txn);
    assert forall|k: Seq<char>, t: Seq<char>| #[trigger]
        list_at(c.locks.readers_of, k).contains(t) implies list_at(
        n.locks.readers_of,
        k,
    ).contains(t) by {
        let old = list_at(c.locks.readers_of, k);
        let w = choose|w: int| 0 <= w < old.len() && old[w] == t;
        assert(list_at(n.locks.readers_of, k)[w] == t);
    }
}

/// The whole course of a write skew: in any sound state two transactions
/// begin, both read two keys at their newest versions, and each writes one of
/// them. Just one of the two commits, whichever asks first; the other is
/// refused with a conflict, ends aborted, and the chain of its key stays as it
/// was.
pub proof fn law_write_skew_from_begin_to_commit(
    c: CoordView,
    wa: OneWrite,
    wb: OneWrite,
    begun: (BeginCall, BeginCall),
    x: SeenVersion,
    y: SeenVersion,
    p: CommitCall,
    q: CommitCall,
)
    requires
        sound(c.store),
        locks_in_step(c),
        wa.txn != wb.txn,
        new_id(c, wa.txn),
        new_id(c, wb.txn),
        wa.key != wb.key,
        sees_newest(c.store, wa.key, x.version),
        sees_newest(c.store, wb.key, y.version),
        body_readable(p.reads, wa) && body_readable(p.reads, wb),
        body_readable(q.reads, wa) && body_readable(q.reads, wb),
        c.store.pins(c.store.global_version) + 2 <= u64::MAX,
        c.store.last_wal_seq + 8 <= u64::MAX,
        c.store.global_version < u64::MAX,
        c.mem.active.id < u64::MAX,
    ensures
        ({
            let d = skewed(c, wa, wb, begun, x, y);
            let a_refused = commits(commits(d, wa.txn, p).0, wb.txn, q).0;
            let b_refused = commits(commits(d, wb.txn, p).0, wa.txn, q).0;
            &&& one_side_commits(d, wa.txn, wb.txn, p, q)
            &&& one_side_commits(d, wb.txn, wa.txn, p, q)
            &&& chain_at(a_refused.store.chains, wa.key).entries == chain_at(
                c.store.chains,
                wa.key,
            ).entries
            &&& chain_at(b_refused.store.chains, wb.key).entries == chain_at(
                c.store.chains,
                wb.key,
            ).entries
        }),
{
    let (a, b) = (wa.txn, wb.txn);
    let b1 = begins(c, a, begun.0);
    let b2 = begins(b1, b, begun.1);
    crate::txn_laws::law_begin_keeps_soundness(c, a, begun.0.idempotency_key, begun.0.now);
    crate::txn_laws::law_begin_keeps_soundness(b1, b, begun.1.idempotency_key, begun.1.now);
    law_begin_keeps_locks_in_step(c, a, begun.0.idempotency_key, begun.0.now);
    law_begin_keeps_locks_in_step(b1, b, begun.1.idempotency_key, begun.1.now);
    assert(edge_free(b2.locks, a) && edge_free(b2.locks, b));
    assert(wrote_nothing(b2.store, a) && wrote_nothing(b2.store, b));
    let r1 = notes(b2, a, wa.key, x);
    lemma_still_reading(b2, a, wa.key, x, a);
    lemma_still_reading(b2, a, wa.key, x, b);
    let r2 = notes(r1, a, wb.key, y);
    lemma_still_reading(r1, a, wb.key, y, a);
    lemma_still_reading(r1, a, wb.key, y, b);
    let r3 = notes(r2, b, wa.key, x);
    lemma_still_reading(r2, b, wa.key, x, a);
    lemma_still_reading(r2, b, wa.key, x, b);
    let r4 = notes(r3, b, wb.key, y);
    lemma_still_reading(r3, b, wb.key, y, a);
    lemma_still_reading(r3, b, wb.key, y, b);
    assert(list_at(r4.locks.readers_of, wb.key).contains(a));
    assert(list_at(r4.locks.readers_of, wa.key).contains(b));
    lemma_newest_is_bounded(c.store, wa.key);
    lemma_newest_is_bounded(c.store, wb.key);
    law_write_skew_commits_on_one_side(r4, wa, wb, p, q);
}

/// No newest version is above the current one.
proof fn lemma_newest_is_bounded(s: StoreView, key: Seq<char>)
    requires
        sound(s),
    ensures
        latest_version(chain_at(s.chains, key).entries) <= s.global_version,
{
    let e = chain_at(s.chains, key).entries;
    if e.len() > 0 {
        assert(chain_at(s.chains, key).entries[e.len() - 1].commit_version <= s.global_version);
    }
}

// ----- a read that comes after the other's commit -----

/// A transaction that reads a key after another has committed a write of it,
/// without seeing that write, is refused and aborted where the other has read
/// what it writes; the refusal is a conflict where its bodies are at hand.
pub proof fn law_late_reader_is_refused(
    c: CoordView,
    txn: Seq<char>,
    key: Seq<char>,
    version: u64,
    etag: Seq<char>,
    at: int,
    reads: Seq<SpillReadView>,
    now: i64,
    age_ms: u64,
)
    requires
        sound(c.store),
        active_txn(c.store, txn) is Ok,
        c.locks.by_txn.contains_key(txn),
        0 <= at < list_at(c.locks.writers_of, key).len(),
        missed(list_at(c.locks.writers_of, key)[at], version),
        list_at(c.locks.writers_of, key)[at].txn_id != txn,
        has_peer(c.locks.by_txn[txn].out_edges, list_at(c.locks.writers_of, key)[at].txn_id),
        c.has_room(txn),
    ensures
        ({
            let d = c.noted_read(txn, key, version, etag);
            let (n, r) = d.committed(txn, reads, now, age_ms);
            &&& r is Err
            &&& bodies_at_hand(d.store, txn, reads) ==> (r matches Err(e) && e.0
                == ErrorKind::Conflict)
            &&& n.store.txns[txn].status == TxnStatus::Aborted
            &&& n.store.chains == c.store.chains
        }),
{
    let d = c.noted_read(txn, key, version, etag);
    law_missed_write_endangers_the_reader(c.locks, txn, key, version, etag, at);
    crate::txn_laws::law_read_keeps_soundness(c, txn, key, version, etag);
    assert(d.store.writes == c.store.writes);
    assert(write_rows(d.store, txn) == write_rows(c.store, txn));
    law_endangered_txn_cannot_commit(d, txn, reads, now, age_ms);
    law_failed_commit_aborts(d, txn, reads, now, age_ms);
    law_failed_commit_publishes_nothing(d, txn, reads, now, age_ms);
    lemma_refused_commit_rest(d, txn, reads, now, age_ms);
}

} // verus!
