//! Cahill SI lock manager.
//!
//! Tracks the SIRead and SIWrite locks of each transaction and the
//! rw-antidependency edges between them, and answers the commit-time question
//! whether a transaction is part of a dangerous structure.
//!
//! 1. `begin_txn` registers an empty set of locks.
//! 2. `register_read` adds a read lock, with in-edges from recently committed
//!    writers of the key that the read did not see.
//! 3. `register_write` adds a write lock, with an out-edge to every reader of
//!    the key and the mirror in-edge on each of them.
//! 4. `find_dangerous_structure` reports a peer with both an in-edge and an
//!    out-edge.
//! 5. `mark_committed` keeps the transaction in the window of recently
//!    committed ones.
//! 6. `mark_aborted` releases all its locks and every edge to it.

use crate::cahill::{
    dangerous, dangerous_peer, detect_dangerous_structure, has_peer, law_detection_is_exact,
};
use crate::locks::{
    edge_views, fresh_locks, read_lock_views, recent_views, write_lock_views, PeerAction,
    RecentlyCommittedTxn, RecentlyCommittedTxnView, SIEdge, SIEdgeSet, SIEdgeView, SIReadLock,
    SIReadLockView, SIWriteLock, SIWriteLockView, SiTxnLocks, SiTxnLocksView, SiTxnPhase,
};
use crate::order::{same_text, text_before};
use crate::outside::now_ms;
use crate::table::{
    lemma_ascending, lemma_mapped_rows, lemma_picks_push, lists, pair_views, picks, Row, Table,
};
use crate::text::{join2, texts};
use crate::types::{ErrorKind, XtableError, XtableResult};
use vstd::prelude::*;

verus! {

impl Row for SiTxnLocks {
    fn copy_row(&self) -> (r: Self) {
        self.clone()
    }
}

/// The transactions that read a key, in order, with repetitions.
pub struct ReaderList {
    pub txns: Vec<String>,
}

impl View for ReaderList {
    type V = Seq<Seq<char>>;

    open spec fn view(&self) -> Seq<Seq<char>> {
        texts(self.txns@)
    }
}

impl Row for ReaderList {
    fn copy_row(&self) -> (r: Self) {
        ReaderList { txns: crate::text::copy_texts(&self.txns) }
    }
}

/// A writer of a key, active or recently committed.
#[derive(Debug)]
pub struct KeyWriter {
    pub txn_id: String,
    pub committed_version: u64,
    pub is_recently_committed: bool,
}

/// Mathematical view of a [`KeyWriter`].
pub ghost struct KeyWriterView {
    pub txn_id: Seq<char>,
    pub committed_version: u64,
    pub is_recently_committed: bool,
}

impl View for KeyWriter {
    type V = KeyWriterView;

    open spec fn view(&self) -> KeyWriterView {
        KeyWriterView {
            txn_id: self.txn_id@,
            committed_version: self.committed_version,
            is_recently_committed: self.is_recently_committed,
        }
    }
}

/// Views of writers.
pub open spec fn writer_views(s: Seq<KeyWriter>) -> Seq<KeyWriterView> {
    s.map_values(|w: KeyWriter| w@)
}

/// The writers of a key, in order, with repetitions.
pub struct WriterList {
    pub writers: Vec<KeyWriter>,
}

impl View for WriterList {
    type V = Seq<KeyWriterView>;

    open spec fn view(&self) -> Seq<KeyWriterView> {
        writer_views(self.writers@)
    }
}

impl Row for WriterList {
    fn copy_row(&self) -> (r: Self) {
        let mut out: Vec<KeyWriter> = Vec::new();
        let mut i: usize = 0;
        assert(writer_views(out@) =~= self@.take(0));
        while i < self.writers.len()
            invariant
                i <= self.writers.len(),
                writer_views(out@) == self@.take(i as int),
            decreases self.writers.len() - i,
        {
            let w = &self.writers[i];
            let ghost before = out@;
            out.push(
                KeyWriter {
                    txn_id: w.txn_id.clone(),
                    committed_version: w.committed_version,
                    is_recently_committed: w.is_recently_committed,
                },
            );
            proof {
                assert(writer_views(out@) =~= writer_views(before).push(w@));
                assert(self@.take(i + 1) =~= self@.take(i as int).push(w@));
            }
            i += 1;
        }
        assert(self@.take(i as int) =~= self@);
        WriterList { writers: out }
    }
}

/// Mathematical view of the lock manager.
#[verifier::ext_equal]
pub ghost struct LocksView {
    pub by_txn: Map<Seq<char>, SiTxnLocksView>,
    pub readers_of: Map<Seq<char>, Seq<Seq<char>>>,
    pub writers_of: Map<Seq<char>, Seq<KeyWriterView>>,
    pub recent: Seq<RecentlyCommittedTxnView>,
    pub recent_floor_version: u64,
}

/// The edge of a write of `key` at `version`, as a reader holds it.
pub open spec fn in_edge(writer: Seq<char>, key: Seq<char>, version: u64) -> SIEdgeView {
    SIEdgeView { peer: writer, key, peer_action: PeerAction::Wrote, version }
}

/// The edge of a read of `key`, as the writer at `version` holds it.
pub open spec fn out_edge(reader: Seq<char>, key: Seq<char>, version: u64) -> SIEdgeView {
    SIEdgeView { peer: reader, key, peer_action: PeerAction::Read, version }
}

/// The writer is recently committed at a version that a read at `observed`
/// did not see.
pub open spec fn missed(w: KeyWriterView, observed: u64) -> bool {
    w.is_recently_committed && w.committed_version > observed
}

/// In-edges of a read of `key` at `observed`: one per writer it missed.
pub open spec fn missed_edges(writers: Seq<KeyWriterView>, key: Seq<char>, observed: u64) -> Seq<
    SIEdgeView,
> {
    writers.filter(|w: KeyWriterView| missed(w, observed)).map_values(
        |w: KeyWriterView| in_edge(w.txn_id, key, w.committed_version),
    )
}

/// Any transaction but `txn`.
pub open spec fn other_than(txn: Seq<char>) -> spec_fn(Seq<char>) -> bool {
    |r: Seq<char>| r != txn
}

/// From a reader of `key` to the out-edge of a write at `version`.
pub open spec fn to_out_edge(key: Seq<char>, version: u64) -> spec_fn(Seq<char>) -> SIEdgeView {
    |r: Seq<char>| out_edge(r, key, version)
}

/// Out-edges of a write of `key` by `txn`: one per other reader.
pub open spec fn reader_edges(
    readers: Seq<Seq<char>>,
    txn: Seq<char>,
    key: Seq<char>,
    version: u64,
) -> Seq<SIEdgeView> {
    readers.filter(other_than(txn)).map_values(to_out_edge(key, version))
}

/// The first `n` readers, `txn` itself aside, each gain the in-edge of a write
/// by `txn`.
pub open spec fn mirrored(
    m: Map<Seq<char>, SiTxnLocksView>,
    readers: Seq<Seq<char>>,
    n: nat,
    txn: Seq<char>,
    key: Seq<char>,
    version: u64,
) -> Map<Seq<char>, SiTxnLocksView>
    decreases n,
{
    if n == 0 {
        m
    } else {
        let p = mirrored(m, readers, (n - 1) as nat, txn, key, version);
        let r = readers[n - 1];
        if r != txn && p.contains_key(r) {
            p.insert(
                r,
                SiTxnLocksView {
                    in_edges: p[r].in_edges.push(in_edge(txn, key, version)),
                    ..p[r]
                },
            )
        } else {
            p
        }
    }
}

/// The value under `key`, or an empty sequence.
pub open spec fn list_at<T>(m: Map<Seq<char>, Seq<T>>, key: Seq<char>) -> Seq<T> {
    if m.contains_key(key) {
        m[key]
    } else {
        Seq::empty()
    }
}

/// Some edge comes from `peer` for `key`.
pub open spec fn has_edge(edges: Seq<SIEdgeView>, peer: Seq<char>, key: Seq<char>) -> bool {
    exists|i: int|
        0 <= i < edges.len() && (#[trigger] edges[i]).peer == peer && edges[i].key == key
}

/// The first `n` out-edges of a committing transaction leave their mirror
/// in-edge on the peer, unless it is there already.
pub open spec fn commit_mirrored(
    m: Map<Seq<char>, SiTxnLocksView>,
    edges: Seq<SIEdgeView>,
    n: nat,
    txn: Seq<char>,
    commit_version: u64,
) -> Map<Seq<char>, SiTxnLocksView>
    decreases n,
{
    if n == 0 {
        m
    } else {
        let p = commit_mirrored(m, edges, (n - 1) as nat, txn, commit_version);
        let e = edges[n - 1];
        if e.peer_action == PeerAction::Read && p.contains_key(e.peer) && !has_edge(
            p[e.peer].in_edges,
            txn,
            e.key,
        ) {
            p.insert(
                e.peer,
                SiTxnLocksView {
                    in_edges: p[e.peer].in_edges.push(in_edge(txn, e.key, commit_version)),
                    ..p[e.peer]
                },
            )
        } else {
            p
        }
    }
}

/// A writer after `txn` has committed.
pub open spec fn writer_committed(w: KeyWriterView, txn: Seq<char>, version: u64) -> KeyWriterView {
    if w.txn_id == txn {
        KeyWriterView { committed_version: version, is_recently_committed: true, ..w }
    } else {
        w
    }
}

/// Writers after `txn` has committed.
pub open spec fn writers_committed(
    s: Seq<KeyWriterView>,
    txn: Seq<char>,
    version: u64,
) -> Seq<KeyWriterView> {
    s.map_values(|w: KeyWriterView| writer_committed(w, txn, version))
}

/// The writers of the first `n` keys know that `txn` has committed.
pub open spec fn keys_committed(
    m: Map<Seq<char>, Seq<KeyWriterView>>,
    keys: Seq<Seq<char>>,
    n: nat,
    txn: Seq<char>,
    version: u64,
) -> Map<Seq<char>, Seq<KeyWriterView>>
    decreases n,
{
    if n == 0 {
        m
    } else {
        let p = keys_committed(m, keys, (n - 1) as nat, txn, version);
        let k = keys[n - 1];
        if p.contains_key(k) {
            p.insert(k, writers_committed(p[k], txn, version))
        } else {
            p
        }
    }
}

/// Keys of write locks.
pub open spec fn written_keys(s: Seq<SIWriteLockView>) -> Seq<Seq<char>> {
    s.map_values(|w: SIWriteLockView| w.key)
}

/// Locks without the edges to `txn`.
pub open spec fn forget_peer(l: SiTxnLocksView, txn: Seq<char>) -> SiTxnLocksView {
    SiTxnLocksView {
        in_edges: l.in_edges.filter(|e: SIEdgeView| e.peer != txn),
        out_edges: l.out_edges.filter(|e: SIEdgeView| e.peer != txn),
        ..l
    }
}

impl LocksView {
    /// Locks that nobody holds.
    pub open spec fn empty() -> LocksView {
        LocksView {
            by_txn: Map::empty(),
            readers_of: Map::empty(),
            writers_of: Map::empty(),
            recent: Seq::empty(),
            recent_floor_version: 0,
        }
    }

    /// A transaction has begun.
    pub open spec fn begun(self, txn: Seq<char>, snapshot: u64) -> LocksView {
        LocksView { by_txn: self.by_txn.insert(txn, fresh_locks(snapshot)), ..self }
    }

    /// A transaction has read `key`.
    pub open spec fn read(
        self,
        txn: Seq<char>,
        key: Seq<char>,
        observed: u64,
        etag: Seq<char>,
    ) -> LocksView {
        LocksView {
            by_txn: if self.by_txn.contains_key(txn) {
                let l = self.by_txn[txn];
                self.by_txn.insert(
                    txn,
                    SiTxnLocksView {
                        reads: l.reads.push(
                            SIReadLockView { key, version_observed: observed, etag_observed: etag },
                        ),
                        in_edges: l.in_edges + missed_edges(
                            list_at(self.writers_of, key),
                            key,
                            observed,
                        ),
                        ..l
                    },
                )
            } else {
                self.by_txn
            },
            readers_of: self.readers_of.insert(key, list_at(self.readers_of, key).push(txn)),
            ..self
        }
    }

    /// A transaction has staged a write of `key`.
    pub open spec fn written(self, txn: Seq<char>, key: Seq<char>, version: u64) -> LocksView {
        let readers = list_at(self.readers_of, key);
        let own = if self.by_txn.contains_key(txn) {
            let l = self.by_txn[txn];
            self.by_txn.insert(
                txn,
                SiTxnLocksView {
                    writes: l.writes.push(SIWriteLockView { key, version_to_write: version }),
                    out_edges: l.out_edges + reader_edges(readers, txn, key, version),
                    ..l
                },
            )
        } else {
            self.by_txn
        };
        LocksView {
            by_txn: mirrored(own, readers, readers.len(), txn, key, version),
            writers_of: self.writers_of.insert(
                key,
                list_at(self.writers_of, key).push(
                    KeyWriterView {
                        txn_id: txn,
                        committed_version: 0,
                        is_recently_committed: false,
                    },
                ),
            ),
            ..self
        }
    }

    /// The peer that a transaction collides with.
    pub open spec fn danger(self, txn: Seq<char>) -> Option<Seq<char>> {
        if self.by_txn.contains_key(txn) {
            dangerous_peer(txn, self.by_txn[txn].in_edges, self.by_txn[txn].out_edges)
        } else {
            None
        }
    }

    /// A transaction has committed.
    pub open spec fn committed(
        self,
        txn: Seq<char>,
        commit_version: u64,
        now_ms: i64,
    ) -> LocksView {
        let known = self.by_txn.contains_key(txn);
        let edges = if known {
            self.by_txn[txn].out_edges
        } else {
            Seq::empty()
        };
        let keys = if known {
            written_keys(self.by_txn[txn].writes)
        } else {
            Seq::empty()
        };
        let marked = if known {
            self.by_txn.insert(
                txn,
                SiTxnLocksView { status: SiTxnPhase::Committed, ..self.by_txn[txn] },
            )
        } else {
            self.by_txn
        };
        LocksView {
            by_txn: commit_mirrored(marked, edges, edges.len(), txn, commit_version),
            writers_of: keys_committed(self.writers_of, keys, keys.len(), txn, commit_version),
            recent: self.recent.push(
                RecentlyCommittedTxnView {
                    txn_id: txn,
                    keys,
                    commit_version,
                    committed_at_ms: now_ms,
                },
            ),
            recent_floor_version: if commit_version > self.recent_floor_version {
                commit_version
            } else {
                self.recent_floor_version
            },
            ..self
        }
    }

    /// The window of recently committed transactions begins at `floor`.
    pub open spec fn evicted(self, floor: u64) -> LocksView {
        LocksView {
            by_txn: Map::new(
                |k: Seq<char>|
                    self.by_txn.contains_key(k) && self.by_txn[k].status != SiTxnPhase::Aborted,
                |k: Seq<char>| self.by_txn[k],
            ),
            recent: self.recent.filter(
                |r: RecentlyCommittedTxnView| r.commit_version >= floor,
            ),
            recent_floor_version: floor,
            ..self
        }
    }

    /// A transaction has aborted.
    pub open spec fn aborted(self, txn: Seq<char>) -> LocksView {
        LocksView {
            by_txn: self.by_txn.remove(txn).map_values(
                |l: SiTxnLocksView| forget_peer(l, txn),
            ),
            readers_of: self.readers_of.map_values(
                |s: Seq<Seq<char>>| s.filter(|t: Seq<char>| t != txn),
            ),
            writers_of: self.writers_of.map_values(
                |s: Seq<KeyWriterView>| s.filter(|w: KeyWriterView| w.txn_id != txn),
            ),
            ..self
        }
    }
}

/// `ids` lists the transactions in `phase`, in order.
pub open spec fn lists_phase(
    ids: Seq<Seq<char>>,
    m: Map<Seq<char>, SiTxnLocksView>,
    phase: SiTxnPhase,
) -> bool {
    &&& forall|i: int, j: int|
        0 <= i < j < ids.len() ==> text_before(#[trigger] ids[i], #[trigger] ids[j])
    &&& forall|k: Seq<char>| #[trigger]
        ids.contains(k) <==> (m.contains_key(k) && m[k].status == phase)
}

/// In-memory Cahill lock manager.
pub struct SiLockManager {
    by_txn: Table<String, SiTxnLocks>,
    readers_of: Table<String, ReaderList>,
    writers_of: Table<String, WriterList>,
    recent: Vec<RecentlyCommittedTxn>,
    recent_floor_version: u64,
}

impl View for SiLockManager {
    type V = LocksView;

    closed spec fn view(&self) -> LocksView {
        LocksView {
            by_txn: self.by_txn@,
            readers_of: self.readers_of@,
            writers_of: self.writers_of@,
            recent: recent_views(self.recent@),
            recent_floor_version: self.recent_floor_version,
        }
    }
}

/// Message of a transaction that has begun before.
pub open spec fn already_begun_text(txn: Seq<char>) -> Seq<char> {
    "SI lock manager: txn already exists: "@ + txn
}

/// Edges whose peer is not `txn`.
fn edges_without(edges: &Vec<SIEdge>, txn: &str) -> (r: Vec<SIEdge>)
    ensures
        edge_views(r@) == edge_views(edges@).filter(|e: SIEdgeView| e.peer != txn@),
{
    let ghost ev = edge_views(edges@);
    let ghost keep = |e: SIEdgeView| e.peer != txn@;
    let mut out: Vec<SIEdge> = Vec::new();
    let mut i: usize = 0;
    proof {
        reveal_with_fuel(Seq::filter, 1);
        assert(edge_views(out@) =~= ev.take(0).filter(keep));
    }
    while i < edges.len()
        invariant
            i <= edges.len(),
            ev == edge_views(edges@),
            keep == (|e: SIEdgeView| e.peer != txn@),
            edge_views(out@) == ev.take(i as int).filter(keep),
        decreases edges.len() - i,
    {
        let e = &edges[i];
        proof {
            assert(ev.take(i + 1) =~= ev.take(i as int).push(e@));
            ev.take(i as int).lemma_filter_push(e@, keep);
        }
        if !same_text(e.peer.as_str(), txn) {
            let ghost before = out@;
            out.push(e.clone());
            assert(edge_views(out@) =~= edge_views(before).push(e@));
        }
        i += 1;
    }
    assert(ev.take(i as int) =~= ev);
    out
}

/// Readers other than `txn`.
fn readers_without(list: &Vec<String>, txn: &str) -> (r: Vec<String>)
    ensures
        texts(r@) == texts(list@).filter(|t: Seq<char>| t != txn@),
{
    let ghost tv = texts(list@);
    let ghost keep = |t: Seq<char>| t != txn@;
    let mut out: Vec<String> = Vec::new();
    let mut i: usize = 0;
    proof {
        reveal_with_fuel(Seq::filter, 1);
        assert(texts(out@) =~= tv.take(0).filter(keep));
    }
    while i < list.len()
        invariant
            i <= list.len(),
            tv == texts(list@),
            keep == (|t: Seq<char>| t != txn@),
            texts(out@) == tv.take(i as int).filter(keep),
        decreases list.len() - i,
    {
        proof {
            assert(tv.take(i + 1) =~= tv.take(i as int).push(list@[i as int]@));
            tv.take(i as int).lemma_filter_push(list@[i as int]@, keep);
        }
        if !same_text(list[i].as_str(), txn) {
            let ghost before = out@;
            out.push(list[i].clone());
            assert(texts(out@) =~= texts(before).push(list@[i as int]@));
        }
        i += 1;
    }
    assert(tv.take(i as int) =~= tv);
    out
}

/// Writers other than `txn`.
fn writers_without(list: &Vec<KeyWriter>, txn: &str) -> (r: Vec<KeyWriter>)
    ensures
        writer_views(r@) == writer_views(list@).filter(|w: KeyWriterView| w.txn_id != txn@),
{
    let ghost wv = writer_views(list@);
    let ghost keep = |w: KeyWriterView| w.txn_id != txn@;
    let mut out: Vec<KeyWriter> = Vec::new();
    let mut i: usize = 0;
    proof {
        reveal_with_fuel(Seq::filter, 1);
        assert(writer_views(out@) =~= wv.take(0).filter(keep));
    }
    while i < list.len()
        invariant
            i <= list.len(),
            wv == writer_views(list@),
            keep == (|w: KeyWriterView| w.txn_id != txn@),
            writer_views(out@) == wv.take(i as int).filter(keep),
        decreases list.len() - i,
    {
        let w = &list[i];
        proof {
            assert(wv.take(i + 1) =~= wv.take(i as int).push(w@));
            wv.take(i as int).lemma_filter_push(w@, keep);
        }
        if !same_text(w.txn_id.as_str(), txn) {
            let ghost before = out@;
            out.push(
                KeyWriter {
                    txn_id: w.txn_id.clone(),
                    committed_version: w.committed_version,
                    is_recently_committed: w.is_recently_committed,
                },
            );
            assert(writer_views(out@) =~= writer_views(before).push(w@));
        }
        i += 1;
    }
    assert(wv.take(i as int) =~= wv);
    out
}

impl SiLockManager {
    /// A lock manager without transactions.
    pub fn new() -> (r: Self)
        ensures
            r@ == LocksView::empty(),
    {
        let r = SiLockManager {
            by_txn: Table::new(),
            readers_of: Table::new(),
            writers_of: Table::new(),
            recent: Vec::new(),
            recent_floor_version: 0,
        };
        assert(r@.recent =~= Seq::empty());
        r
    }

    /// Begins to track a transaction. Refuses one that is tracked already.
    pub fn begin_txn(&mut self, txn_id: &str, snapshot_version: u64) -> (r: XtableResult<()>)
        ensures
            if old(self)@.by_txn.contains_key(txn_id@) {
                &&& r matches Err(e) && e@ == (ErrorKind::Storage, already_begun_text(txn_id@))
                &&& final(self)@ == old(self)@
            } else {
                &&& r is Ok
                &&& final(self)@ == old(self)@.begun(txn_id@, snapshot_version)
            },
    {
        let key = txn_id.to_owned();
        match self.by_txn.get(&key) {
            Some(_) => Err(
                XtableError::Storage(join2("SI lock manager: txn already exists: ", txn_id)),
            ),
            None => {
                let mut locks = SiTxnLocks::default();
                locks.snapshot_version = snapshot_version;
                self.by_txn.insert(key, locks);
                Ok(())
            },
        }
    }

    /// In-edges of a read of `key` from the recently committed writers that
    /// it missed.
    fn edges_missed(&self, key: &str, version_observed: u64) -> (r: Vec<SIEdge>)
        ensures
            edge_views(r@) == missed_edges(
                list_at(self@.writers_of, key@),
                key@,
                version_observed,
            ),
    {
        let mut out: Vec<SIEdge> = Vec::new();
        let ghost pred = |w: KeyWriterView| missed(w, version_observed);
        let ghost to_edge = |w: KeyWriterView| in_edge(w.txn_id, key@, w.committed_version);
        proof { reveal_with_fuel(Seq::filter, 1); }
        match self.writers_of.get(&key.to_owned()) {
            None => {
                assert(edge_views(out@) =~= missed_edges(Seq::empty(), key@, version_observed));
            },
            Some(list) => {
                let ghost wv = list@;
                let mut i: usize = 0;
                assert(edge_views(out@) =~= wv.take(0).filter(pred).map_values(to_edge));
                while i < list.writers.len()
                    invariant
                        i <= list.writers.len(),
                        wv == writer_views(list.writers@),
                        pred == (|w: KeyWriterView| missed(w, version_observed)),
                        to_edge == (|w: KeyWriterView|
                            in_edge(w.txn_id, key@, w.committed_version)),
                        edge_views(out@) == wv.take(i as int).filter(pred).map_values(to_edge),
                    decreases list.writers.len() - i,
                {
                    let w = &list.writers[i];
                    proof {
                        assert(wv.take(i + 1) =~= wv.take(i as int).push(w@));
                        wv.take(i as int).lemma_filter_push(w@, pred);
                    }
                    if w.is_recently_committed && w.committed_version > version_observed {
                        let ghost before = out@;
                        let ghost picked = wv.take(i as int).filter(pred);
                        out.push(
                            SIEdge {
                                peer: w.txn_id.clone(),
                                key: key.to_owned(),
                                peer_action: PeerAction::Wrote,
                                version: w.committed_version,
                            },
                        );
                        assert(edge_views(out@) =~= edge_views(before).push(to_edge(w@)));
                        assert(picked.push(w@).map_values(to_edge) =~= picked.map_values(
                            to_edge,
                        ).push(to_edge(w@)));
                    }
                    i += 1;
                }
                assert(wv.take(i as int) =~= wv);
            },
        }
        out
    }

    /// Records a read of `key` at `version_observed`.
    pub fn register_read(&mut self, txn_id: &str, key: &str, version_observed: u64, etag: String)
        ensures
            final(self)@ == old(self)@.read(txn_id@, key@, version_observed, etag@),
    {
        let ghost start = self@;
        let new_in_edges = self.edges_missed(key, version_observed);
        let txn = txn_id.to_owned();
        match self.by_txn.fetch(&txn) {
            Some(locks) => {
                let ghost l = locks@;
                let ghost lock = SIReadLockView {
                    key: key@,
                    version_observed,
                    etag_observed: etag@,
                };
                let mut next = locks;
                next.reads.push(
                    SIReadLock { key: key.to_owned(), version_observed, etag_observed: etag },
                );
                assert(read_lock_views(next.reads@) =~= l.reads.push(lock));
                let ghost added = edge_views(new_in_edges@);
                let mut i: usize = 0;
                assert(next.in_edges@ =~= l.in_edges + added.take(0));
                while i < new_in_edges.len()
                    invariant
                        i <= new_in_edges.len(),
                        added == edge_views(new_in_edges@),
                        next@ == (SiTxnLocksView {
                            reads: l.reads.push(lock),
                            in_edges: l.in_edges + added.take(i as int),
                            ..l
                        }),
                    decreases new_in_edges.len() - i,
                {
                    next.in_edges.add(new_in_edges[i].clone());
                    assert((l.in_edges + added.take(i as int)).push(added[i as int])
                        =~= l.in_edges + added.take(i + 1));
                    i += 1;
                }
                assert(added.take(i as int) =~= added);
                self.by_txn.insert(txn_id.to_owned(), next);
            },
            None => {},
        }
        let rkey = key.to_owned();
        let mut list: ReaderList = match self.readers_of.fetch(&rkey) {
            Some(l) => l,
            None => ReaderList { txns: Vec::new() },
        };
        let ghost readers = list_at(start.readers_of, key@);
        assert(list@ =~= readers);
        list.txns.push(txn);
        assert(list@ =~= readers.push(txn_id@));
        self.readers_of.insert(rkey, list);
        assert(self@ =~= start.read(txn_id@, key@, version_observed, etag@));
    }

    /// Records the intent to write `key` at `version_to_write`.
    pub fn register_write(&mut self, txn_id: &str, key: &str, version_to_write: u64)
        ensures
            final(self)@ == old(self)@.written(txn_id@, key@, version_to_write),
    {
        let ghost start = self@;
        let rkey = key.to_owned();
        let readers: Vec<String> = match self.readers_of.fetch(&rkey) {
            Some(l) => l.txns,
            None => Vec::new(),
        };
        let ghost rv = texts(readers@);
        assert(rv =~= list_at(start.readers_of, key@));
        match self.by_txn.fetch(&txn_id.to_owned()) {
            Some(locks) => {
                let ghost l = locks@;
                let ghost lock = SIWriteLockView { key: key@, version_to_write };
                let ghost keep = other_than(txn_id@);
                let ghost to_edge = to_out_edge(key@, version_to_write);
                let mut next = locks;
                next.writes.push(SIWriteLock { key: key.to_owned(), version_to_write });
                assert(write_lock_views(next.writes@) =~= l.writes.push(lock));
                let mut i: usize = 0;
                proof {
                    reveal_with_fuel(Seq::filter, 1);
                    assert(next.out_edges@ =~= l.out_edges + rv.take(0).filter(keep).map_values(
                        to_edge,
                    ));
                }
                while i < readers.len()
                    invariant
                        i <= readers.len(),
                        rv == texts(readers@),
                        keep == other_than(txn_id@),
                        to_edge == to_out_edge(key@, version_to_write),
                        next@ == (SiTxnLocksView {
                            writes: l.writes.push(lock),
                            out_edges: l.out_edges + rv.take(i as int).filter(keep).map_values(
                                to_edge,
                            ),
                            ..l
                        }),
                    decreases readers.len() - i,
                {
                    let ghost r = rv[i as int];
                    let ghost picked = rv.take(i as int).filter(keep);
                    proof {
                        assert(rv.take(i + 1) =~= rv.take(i as int).push(r));
                        rv.take(i as int).lemma_filter_push(r, keep);
                    }
                    if !same_text(readers[i].as_str(), txn_id) {
                        next.out_edges.add(
                            SIEdge {
                                peer: readers[i].clone(),
                                key: key.to_owned(),
                                peer_action: PeerAction::Read,
                                version: version_to_write,
                            },
                        );
                        assert(picked.push(r).map_values(to_edge) =~= picked.map_values(
                            to_edge,
                        ).push(to_edge(r)));
                        assert((l.out_edges + picked.map_values(to_edge)).push(to_edge(r))
                            =~= l.out_edges + picked.push(r).map_values(to_edge));
                    }
                    i += 1;
                }
                assert(rv.take(i as int) =~= rv);
                self.by_txn.insert(txn_id.to_owned(), next);
            },
            None => {},
        }
        let ghost own = self.by_txn@;
        let mut j: usize = 0;
        while j < readers.len()
            invariant
                j <= readers.len(),
                rv == texts(readers@),
                self.by_txn@ == mirrored(
                    own,
                    rv,
                    j as nat,
                    txn_id@,
                    key@,
                    version_to_write,
                ),
                self.readers_of == old(self).readers_of,
                self.writers_of == old(self).writers_of,
                self.recent == old(self).recent,
                self.recent_floor_version == old(self).recent_floor_version,
            decreases readers.len() - j,
        {
            let reader = &readers[j];
            assert(rv[j as int] == reader@);
            if !same_text(reader.as_str(), txn_id) {
                match self.by_txn.fetch(reader) {
                    Some(locks) => {
                        let mut next = locks;
                        next.in_edges.add(
                            SIEdge {
                                peer: txn_id.to_owned(),
                                key: key.to_owned(),
                                peer_action: PeerAction::Wrote,
                                version: version_to_write,
                            },
                        );
                        self.by_txn.insert(reader.clone(), next);
                    },
                    None => {},
                }
            }
            j += 1;
        }
        let wkey = key.to_owned();
        let mut list: WriterList = match self.writers_of.fetch(&wkey) {
            Some(l) => l,
            None => WriterList { writers: Vec::new() },
        };
        let ghost ws = list_at(start.writers_of, key@);
        assert(list@ =~= ws);
        list.writers.push(
            KeyWriter {
                txn_id: txn_id.to_owned(),
                committed_version: 0,
                is_recently_committed: false,
            },
        );
        assert(list@ =~= ws.push(
            KeyWriterView {
                txn_id: txn_id@,
                committed_version: 0,
                is_recently_committed: false,
            },
        ));
        self.writers_of.insert(wkey, list);
        assert(self@ =~= start.written(txn_id@, key@, version_to_write));
    }

    /// The peer that the transaction forms a dangerous structure with.
    pub fn find_dangerous_structure(&self, txn_id: &str) -> (r: Option<String>)
        ensures
            match r {
                Some(p) => self@.danger(txn_id@) == Some(p@),
                None => self@.danger(txn_id@) is None,
            },
    {
        match self.by_txn.get(&txn_id.to_owned()) {
            None => None,
            Some(me) => detect_dangerous_structure(txn_id, &me.in_edges, &me.out_edges),
        }
    }

    /// Marks the transaction as committed, at `now_ms`.
    pub fn mark_committed_at(&mut self, txn_id: &str, commit_version: u64, now_ms: i64)
        ensures
            final(self)@ == old(self)@.committed(txn_id@, commit_version, now_ms),
    {
        let ghost start = self@;
        let mut edges: Vec<SIEdge> = Vec::new();
        let mut my_writes: Vec<String> = Vec::new();
        assert(edge_views(edges@) =~= Seq::empty());
        assert(texts(my_writes@) =~= Seq::empty());
        match self.by_txn.fetch(&txn_id.to_owned()) {
            None => {},
            Some(locks) => {
                let ghost l = locks@;
                edges = crate::locks::copy_edges(&locks.out_edges.edges);
                let mut i: usize = 0;
                assert(texts(my_writes@) =~= written_keys(l.writes).take(0));
                while i < locks.writes.len()
                    invariant
                        i <= locks.writes.len(),
                        l == locks@,
                        texts(my_writes@) == written_keys(l.writes).take(i as int),
                    decreases locks.writes.len() - i,
                {
                    let ghost before = my_writes@;
                    my_writes.push(locks.writes[i].key.clone());
                    proof {
                        assert(texts(my_writes@) =~= texts(before).push(
                            locks.writes@[i as int].key@,
                        ));
                        assert(written_keys(l.writes).take(i + 1) =~= written_keys(l.writes).take(
                            i as int,
                        ).push(locks.writes@[i as int].key@));
                    }
                    i += 1;
                }
                assert(written_keys(l.writes).take(i as int) =~= written_keys(l.writes));
                let mut next = locks;
                next.status = SiTxnPhase::Committed;
                self.by_txn.insert(txn_id.to_owned(), next);
            },
        }
        let ghost marked = self.by_txn@;
        let ghost ev = edge_views(edges@);
        let mut j: usize = 0;
        while j < edges.len()
            invariant
                j <= edges.len(),
                ev == edge_views(edges@),
                self.by_txn@ == commit_mirrored(marked, ev, j as nat, txn_id@, commit_version),
                self.readers_of == old(self).readers_of,
                self.writers_of == old(self).writers_of,
                self.recent == old(self).recent,
                self.recent_floor_version == old(self).recent_floor_version,
            decreases edges.len() - j,
        {
            let e = &edges[j];
            assert(ev[j as int] == e@);
            if matches!(e.peer_action, PeerAction::Read) {
                match self.by_txn.fetch(&e.peer) {
                    None => {},
                    Some(peer) => {
                        let present = edges_have(&peer.in_edges.edges, txn_id, e.key.as_str());
                        if !present {
                            let mut next = peer;
                            next.in_edges.add(
                                SIEdge {
                                    peer: txn_id.to_owned(),
                                    key: e.key.clone(),
                                    peer_action: PeerAction::Wrote,
                                    version: commit_version,
                                },
                            );
                            self.by_txn.insert(e.peer.clone(), next);
                        }
                    },
                }
            }
            j += 1;
        }
        let ghost kv = texts(my_writes@);
        let ghost after_by_txn = self.by_txn@;
        let mut k: usize = 0;
        while k < my_writes.len()
            invariant
                k <= my_writes.len(),
                kv == texts(my_writes@),
                self.writers_of@ == keys_committed(
                    start.writers_of,
                    kv,
                    k as nat,
                    txn_id@,
                    commit_version,
                ),
                self.by_txn@ == after_by_txn,
                self.readers_of == old(self).readers_of,
                self.recent == old(self).recent,
                self.recent_floor_version == old(self).recent_floor_version,
            decreases my_writes.len() - k,
        {
            assert(kv[k as int] == my_writes@[k as int]@);
            match self.writers_of.fetch(&my_writes[k]) {
                None => {},
                Some(list) => {
                    let next = committed_writers(list, txn_id, commit_version);
                    self.writers_of.insert(my_writes[k].clone(), next);
                },
            }
            k += 1;
        }
        let ghost rv = recent_views(self.recent@);
        let entry = RecentlyCommittedTxn {
            txn_id: txn_id.to_owned(),
            keys: my_writes,
            commit_version,
            committed_at_ms: now_ms,
        };
        let ghost entry_view = entry@;
        self.recent.push(entry);
        assert(recent_views(self.recent@) =~= rv.push(entry_view));
        if commit_version > self.recent_floor_version {
            self.recent_floor_version = commit_version;
        }
        assert(self@ =~= start.committed(txn_id@, commit_version, now_ms));
    }

    /// Marks the transaction as committed now.
    pub fn mark_committed(&mut self, txn_id: &str, commit_version: u64)
        ensures
            exists|now_ms: i64|
                final(self)@ == #[trigger] old(self)@.committed(txn_id@, commit_version, now_ms),
    {
        self.mark_committed_at(txn_id, commit_version, now_ms());
    }

    /// Marks the transaction as aborted: its locks, and every edge to it, are
    /// released.
    pub fn mark_aborted(&mut self, txn_id: &str)
        ensures
            final(self)@ == old(self)@.aborted(txn_id@),
    {
        let ghost start = self@;
        let _gone = self.by_txn.remove(&txn_id.to_owned());
        let ghost f1 = |l: SiTxnLocksView| forget_peer(l, txn_id@);
        let ghost f2 = |s: Seq<Seq<char>>| s.filter(|t: Seq<char>| t != txn_id@);
        let ghost f3 = |s: Seq<KeyWriterView>| s.filter(|w: KeyWriterView| w.txn_id != txn_id@);
        let n = self.by_txn.len();
        let ghost rows = self.by_txn.rows();
        let ghost m1 = self.by_txn@;
        let mut i: usize = 0;
        while i < n
            invariant
                i <= n,
                n == rows.len(),
                f1 == (|l: SiTxnLocksView| forget_peer(l, txn_id@)),
                self.by_txn.rows().len() == n,
                forall|p: int| i <= p < n ==> #[trigger] self.by_txn.rows()[p] == rows[p],
                forall|p: int|
                    0 <= p < i ==> #[trigger] self.by_txn.rows()[p] == (
                        rows[p].0,
                        f1(rows[p].1),
                    ),
                self.readers_of == old(self).readers_of,
                self.writers_of == old(self).writers_of,
                self.recent == old(self).recent,
                self.recent_floor_version == old(self).recent_floor_version,
            decreases n - i,
        {
            let locks = self.by_txn.value_at(i).clone();
            assert(self.by_txn.rows()[i as int] == rows[i as int]);
            let in_edges = edges_without(&locks.in_edges.edges, txn_id);
            let out_edges = edges_without(&locks.out_edges.edges, txn_id);
            let mut next = locks;
            next.in_edges = SIEdgeSet { edges: in_edges };
            next.out_edges = SIEdgeSet { edges: out_edges };
            self.by_txn.set_value_at(i, next);
            i += 1;
        }
        proof {
            lemma_mapped_rows::<String, SiTxnLocksView>(rows, self.by_txn.rows(), f1);
        }
        let n = self.readers_of.len();
        let ghost rows = self.readers_of.rows();
        let ghost after_by_txn = self.by_txn@;
        let mut i: usize = 0;
        while i < n
            invariant
                i <= n,
                n == rows.len(),
                f2 == (|s: Seq<Seq<char>>| s.filter(|t: Seq<char>| t != txn_id@)),
                self.readers_of.rows().len() == n,
                forall|p: int| i <= p < n ==> #[trigger] self.readers_of.rows()[p] == rows[p],
                forall|p: int|
                    0 <= p < i ==> #[trigger] self.readers_of.rows()[p] == (
                        rows[p].0,
                        f2(rows[p].1),
                    ),
                self.by_txn@ == after_by_txn,
                self.writers_of == old(self).writers_of,
                self.recent == old(self).recent,
                self.recent_floor_version == old(self).recent_floor_version,
            decreases n - i,
        {
            let kept = readers_without(&self.readers_of.value_at(i).txns, txn_id);
            assert(self.readers_of.rows()[i as int] == rows[i as int]);
            self.readers_of.set_value_at(i, ReaderList { txns: kept });
            i += 1;
        }
        proof {
            lemma_mapped_rows::<String, Seq<Seq<char>>>(rows, self.readers_of.rows(), f2);
        }
        let n = self.writers_of.len();
        let ghost rows = self.writers_of.rows();
        let ghost after_readers = self.readers_of@;
        let mut i: usize = 0;
        while i < n
            invariant
                i <= n,
                n == rows.len(),
                f3 == (|s: Seq<KeyWriterView>| s.filter(|w: KeyWriterView| w.txn_id != txn_id@)),
                self.writers_of.rows().len() == n,
                forall|p: int| i <= p < n ==> #[trigger] self.writers_of.rows()[p] == rows[p],
                forall|p: int|
                    0 <= p < i ==> #[trigger] self.writers_of.rows()[p] == (
                        rows[p].0,
                        f3(rows[p].1),
                    ),
                self.by_txn@ == after_by_txn,
                self.readers_of@ == after_readers,
                self.recent == old(self).recent,
                self.recent_floor_version == old(self).recent_floor_version,
            decreases n - i,
        {
            let kept = writers_without(&self.writers_of.value_at(i).writers, txn_id);
            assert(self.writers_of.rows()[i as int] == rows[i as int]);
            self.writers_of.set_value_at(i, WriterList { writers: kept });
            i += 1;
        }
        proof {
            lemma_mapped_rows::<String, Seq<KeyWriterView>>(rows, self.writers_of.rows(), f3);
            assert(self@ =~= start.aborted(txn_id@));
        }
    }

    /// Drops the recently committed transactions older than
    /// `commit_version_floor`, and any aborted transaction.
    pub fn evict_recent_older_than(&mut self, commit_version_floor: u64)
        ensures
            final(self)@ == old(self)@.evicted(commit_version_floor),
    {
        let ghost start = self@;
        let ghost rv = recent_views(self.recent@);
        let ghost keep = |r: RecentlyCommittedTxnView| r.commit_version >= commit_version_floor;
        let mut out: Vec<RecentlyCommittedTxn> = Vec::new();
        let mut i: usize = 0;
        proof {
            reveal_with_fuel(Seq::filter, 1);
            assert(recent_views(out@) =~= rv.take(0).filter(keep));
        }
        while i < self.recent.len()
            invariant
                i <= self.recent.len(),
                *self == *old(self),
                rv == recent_views(self.recent@),
                keep == (|r: RecentlyCommittedTxnView| r.commit_version >= commit_version_floor),
                recent_views(out@) == rv.take(i as int).filter(keep),
            decreases self.recent.len() - i,
        {
            let r = &self.recent[i];
            proof {
                assert(rv.take(i + 1) =~= rv.take(i as int).push(r@));
                rv.take(i as int).lemma_filter_push(r@, keep);
            }
            if r.commit_version >= commit_version_floor {
                let ghost before = out@;
                out.push(r.clone());
                assert(recent_views(out@) =~= recent_views(before).push(r@));
            }
            i += 1;
        }
        assert(rv.take(i as int) =~= rv);
        self.recent = out;
        self.recent_floor_version = commit_version_floor;
        let gone = self.txns_in(SiTxnPhase::Aborted);
        self.by_txn.remove_all(&gone);
        proof {
            assert forall|k: Seq<char>| start.by_txn.contains_key(k) implies (
            #[trigger] crate::table::key_set(gone@).contains(k) <==> start.by_txn[k].status
                == SiTxnPhase::Aborted) by {
                assert(texts(gone@).contains(k) <==> crate::table::key_set(gone@).contains(k)) by {
                    if texts(gone@).contains(k) {
                        let w = choose|w: int| 0 <= w < gone@.len() && texts(gone@)[w] == k;
                        assert(gone@[w]@ == k);
                    }
                    if crate::table::key_set(gone@).contains(k) {
                        let w = choose|w: int| 0 <= w < gone@.len() && (#[trigger] gone@[w])@ == k;
                        assert(texts(gone@)[w] == k);
                    }
                }
            }
            assert(self@.by_txn =~= start.evicted(commit_version_floor).by_txn);
            assert(self@ =~= start.evicted(commit_version_floor));
        }
    }

    /// Ids of the transactions in a phase, in order.
    fn txns_in(&self, phase: SiTxnPhase) -> (r: Vec<String>)
        ensures
            lists_phase(texts(r@), self@.by_txn, phase),
    {
        let mut out: Vec<String> = Vec::new();
        let n = self.by_txn.len();
        let ghost rows = self.by_txn.rows();
        let ghost mut from: Seq<int> = Seq::empty();
        let mut i: usize = 0;
        while i < n
            invariant
                i <= n,
                n == rows.len(),
                rows == self.by_txn.rows(),
                picks(from, i as int),
                from.len() == out@.len(),
                forall|p: int|
                    0 <= p < from.len() ==> rows[#[trigger] from[p]].0 == out@[p]@
                        && rows[from[p]].1.status == phase,
                forall|q: int|
                    0 <= q < i && (#[trigger] rows[q]).1.status == phase ==> from.contains(q),
            decreases n - i,
        {
            proof { lemma_picks_push(from, i as int); }
            if self.by_txn.value_at(i).status == phase {
                out.push(self.by_txn.key_at(i).clone());
                proof {
                    from = from.push(i as int);
                }
            }
            i += 1;
        }
        proof {
            let o = texts(out@);
            let m = self@.by_txn;
            assert forall|p: int, q: int| 0 <= p < q < o.len() implies text_before(
                #[trigger] o[p],
                #[trigger] o[q],
            ) by {
                lemma_ascending::<String, SiTxnLocksView>(rows, from[p], from[q]);
            }
            assert forall|k: Seq<char>| #[trigger]
                o.contains(k) <==> (m.contains_key(k) && m[k].status == phase) by {
                if o.contains(k) {
                    let p = choose|p: int| 0 <= p < o.len() && o[p] == k;
                    let x = from[p];
                    assert(m.contains_key(rows[x].0));
                }
                if m.contains_key(k) && m[k].status == phase {
                    let w = choose|w: int| 0 <= w < rows.len() && (#[trigger] rows[w]).0 == k;
                    assert(from.contains(w));
                    let p = choose|p: int| 0 <= p < from.len() && from[p] == w;
                    assert(o[p] == k);
                }
            }
        }
        out
    }

    /// Ids of the active transactions, in order.
    pub fn active_txn_ids(&self) -> (r: Vec<String>)
        ensures
            lists_phase(texts(r@), self@.by_txn, SiTxnPhase::Active),
    {
        self.txns_in(SiTxnPhase::Active)
    }

    /// All tracked transactions with their locks, in order of their ids.
    pub fn snapshot_for_persist(&self) -> (r: Vec<(String, SiTxnLocks)>)
        ensures
            lists::<String, SiTxnLocksView>(pair_views(r@), self@.by_txn),
    {
        self.by_txn.list()
    }

    /// The locks of one transaction.
    pub fn inspect(&self, txn_id: &str) -> (r: Option<SiTxnLocks>)
        ensures
            match r {
                Some(l) => self@.by_txn.contains_key(txn_id@) && self@.by_txn[txn_id@] == l@,
                None => !self@.by_txn.contains_key(txn_id@),
            },
    {
        self.by_txn.fetch(&txn_id.to_owned())
    }
}

/// Whether some edge comes from `peer` for `key`.
fn edges_have(edges: &Vec<SIEdge>, peer: &str, key: &str) -> (r: bool)
    ensures
        r == has_edge(edge_views(edges@), peer@, key@),
{
    let ghost ev = edge_views(edges@);
    let mut i: usize = 0;
    while i < edges.len()
        invariant
            i <= edges.len(),
            ev == edge_views(edges@),
            forall|j: int|
                0 <= j < i ==> !((#[trigger] ev[j]).peer == peer@ && ev[j].key == key@),
        decreases edges.len() - i,
    {
        if same_text(edges[i].peer.as_str(), peer) && same_text(edges[i].key.as_str(), key) {
            assert(ev[i as int].peer == peer@ && ev[i as int].key == key@);
            return true;
        }
        i += 1;
    }
    false
}

/// The writers after `txn` has committed.
fn committed_writers(list: WriterList, txn: &str, version: u64) -> (r: WriterList)
    ensures
        r@ == writers_committed(list@, txn@, version),
{
    let ghost wv = list@;
    let mut writers = list.writers;
    let n = writers.len();
    let mut i: usize = 0;
    while i < n
        invariant
            i <= n,
            n == writers@.len(),
            wv.len() == n,
            forall|j: int| i <= j < n ==> (#[trigger] writers@[j])@ == wv[j],
            forall|j: int|
                0 <= j < i ==> (#[trigger] writers@[j])@ == writer_committed(
                    wv[j],
                    txn@,
                    version,
                ),
        decreases n - i,
    {
        assert(writers@[i as int]@ == wv[i as int]);
        if same_text(writers[i].txn_id.as_str(), txn) {
            let id = writers[i].txn_id.clone();
            writers[i] = KeyWriter {
                txn_id: id,
                committed_version: version,
                is_recently_committed: true,
            };
        }
        i += 1;
    }
    let r = WriterList { writers };
    assert(r@ =~= writers_committed(wv, txn@, version));
    r
}

proof fn lemma_mirrored(
    m: Map<Seq<char>, SiTxnLocksView>,
    readers: Seq<Seq<char>>,
    n: nat,
    txn: Seq<char>,
    key: Seq<char>,
    version: u64,
)
    requires
        n <= readers.len(),
    ensures
        ({
            let r = mirrored(m, readers, n, txn, key, version);
            &&& r.dom() == m.dom()
            &&& forall|k: Seq<char>| #[trigger]
                m.contains_key(k) ==> r[k].out_edges == m[k].out_edges && m[k].in_edges.is_prefix_of(
                    r[k].in_edges,
                )
            &&& forall|i: int|
                0 <= i < n && (#[trigger] readers[i]) != txn && m.contains_key(readers[i])
                    ==> has_peer(r[readers[i]].in_edges, txn)
        }),
    decreases n,
{
    if n > 0 {
        lemma_mirrored(m, readers, (n - 1) as nat, txn, key, version);
        let p = mirrored(m, readers, (n - 1) as nat, txn, key, version);
        let r = mirrored(m, readers, n, txn, key, version);
        let x = readers[n - 1];
        assert(r.dom() =~= m.dom());
        if x != txn && p.contains_key(x) {
            let e = in_edge(txn, key, version);
            assert(r[x].in_edges[p[x].in_edges.len() as int].peer == txn);
            assert(has_peer(r[x].in_edges, txn));
        }
        assert forall|k: Seq<char>| #[trigger] m.contains_key(k) implies m[k].in_edges.is_prefix_of(
            r[k].in_edges,
        ) by {
            assert(m[k].in_edges.is_prefix_of(p[k].in_edges));
            if k == x && x != txn {
                assert(m[k].in_edges =~= r[k].in_edges.subrange(0, m[k].in_edges.len() as int));
            }
        }
        assert forall|i: int|
            0 <= i < n && (#[trigger] readers[i]) != txn && m.contains_key(readers[i]) implies
            has_peer(r[readers[i]].in_edges, txn) by {
            if i < n - 1 {
                let k = readers[i];
                assert(has_peer(p[k].in_edges, txn));
                let w = choose|w: int|
                    0 <= w < p[k].in_edges.len() && (#[trigger] p[k].in_edges[w]).peer == txn;
                assert(r[k].in_edges[w].peer == txn);
            }
        }
    }
}

proof fn lemma_peer_kept(a: Seq<SIEdgeView>, b: Seq<SIEdgeView>, peer: Seq<char>)
    requires
        has_peer(a, peer),
        a.is_prefix_of(b),
    ensures
        has_peer(b, peer),
{
    let w = choose|w: int| 0 <= w < a.len() && (#[trigger] a[w]).peer == peer;
    assert(b[w] == a[w]);
}

/// A write of a key that another transaction has read leaves an out-edge on
/// the writer and an in-edge on the reader, and loses no edge of anyone.
proof fn lemma_written(l: LocksView, txn: Seq<char>, key: Seq<char>, version: u64, reader: Seq<char>)
    requires
        txn != reader,
        l.by_txn.contains_key(txn),
        l.by_txn.contains_key(reader),
        list_at(l.readers_of, key).contains(reader),
    ensures
        ({
            let w = l.written(txn, key, version);
            &&& w.by_txn.dom() == l.by_txn.dom()
            &&& w.readers_of == l.readers_of
            &&& has_peer(w.by_txn[txn].out_edges, reader)
            &&& has_peer(w.by_txn[reader].in_edges, txn)
            &&& forall|k: Seq<char>| #[trigger]
                l.by_txn.contains_key(k) ==> l.by_txn[k].in_edges.is_prefix_of(
                    w.by_txn[k].in_edges,
                ) && l.by_txn[k].out_edges.is_prefix_of(w.by_txn[k].out_edges)
        }),
{
    let readers = list_at(l.readers_of, key);
    let keep = other_than(txn);
    let own = l.by_txn.insert(
        txn,
        SiTxnLocksView {
            writes: l.by_txn[txn].writes.push(SIWriteLockView { key, version_to_write: version }),
            out_edges: l.by_txn[txn].out_edges + reader_edges(readers, txn, key, version),
            ..l.by_txn[txn]
        },
    );
    lemma_mirrored(own, readers, readers.len(), txn, key, version);
    let w = l.written(txn, key, version);
    assert(own.dom() =~= l.by_txn.dom());
    let i = choose|i: int| 0 <= i < readers.len() && readers[i] == reader;
    assert(readers[i] == reader);
    assert(own.contains_key(readers[i]));
    readers.lemma_filter_contains(keep, i);
    let picked = readers.filter(keep);
    assert(picked.contains(reader));
    let p = choose|p: int| 0 <= p < picked.len() && picked[p] == reader;
    let added = reader_edges(readers, txn, key, version);
    assert(added[p].peer == reader);
    let base = l.by_txn[txn].out_edges;
    assert((base + added)[base.len() + p].peer == reader);
    assert(has_peer(base + added, reader));
    assert forall|k: Seq<char>| #[trigger] l.by_txn.contains_key(k) implies l.by_txn[
        k
    ].in_edges.is_prefix_of(w.by_txn[k].in_edges) && l.by_txn[k].out_edges.is_prefix_of(
        w.by_txn[k].out_edges,
    ) by {
        assert(own.contains_key(k));
        assert(own[k].in_edges == l.by_txn[k].in_edges);
        if k == txn {
            assert(base =~= (base + added).subrange(0, base.len() as int));
        } else {
            assert(own[k].out_edges == l.by_txn[k].out_edges);
            assert(l.by_txn[k].out_edges =~= l.by_txn[k].out_edges.subrange(
                0,
                l.by_txn[k].out_edges.len() as int,
            ));
        }
    }
}

/// Write skew: when each of two transactions writes a key that the other has
/// read, both find a dangerous structure.
pub proof fn law_write_skew_endangers_both(
    l: LocksView,
    a: Seq<char>,
    b: Seq<char>,
    x: Seq<char>,
    y: Seq<char>,
    va: u64,
    vb: u64,
)
    requires
        a != b,
        l.by_txn.contains_key(a),
        l.by_txn.contains_key(b),
        list_at(l.readers_of, x).contains(a),
        list_at(l.readers_of, y).contains(b),
    ensures
        l.written(a, y, va).written(b, x, vb).danger(a) is Some,
        l.written(a, y, va).written(b, x, vb).danger(b) is Some,
{
    let l1 = l.written(a, y, va);
    let l2 = l1.written(b, x, vb);
    lemma_written(l, a, y, va, b);
    lemma_written(l1, b, x, vb, a);
    lemma_peer_kept(l1.by_txn[a].out_edges, l2.by_txn[a].out_edges, b);
    lemma_peer_kept(l1.by_txn[b].in_edges, l2.by_txn[b].in_edges, a);
    assert(dangerous(a, l2.by_txn[a].in_edges, l2.by_txn[a].out_edges, b));
    assert(dangerous(b, l2.by_txn[b].in_edges, l2.by_txn[b].out_edges, a));
    law_detection_is_exact(a, l2.by_txn[a].in_edges, l2.by_txn[a].out_edges);
    law_detection_is_exact(b, l2.by_txn[b].in_edges, l2.by_txn[b].out_edges);
}

/// No transaction but `other` endangers `txn`.
pub open spec fn endangered_only_by(l: LocksView, txn: Seq<char>, other: Seq<char>) -> bool {
    l.by_txn.contains_key(txn) ==> forall|p: Seq<char>| #[trigger]
        dangerous(txn, l.by_txn[txn].in_edges, l.by_txn[txn].out_edges, p) ==> p == other
}

proof fn lemma_has_peer_without(s: Seq<SIEdgeView>, gone: Seq<char>, p: Seq<char>)
    ensures
        has_peer(s.filter(|e: SIEdgeView| e.peer != gone), p) <==> has_peer(s, p) && p != gone,
{
    let keep = |e: SIEdgeView| e.peer != gone;
    let f = s.filter(keep);
    if has_peer(f, p) {
        let i = choose|i: int| 0 <= i < f.len() && (#[trigger] f[i]).peer == p;
        s.lemma_filter_pred(keep, i);
        s.lemma_filter_contains_rev(keep, f[i]);
        let w = choose|w: int| 0 <= w < s.len() && s[w] == f[i];
        assert(s[w].peer == p);
    }
    if has_peer(s, p) && p != gone {
        let i = choose|i: int| 0 <= i < s.len() && (#[trigger] s[i]).peer == p;
        s.lemma_filter_contains(keep, i);
        let w = choose|w: int| 0 <= w < f.len() && f[w] == s[i];
        assert(f[w].peer == p);
    }
}

/// Once a peer has aborted, a transaction is free of danger just when no one
/// else endangered it.
pub proof fn law_abort_frees_the_peer(l: LocksView, gone: Seq<char>, other: Seq<char>)
    requires
        gone != other,
    ensures
        l.aborted(gone).danger(other) is None <==> endangered_only_by(l, other, gone),
{
    let r = l.aborted(gone);
    if l.by_txn.contains_key(other) {
        let a = l.by_txn[other].in_edges;
        let b = l.by_txn[other].out_edges;
        let x = r.by_txn[other].in_edges;
        let y = r.by_txn[other].out_edges;
        law_detection_is_exact(other, x, y);
        assert forall|p: Seq<char>| #[trigger] dangerous(other, x, y, p) <==> dangerous(
            other,
            a,
            b,
            p,
        ) && p != gone by {
            lemma_has_peer_without(a, gone, p);
            lemma_has_peer_without(b, gone, p);
        }
        if r.danger(other) is None {
            assert forall|p: Seq<char>| #[trigger] dangerous(other, a, b, p) implies p == gone by {
                assert(!dangerous(other, x, y, p));
            }
        }
    }
}

/// A read of `key` at `observed` misses no committed write of it.
pub open spec fn misses_nothing(l: LocksView, key: Seq<char>, observed: u64) -> bool {
    forall|i: int|
        0 <= i < list_at(l.writers_of, key).len() ==> !missed(
            #[trigger] list_at(l.writers_of, key)[i],
            observed,
        )
}

/// A read that misses no committed write leaves the edges of everyone as they
/// were, also where another transaction has staged a write of the key.
pub proof fn law_current_read_adds_no_edge(
    l: LocksView,
    txn: Seq<char>,
    key: Seq<char>,
    observed: u64,
    etag: Seq<char>,
    any: Seq<char>,
)
    requires
        misses_nothing(l, key, observed),
    ensures
        ({
            let n = l.read(txn, key, observed, etag);
            &&& n.by_txn.contains_key(any) <==> l.by_txn.contains_key(any)
            &&& l.by_txn.contains_key(any) ==> n.by_txn[any].in_edges == l.by_txn[any].in_edges
                && n.by_txn[any].out_edges == l.by_txn[any].out_edges && n.by_txn[any].writes
                == l.by_txn[any].writes
            &&& n.danger(any) == l.danger(any)
        }),
{
    let writers = list_at(l.writers_of, key);
    let late = |w: KeyWriterView| missed(w, observed);
    let picked = writers.filter(late);
    if picked.len() > 0 {
        let z: int = 0;
        writers.lemma_filter_pred(late, z);
        writers.lemma_filter_contains_rev(late, picked[z]);
        let w = choose|w: int| 0 <= w < writers.len() && writers[w] == picked[z];
        assert(!missed(writers[w], observed));
    }
    if l.by_txn.contains_key(txn) {
        assert(l.by_txn[txn].in_edges + missed_edges(writers, key, observed)
            =~= l.by_txn[txn].in_edges);
    }
}

/// A read that misses a committed write of a transaction which has itself read
/// what the reader writes puts the reader in danger.
pub proof fn law_missed_write_endangers_the_reader(
    l: LocksView,
    txn: Seq<char>,
    key: Seq<char>,
    observed: u64,
    etag: Seq<char>,
    at: int,
)
    requires
        l.by_txn.contains_key(txn),
        0 <= at < list_at(l.writers_of, key).len(),
        missed(list_at(l.writers_of, key)[at], observed),
        list_at(l.writers_of, key)[at].txn_id != txn,
        has_peer(l.by_txn[txn].out_edges, list_at(l.writers_of, key)[at].txn_id),
    ensures
        l.read(txn, key, observed, etag).danger(txn) is Some,
{
    let writers = list_at(l.writers_of, key);
    let late = |w: KeyWriterView| missed(w, observed);
    let n = l.read(txn, key, observed, etag);
    let before = l.by_txn[txn].in_edges;
    let added = missed_edges(writers, key, observed);
    let peer = writers[at].txn_id;
    writers.lemma_filter_contains(late, at);
    let picked = writers.filter(late);
    let w = choose|w: int| 0 <= w < picked.len() && picked[w] == writers[at];
    assert(added[w].peer == peer);
    assert((before + added)[before.len() + w].peer == peer);
    assert(has_peer(n.by_txn[txn].in_edges, peer));
    assert(dangerous(txn, n.by_txn[txn].in_edges, n.by_txn[txn].out_edges, peer));
    law_detection_is_exact(txn, n.by_txn[txn].in_edges, n.by_txn[txn].out_edges);
}

proof fn lemma_mirrored_in_peers(
    m: Map<Seq<char>, SiTxnLocksView>,
    readers: Seq<Seq<char>>,
    n: nat,
    txn: Seq<char>,
    key: Seq<char>,
    version: u64,
    any: Seq<char>,
    p: Seq<char>,
)
    requires
        n <= readers.len(),
    ensures
        ({
            let r = mirrored(m, readers, n, txn, key, version);
            &&& r.contains_key(any) <==> m.contains_key(any)
            &&& m.contains_key(any) && has_peer(r[any].in_edges, p) ==> has_peer(
                m[any].in_edges,
                p,
            ) || (p == txn && any != txn && readers.contains(any))
            &&& m.contains_key(any) ==> r[any].writes == m[any].writes
        }),
    decreases n,
{
    if n > 0 {
        let q = mirrored(m, readers, (n - 1) as nat, txn, key, version);
        let r = mirrored(m, readers, n, txn, key, version);
        let x = readers[n - 1];
        assert(readers.contains(x));
        lemma_mirrored_in_peers(m, readers, (n - 1) as nat, txn, key, version, any, p);
        lemma_mirrored_in_peers(m, readers, (n - 1) as nat, txn, key, version, x, p);
        if any == x && x != txn && q.contains_key(x) && has_peer(r[any].in_edges, p) {
            let i = choose|i: int|
                0 <= i < r[any].in_edges.len() && (#[trigger] r[any].in_edges[i]).peer == p;
            if i < q[any].in_edges.len() {
                assert(q[any].in_edges[i].peer == p);
            }
        }
    }
}

/// A write endangers only readers of its key, and only through the writer:
/// whoever has an in-edge afterwards had it before, or has read the key and has
/// it from the writer.
pub proof fn lemma_written_in_peers(
    l: LocksView,
    writer: Seq<char>,
    key: Seq<char>,
    version: u64,
    any: Seq<char>,
    p: Seq<char>,
)
    requires
        l.by_txn.contains_key(any),
    ensures
        ({
            let n = l.written(writer, key, version);
            &&& n.by_txn.contains_key(any)
            &&& n.readers_of == l.readers_of
            &&& has_peer(n.by_txn[any].in_edges, p) ==> has_peer(l.by_txn[any].in_edges, p) || (p
                == writer && any != writer && list_at(l.readers_of, key).contains(any))
        }),
{
    let readers = list_at(l.readers_of, key);
    let own = if l.by_txn.contains_key(writer) {
        let w = l.by_txn[writer];
        l.by_txn.insert(
            writer,
            SiTxnLocksView {
                writes: w.writes.push(SIWriteLockView { key, version_to_write: version }),
                out_edges: w.out_edges + reader_edges(readers, writer, key, version),
                ..w
            },
        )
    } else {
        l.by_txn
    };
    lemma_mirrored_in_peers(own, readers, readers.len(), writer, key, version, any, p);
}

/// What a write leaves of the write locks of a transaction.
pub proof fn lemma_written_writes(
    l: LocksView,
    writer: Seq<char>,
    key: Seq<char>,
    version: u64,
    any: Seq<char>,
)
    ensures
        ({
            let n = l.written(writer, key, version);
            &&& n.by_txn.contains_key(any) <==> l.by_txn.contains_key(any)
            &&& l.by_txn.contains_key(any) ==> n.by_txn[any].writes == if any == writer {
                l.by_txn[any].writes.push(SIWriteLockView { key, version_to_write: version })
            } else {
                l.by_txn[any].writes
            }
        }),
{
    let readers = list_at(l.readers_of, key);
    let own = if l.by_txn.contains_key(writer) {
        let w = l.by_txn[writer];
        l.by_txn.insert(
            writer,
            SiTxnLocksView {
                writes: w.writes.push(SIWriteLockView { key, version_to_write: version }),
                out_edges: w.out_edges + reader_edges(readers, writer, key, version),
                ..w
            },
        )
    } else {
        l.by_txn
    };
    lemma_mirrored_in_peers(own, readers, readers.len(), writer, key, version, any, writer);
}

proof fn lemma_commit_mirrored_writes(
    m: Map<Seq<char>, SiTxnLocksView>,
    edges: Seq<SIEdgeView>,
    n: nat,
    txn: Seq<char>,
    commit_version: u64,
    any: Seq<char>,
)
    ensures
        ({
            let r = commit_mirrored(m, edges, n, txn, commit_version);
            &&& r.contains_key(any) <==> m.contains_key(any)
            &&& m.contains_key(any) ==> r[any].writes == m[any].writes
        }),
    decreases n,
{
    if n > 0 {
        lemma_commit_mirrored_writes(m, edges, (n - 1) as nat, txn, commit_version, any);
    }
}

/// A commit keeps the write locks of everyone.
pub proof fn lemma_committed_writes(
    l: LocksView,
    txn: Seq<char>,
    commit_version: u64,
    now_ms: i64,
    any: Seq<char>,
)
    ensures
        ({
            let n = l.committed(txn, commit_version, now_ms);
            &&& n.by_txn.contains_key(any) <==> l.by_txn.contains_key(any)
            &&& l.by_txn.contains_key(any) ==> n.by_txn[any].writes == l.by_txn[any].writes
        }),
{
    if l.by_txn.contains_key(txn) {
        let marked = l.by_txn.insert(
            txn,
            SiTxnLocksView { status: SiTxnPhase::Committed, ..l.by_txn[txn] },
        );
        let edges = l.by_txn[txn].out_edges;
        lemma_commit_mirrored_writes(marked, edges, edges.len(), txn, commit_version, any);
    }
}

proof fn lemma_keys_committed(
    m: Map<Seq<char>, Seq<KeyWriterView>>,
    keys: Seq<Seq<char>>,
    n: nat,
    txn: Seq<char>,
    version: u64,
    k: Seq<char>,
)
    requires
        n <= keys.len(),
    ensures
        ({
            let a = list_at(m, k);
            let b = list_at(keys_committed(m, keys, n, txn, version), k);
            &&& b.len() == a.len()
            &&& forall|i: int|
                0 <= i < a.len() ==> #[trigger] b[i] == a[i] || (keys.contains(k) && b[i]
                    == writer_committed(a[i], txn, version))
        }),
    decreases n,
{
    if n > 0 {
        lemma_keys_committed(m, keys, (n - 1) as nat, txn, version, k);
        let p = keys_committed(m, keys, (n - 1) as nat, txn, version);
        let a = list_at(m, k);
        let b = list_at(keys_committed(m, keys, n, txn, version), k);
        if keys[n - 1] == k && p.contains_key(k) {
            assert(keys.contains(k));
            assert forall|i: int| 0 <= i < a.len() implies #[trigger] b[i] == a[i] || (
            keys.contains(k) && b[i] == writer_committed(a[i], txn, version)) by {
                let q = list_at(p, k);
                assert(q[i] == a[i] || q[i] == writer_committed(a[i], txn, version));
                assert(b[i] == writer_committed(q[i], txn, version));
            }
        }
    }
}

/// A commit changes the writers of a key only where the transaction holds a
/// write lock for it, and only to say that it has committed.
pub proof fn lemma_committed_writers(
    l: LocksView,
    txn: Seq<char>,
    commit_version: u64,
    now_ms: i64,
    k: Seq<char>,
)
    ensures
        ({
            let a = list_at(l.writers_of, k);
            let b = list_at(l.committed(txn, commit_version, now_ms).writers_of, k);
            &&& b.len() == a.len()
            &&& forall|i: int|
                0 <= i < a.len() && #[trigger] b[i] != a[i] ==> b[i].committed_version
                    == commit_version && l.by_txn.contains_key(txn) && exists|j: int|
                    0 <= j < l.by_txn[txn].writes.len() && (
                    #[trigger] l.by_txn[txn].writes[j]).key == k
        }),
{
    if l.by_txn.contains_key(txn) {
        let keys = written_keys(l.by_txn[txn].writes);
        lemma_keys_committed(l.writers_of, keys, keys.len(), txn, commit_version, k);
        if keys.contains(k) {
            let j = choose|j: int| 0 <= j < keys.len() && keys[j] == k;
            assert(l.by_txn[txn].writes[j].key == k);
        }
    }
}

/// The transaction is known and has no edges.
pub open spec fn edge_free(l: LocksView, txn: Seq<char>) -> bool {
    &&& l.by_txn.contains_key(txn)
    &&& l.by_txn[txn].in_edges.len() == 0
    &&& l.by_txn[txn].out_edges.len() == 0
}

/// Two transactions without edges that then write are endangered by each other
/// at most.
pub proof fn law_fresh_writers_endanger_only_each_other(
    l: LocksView,
    a: Seq<char>,
    b: Seq<char>,
    x: Seq<char>,
    y: Seq<char>,
    va: u64,
    vb: u64,
)
    requires
        a != b,
        edge_free(l, a),
        edge_free(l, b),
    ensures
        endangered_only_by(l.written(a, x, va).written(b, y, vb), a, b),
        endangered_only_by(l.written(a, x, va).written(b, y, vb), b, a),
{
    let l1 = l.written(a, x, va);
    let l2 = l1.written(b, y, vb);
    assert forall|p: Seq<char>| #[trigger]
        dangerous(a, l2.by_txn[a].in_edges, l2.by_txn[a].out_edges, p) implies p == b by {
        lemma_written_in_peers(l, a, x, va, a, p);
        lemma_written_in_peers(l1, b, y, vb, a, p);
    }
    assert forall|p: Seq<char>| #[trigger]
        dangerous(b, l2.by_txn[b].in_edges, l2.by_txn[b].out_edges, p) implies p == a by {
        lemma_written_in_peers(l, a, x, va, b, p);
        lemma_written_in_peers(l1, b, y, vb, b, p);
    }
}

/// Reads count that are noted before the other's write is staged, or after it
/// has committed. Two transactions that note theirs in between, once both
/// writes are staged, do not endanger each other.
pub proof fn law_reads_between_stage_and_commit_do_not_count(
    l: LocksView,
    a: Seq<char>,
    b: Seq<char>,
    x: Seq<char>,
    y: Seq<char>,
    va: u64,
    vb: u64,
    seen_y: (u64, Seq<char>),
    seen_x: (u64, Seq<char>),
)
    requires
        a != b,
        edge_free(l, a),
        edge_free(l, b),
        !list_at(l.readers_of, y).contains(a),
        !list_at(l.readers_of, x).contains(b),
        misses_nothing(l, x, seen_x.0),
        misses_nothing(l, y, seen_y.0),
    ensures
        ({
            let w = l.written(a, x, va).written(b, y, vb);
            let n = w.read(a, y, seen_y.0, seen_y.1).read(b, x, seen_x.0, seen_x.1);
            n.danger(a) is None && n.danger(b) is None
        }),
{
    let l1 = l.written(a, x, va);
    let w = l1.written(b, y, vb);
    lemma_written_in_peers(l, a, x, va, a, a);
    lemma_written_in_peers(l1, b, y, vb, a, a);
    lemma_written_in_peers(l, a, x, va, b, b);
    lemma_written_in_peers(l1, b, y, vb, b, b);
    assert forall|p: Seq<char>| !has_peer(w.by_txn[a].in_edges, p) && !has_peer(
        w.by_txn[b].in_edges,
        p,
    ) by {
        lemma_written_in_peers(l, a, x, va, a, p);
        lemma_written_in_peers(l1, b, y, vb, a, p);
        lemma_written_in_peers(l, a, x, va, b, p);
        lemma_written_in_peers(l1, b, y, vb, b, p);
    }
    law_detection_is_exact(a, w.by_txn[a].in_edges, w.by_txn[a].out_edges);
    law_detection_is_exact(b, w.by_txn[b].in_edges, w.by_txn[b].out_edges);
    assert(misses_nothing(w, x, seen_x.0)) by {
        lemma_staged_write_is_not_missed(l, a, x, va, x, seen_x.0);
        lemma_staged_write_is_not_missed(l1, b, y, vb, x, seen_x.0);
    }
    assert(misses_nothing(w, y, seen_y.0)) by {
        lemma_staged_write_is_not_missed(l, a, x, va, y, seen_y.0);
        lemma_staged_write_is_not_missed(l1, b, y, vb, y, seen_y.0);
    }
    let r = w.read(a, y, seen_y.0, seen_y.1);
    law_current_read_adds_no_edge(w, a, y, seen_y.0, seen_y.1, a);
    law_current_read_adds_no_edge(w, a, y, seen_y.0, seen_y.1, b);
    assert(misses_nothing(r, x, seen_x.0)) by {
        assert(r.writers_of == w.writers_of);
    }
    law_current_read_adds_no_edge(r, b, x, seen_x.0, seen_x.1, a);
    law_current_read_adds_no_edge(r, b, x, seen_x.0, seen_x.1, b);
}

/// A write that is only staged is not one that a read misses.
proof fn lemma_staged_write_is_not_missed(
    l: LocksView,
    writer: Seq<char>,
    key: Seq<char>,
    version: u64,
    k: Seq<char>,
    observed: u64,
)
    requires
        misses_nothing(l, k, observed),
    ensures
        misses_nothing(l.written(writer, key, version), k, observed),
{
    let n = l.written(writer, key, version);
    let old = list_at(l.writers_of, k);
    assert forall|i: int| 0 <= i < list_at(n.writers_of, k).len() implies !missed(
        #[trigger] list_at(n.writers_of, k)[i],
        observed,
    ) by {
        if i < old.len() {
            assert(list_at(n.writers_of, k)[i] == old[i]);
        }
    }
}

/// A transaction that only reads, or only writes what nobody else has read,
/// is never part of a dangerous structure: without edges of one direction
/// there is none.
pub proof fn law_one_sided_txn_is_safe(l: LocksView, txn: Seq<char>)
    requires
        l.by_txn.contains_key(txn) ==> l.by_txn[txn].in_edges.len() == 0
            || l.by_txn[txn].out_edges.len() == 0,
    ensures
        l.danger(txn) is None,
{
    if l.by_txn.contains_key(txn) {
        law_detection_is_exact(txn, l.by_txn[txn].in_edges, l.by_txn[txn].out_edges);
        if l.danger(txn) is Some {
            let p = l.danger(txn)->0;
            assert(has_peer(l.by_txn[txn].in_edges, p));
            assert(has_peer(l.by_txn[txn].out_edges, p));
        }
    }
}

/// A transaction's own reads are no edges: writing keys that nobody else has
/// read adds no out-edge.
pub proof fn law_own_reads_add_no_edges(
    l: LocksView,
    txn: Seq<char>,
    key: Seq<char>,
    version: u64,
)
    requires
        l.by_txn.contains_key(txn),
        forall|i: int|
            0 <= i < list_at(l.readers_of, key).len() ==> #[trigger] list_at(l.readers_of, key)[i]
                == txn,
    ensures
        l.written(txn, key, version).by_txn[txn].out_edges == l.by_txn[txn].out_edges,
        l.written(txn, key, version).by_txn[txn].in_edges == l.by_txn[txn].in_edges,
{
    let readers = list_at(l.readers_of, key);
    let keep = other_than(txn);
    let picked = readers.filter(keep);
    assert(picked.len() == 0) by {
        if picked.len() > 0 {
            let z: int = 0;
            readers.lemma_filter_pred(keep, z);
            readers.lemma_filter_contains_rev(keep, picked[z]);
            let w = choose|w: int| 0 <= w < readers.len() && readers[w] == picked[z];
            assert(readers[w] == txn);
        }
    }
    let added = reader_edges(readers, txn, key, version);
    assert(l.by_txn[txn].out_edges + added =~= l.by_txn[txn].out_edges);
    let own = l.by_txn.insert(
        txn,
        SiTxnLocksView {
            writes: l.by_txn[txn].writes.push(SIWriteLockView { key, version_to_write: version }),
            out_edges: l.by_txn[txn].out_edges + reader_edges(readers, txn, key, version),
            ..l.by_txn[txn]
        },
    );
    lemma_mirrored_own(own, readers, readers.len(), txn, key, version);
}

proof fn lemma_mirrored_own(
    m: Map<Seq<char>, SiTxnLocksView>,
    readers: Seq<Seq<char>>,
    n: nat,
    txn: Seq<char>,
    key: Seq<char>,
    version: u64,
)
    requires
        n <= readers.len(),
        m.contains_key(txn),
    ensures
        mirrored(m, readers, n, txn, key, version).contains_key(txn),
        mirrored(m, readers, n, txn, key, version)[txn] == m[txn],
    decreases n,
{
    if n > 0 {
        lemma_mirrored_own(m, readers, (n - 1) as nat, txn, key, version);
    }
}

/// Of the readers of a key, an abort leaves all but the transaction.
pub proof fn lemma_aborted_readers(l: LocksView, txn: Seq<char>, key: Seq<char>)
    requires
        l.readers_of.contains_key(key),
    ensures
        l.aborted(txn).readers_of.contains_key(key),
        l.aborted(txn).readers_of[key] == l.readers_of[key].filter(other_than(txn)),
{
    let s = l.readers_of[key];
    let n = l.aborted(txn).readers_of;
    assert(n.contains_key(key));
    let p = choose|p: spec_fn(Seq<char>) -> bool|
        n[key] == #[trigger] s.filter(p) && forall|t: Seq<char>| #[trigger] p(t) <==> t != txn;
    assert(n[key] == s.filter(p) && forall|t: Seq<char>| #[trigger] p(t) <==> t != txn);
    assert(p =~= other_than(txn));
}

/// An abort leaves no trace of the transaction: not its locks, not an edge to
/// it, not a place among the readers or writers of a key.
pub proof fn law_abort_releases_everything(l: LocksView, txn: Seq<char>)
    ensures
        !l.aborted(txn).by_txn.contains_key(txn),
        forall|k: Seq<char>| #[trigger]
            l.aborted(txn).by_txn.contains_key(k) ==> !has_peer(
                l.aborted(txn).by_txn[k].in_edges,
                txn,
            ) && !has_peer(l.aborted(txn).by_txn[k].out_edges, txn),
        forall|k: Seq<char>| !list_at(#[trigger] l.aborted(txn).readers_of, k).contains(txn),
        forall|k: Seq<char>, i: int|
            0 <= i < list_at(l.aborted(txn).writers_of, k).len() ==> (#[trigger] list_at(
                l.aborted(txn).writers_of,
                k,
            )[i]).txn_id != txn,
{
    let r = l.aborted(txn);
    let p1 = |e: SIEdgeView| e.peer != txn;
    assert forall|k: Seq<char>| #[trigger] r.by_txn.contains_key(k) implies !has_peer(
        r.by_txn[k].in_edges,
        txn,
    ) && !has_peer(r.by_txn[k].out_edges, txn) by {
        let a = l.by_txn[k].in_edges;
        let b = l.by_txn[k].out_edges;
        if has_peer(a.filter(p1), txn) {
            let w = choose|w: int| 0 <= w < a.filter(p1).len() && (#[trigger] a.filter(p1)[w]).peer
                == txn;
            a.lemma_filter_pred(p1, w);
        }
        if has_peer(b.filter(p1), txn) {
            let w = choose|w: int| 0 <= w < b.filter(p1).len() && (#[trigger] b.filter(p1)[w]).peer
                == txn;
            b.lemma_filter_pred(p1, w);
        }
    }
    let p2 = |t: Seq<char>| t != txn;
    assert forall|k: Seq<char>| !list_at(#[trigger] r.readers_of, k).contains(txn) by {
        if l.readers_of.contains_key(k) {
            let s = l.readers_of[k];
            if s.filter(p2).contains(txn) {
                let w = choose|w: int| 0 <= w < s.filter(p2).len() && s.filter(p2)[w] == txn;
                s.lemma_filter_pred(p2, w);
            }
        }
    }
    let p3 = |w: KeyWriterView| w.txn_id != txn;
    assert forall|k: Seq<char>, i: int| 0 <= i < list_at(r.writers_of, k).len() implies (
    #[trigger] list_at(r.writers_of, k)[i]).txn_id != txn by {
        if l.writers_of.contains_key(k) {
            l.writers_of[k].lemma_filter_pred(p3, i);
        }
    }
}

/// After one side of a dangerous structure aborts, the other no longer finds
/// it.
pub proof fn law_abort_clears_the_peer(l: LocksView, gone: Seq<char>, other: Seq<char>)
    ensures
        l.aborted(gone).danger(other) != Some(gone),
{
    law_abort_releases_everything(l, gone);
    let r = l.aborted(gone);
    if r.by_txn.contains_key(other) {
        law_detection_is_exact(other, r.by_txn[other].in_edges, r.by_txn[other].out_edges);
    }
}

} // verus!
