//! Locks and edges of Cahill's Serializable Snapshot Isolation.
//!
//! Each transaction tracks SIRead locks (one per key read, with the version
//! observed) and SIWrite locks (one per key written, with the version to
//! write). Edges capture rw-antidependencies between transactions. Two
//! transactions with both an in-edge and an out-edge between them form a
//! dangerous structure, in which one of them has to abort.

use crate::order::same_text;
use crate::text::{copy_texts, texts};
use vstd::prelude::*;

verus! {

pub type TxnId = String;

pub type EdgeKey = String;

/// What the peer of an edge did.
#[derive(Debug, Clone, Copy, PartialEq, Eq, Structural)]
pub enum PeerAction {
    /// The peer read the key, and this transaction wrote it later.
    Read,
    /// The peer wrote the key, and this transaction read it earlier.
    Wrote,
}

/// Lifecycle phase of a transaction in the lock manager.
#[derive(Debug, Clone, Copy, PartialEq, Eq, Structural)]
pub enum SiTxnPhase {
    Active,
    Committed,
    Aborted,
}

impl Default for SiTxnPhase {
    fn default() -> (r: Self)
        ensures
            r == SiTxnPhase::Active,
    {
        SiTxnPhase::Active
    }
}

/// Direction of an edge in the audit trail.
#[derive(Debug, Clone, Copy, PartialEq, Eq, Structural)]
pub enum EdgeDirection {
    In,
    Out,
}

impl EdgeDirection {
    pub fn as_str(self) -> (r: &'static str)
        ensures
            r@ == match self {
                EdgeDirection::In => "in"@,
                EdgeDirection::Out => "out"@,
            },
    {
        match self {
            EdgeDirection::In => "in",
            EdgeDirection::Out => "out",
        }
    }
}

/// Number of commit versions for which a committed transaction's locks are
/// kept for cycle detection.
pub const RECENT_WINDOW: u64 = 1024;

/// The transaction read `key` at `version_observed`.
#[derive(Debug, PartialEq, Eq)]
pub struct SIReadLock {
    pub key: String,
    pub version_observed: u64,
    pub etag_observed: String,
}

/// Mathematical view of [`SIReadLock`].
pub ghost struct SIReadLockView {
    pub key: Seq<char>,
    pub version_observed: u64,
    pub etag_observed: Seq<char>,
}

impl View for SIReadLock {
    type V = SIReadLockView;

    open spec fn view(&self) -> SIReadLockView {
        SIReadLockView {
            key: self.key@,
            version_observed: self.version_observed,
            etag_observed: self.etag_observed@,
        }
    }
}

impl Clone for SIReadLock {
    fn clone(&self) -> (r: Self)
        ensures
            r@ == self@,
    {
        SIReadLock {
            key: self.key.clone(),
            version_observed: self.version_observed,
            etag_observed: self.etag_observed.clone(),
        }
    }
}

/// Views of a list of read locks.
pub open spec fn read_lock_views(s: Seq<SIReadLock>) -> Seq<SIReadLockView> {
    s.map_values(|e: SIReadLock| e@)
}

/// A copy of a list of read locks.
pub fn copy_read_locks(v: &Vec<SIReadLock>) -> (r: Vec<SIReadLock>)
    ensures
        read_lock_views(r@) == read_lock_views(v@),
{
    let mut out: Vec<SIReadLock> = Vec::new();
    let mut i: usize = 0;
    while i < v.len()
        invariant
            i <= v.len(),
            read_lock_views(out@) == read_lock_views(v@).take(i as int),
        decreases v.len() - i,
    {
        let ghost before = out@;
        out.push(v[i].clone());
        proof {
            assert(read_lock_views(out@) =~= read_lock_views(before).push(v@[i as int]@));
            assert(read_lock_views(v@).take(i as int + 1) =~= read_lock_views(v@).take(i as int).push(v@[i as int]@));
        }
        i += 1;
    }
    assert(read_lock_views(v@).take(i as int) =~= read_lock_views(v@));
    out
}

/// The transaction intends to write `key` at `version_to_write`.
#[derive(Debug, PartialEq, Eq)]
pub struct SIWriteLock {
    pub key: String,
    pub version_to_write: u64,
}

/// Mathematical view of [`SIWriteLock`].
pub ghost struct SIWriteLockView {
    pub key: Seq<char>,
    pub version_to_write: u64,
}

impl View for SIWriteLock {
    type V = SIWriteLockView;

    open spec fn view(&self) -> SIWriteLockView {
        SIWriteLockView {
            key: self.key@,
            version_to_write: self.version_to_write,
        }
    }
}

impl Clone for SIWriteLock {
    fn clone(&self) -> (r: Self)
        ensures
            r@ == self@,
    {
        SIWriteLock {
            key: self.key.clone(),
            version_to_write: self.version_to_write,
        }
    }
}

/// Views of a list of write locks.
pub open spec fn write_lock_views(s: Seq<SIWriteLock>) -> Seq<SIWriteLockView> {
    s.map_values(|e: SIWriteLock| e@)
}

/// A copy of a list of write locks.
pub fn copy_write_locks(v: &Vec<SIWriteLock>) -> (r: Vec<SIWriteLock>)
    ensures
        write_lock_views(r@) == write_lock_views(v@),
{
    let mut out: Vec<SIWriteLock> = Vec::new();
    let mut i: usize = 0;
    while i < v.len()
        invariant
            i <= v.len(),
            write_lock_views(out@) == write_lock_views(v@).take(i as int),
        decreases v.len() - i,
    {
        let ghost before = out@;
        out.push(v[i].clone());
        proof {
            assert(write_lock_views(out@) =~= write_lock_views(before).push(v@[i as int]@));
            assert(write_lock_views(v@).take(i as int + 1) =~= write_lock_views(v@).take(i as int).push(v@[i as int]@));
        }
        i += 1;
    }
    assert(write_lock_views(v@).take(i as int) =~= write_lock_views(v@));
    out
}

/// An rw-antidependency edge. Each side of the relationship holds one; the side
/// infers its direction from `peer_action` (`Read`: out-edge, `Wrote`: in-edge).
#[derive(Debug, PartialEq, Eq)]
pub struct SIEdge {
    pub peer: String,
    pub key: String,
    pub peer_action: PeerAction,
    pub version: u64,
}

/// Mathematical view of [`SIEdge`].
pub ghost struct SIEdgeView {
    pub peer: Seq<char>,
    pub key: Seq<char>,
    pub peer_action: PeerAction,
    pub version: u64,
}

impl View for SIEdge {
    type V = SIEdgeView;

    open spec fn view(&self) -> SIEdgeView {
        SIEdgeView {
            peer: self.peer@,
            key: self.key@,
            peer_action: self.peer_action,
            version: self.version,
        }
    }
}

impl Clone for SIEdge {
    fn clone(&self) -> (r: Self)
        ensures
            r@ == self@,
    {
        SIEdge {
            peer: self.peer.clone(),
            key: self.key.clone(),
            peer_action: self.peer_action,
            version: self.version,
        }
    }
}

/// Views of a list of edges.
pub open spec fn edge_views(s: Seq<SIEdge>) -> Seq<SIEdgeView> {
    s.map_values(|e: SIEdge| e@)
}

/// A copy of a list of edges.
pub fn copy_edges(v: &Vec<SIEdge>) -> (r: Vec<SIEdge>)
    ensures
        edge_views(r@) == edge_views(v@),
{
    let mut out: Vec<SIEdge> = Vec::new();
    let mut i: usize = 0;
    while i < v.len()
        invariant
            i <= v.len(),
            edge_views(out@) == edge_views(v@).take(i as int),
        decreases v.len() - i,
    {
        let ghost before = out@;
        out.push(v[i].clone());
        proof {
            assert(edge_views(out@) =~= edge_views(before).push(v@[i as int]@));
            assert(edge_views(v@).take(i as int + 1) =~= edge_views(v@).take(i as int).push(v@[i as int]@));
        }
        i += 1;
    }
    assert(edge_views(v@).take(i as int) =~= edge_views(v@));
    out
}

/// The edge is an in-edge from `peer`.
pub open spec fn is_in_edge_from(e: SIEdgeView, peer: Seq<char>) -> bool {
    e.peer == peer && e.peer_action == PeerAction::Wrote
}

impl SIEdge {
    pub fn contains_in_edge_from(&self, candidate_peer: &str) -> (r: bool)
        ensures
            r == is_in_edge_from(self@, candidate_peer@),
    {
        same_text(self.peer.as_str(), candidate_peer) && matches!(
            self.peer_action,
            PeerAction::Wrote
        )
    }
}

/// The edges of one direction of one transaction.
#[derive(Debug, PartialEq, Eq)]
pub struct SIEdgeSet {
    pub edges: Vec<SIEdge>,
}

impl View for SIEdgeSet {
    type V = Seq<SIEdgeView>;

    open spec fn view(&self) -> Seq<SIEdgeView> {
        edge_views(self.edges@)
    }
}

impl Clone for SIEdgeSet {
    fn clone(&self) -> (r: Self)
        ensures
            r@ == self@,
    {
        SIEdgeSet { edges: copy_edges(&self.edges) }
    }
}

impl Default for SIEdgeSet {
    fn default() -> (r: Self)
        ensures
            r@ == Seq::<SIEdgeView>::empty(),
    {
        let r = SIEdgeSet { edges: Vec::new() };
        assert(r@ =~= Seq::<SIEdgeView>::empty());
        r
    }
}

impl SIEdgeSet {
    pub fn contains_in_edge_from(&self, peer: &str) -> (r: bool)
        ensures
            r == exists|i: int|
                0 <= i < self@.len() && is_in_edge_from(#[trigger] self@[i], peer@),
    {
        let mut i: usize = 0;
        while i < self.edges.len()
            invariant
                i <= self.edges.len(),
                forall|j: int| 0 <= j < i ==> !is_in_edge_from(#[trigger] self@[j], peer@),
            decreases self.edges.len() - i,
        {
            if self.edges[i].contains_in_edge_from(peer) {
                assert(is_in_edge_from(self@[i as int], peer@));
                return true;
            }
            assert(self@[i as int] == self.edges@[i as int]@);
            i += 1;
        }
        false
    }

    pub fn add(&mut self, e: SIEdge)
        ensures
            final(self)@ == old(self)@.push(e@),
    {
        let ghost before = self@;
        self.edges.push(e);
        assert(self@ =~= before.push(e@));
    }

    pub fn len(&self) -> (n: usize)
        ensures
            n == self@.len(),
    {
        self.edges.len()
    }

    pub fn is_empty(&self) -> (r: bool)
        ensures
            r == (self@.len() == 0),
    {
        self.edges.len() == 0
    }
}

/// Locks of one transaction.
#[derive(Debug, PartialEq, Eq)]
pub struct SiTxnLocks {
    pub reads: Vec<SIReadLock>,
    pub writes: Vec<SIWriteLock>,
    pub in_edges: SIEdgeSet,
    pub out_edges: SIEdgeSet,
    pub snapshot_version: u64,
    pub status: SiTxnPhase,
}

/// Mathematical view of [`SiTxnLocks`].
pub ghost struct SiTxnLocksView {
    pub reads: Seq<SIReadLockView>,
    pub writes: Seq<SIWriteLockView>,
    pub in_edges: Seq<SIEdgeView>,
    pub out_edges: Seq<SIEdgeView>,
    pub snapshot_version: u64,
    pub status: SiTxnPhase,
}

impl View for SiTxnLocks {
    type V = SiTxnLocksView;

    open spec fn view(&self) -> SiTxnLocksView {
        SiTxnLocksView {
            reads: read_lock_views(self.reads@),
            writes: write_lock_views(self.writes@),
            in_edges: self.in_edges@,
            out_edges: self.out_edges@,
            snapshot_version: self.snapshot_version,
            status: self.status,
        }
    }
}

impl Clone for SiTxnLocks {
    fn clone(&self) -> (r: Self)
        ensures
            r@ == self@,
    {
        SiTxnLocks {
            reads: copy_read_locks(&self.reads),
            writes: copy_write_locks(&self.writes),
            in_edges: self.in_edges.clone(),
            out_edges: self.out_edges.clone(),
            snapshot_version: self.snapshot_version,
            status: self.status,
        }
    }
}

/// Locks of a transaction that has done nothing yet.
pub open spec fn fresh_locks(snapshot_version: u64) -> SiTxnLocksView {
    SiTxnLocksView {
        reads: Seq::empty(),
        writes: Seq::empty(),
        in_edges: Seq::empty(),
        out_edges: Seq::empty(),
        snapshot_version,
        status: SiTxnPhase::Active,
    }
}

impl Default for SiTxnLocks {
    fn default() -> (r: Self)
        ensures
            r@ == fresh_locks(0),
    {
        let r = SiTxnLocks {
            reads: Vec::new(),
            writes: Vec::new(),
            in_edges: SIEdgeSet::default(),
            out_edges: SIEdgeSet::default(),
            snapshot_version: 0,
            status: SiTxnPhase::default(),
        };
        assert(r@.reads =~= Seq::empty());
        assert(r@.writes =~= Seq::empty());
        r
    }
}

/// A transaction in the window of recently committed ones.
#[derive(Debug, PartialEq, Eq)]
pub struct RecentlyCommittedTxn {
    pub txn_id: String,
    pub keys: Vec<String>,
    pub commit_version: u64,
    pub committed_at_ms: i64,
}

/// Mathematical view of [`RecentlyCommittedTxn`].
pub ghost struct RecentlyCommittedTxnView {
    pub txn_id: Seq<char>,
    pub keys: Seq<Seq<char>>,
    pub commit_version: u64,
    pub committed_at_ms: i64,
}

impl View for RecentlyCommittedTxn {
    type V = RecentlyCommittedTxnView;

    open spec fn view(&self) -> RecentlyCommittedTxnView {
        RecentlyCommittedTxnView {
            txn_id: self.txn_id@,
            keys: texts(self.keys@),
            commit_version: self.commit_version,
            committed_at_ms: self.committed_at_ms,
        }
    }
}

impl Clone for RecentlyCommittedTxn {
    fn clone(&self) -> (r: Self)
        ensures
            r@ == self@,
    {
        RecentlyCommittedTxn {
            txn_id: self.txn_id.clone(),
            keys: copy_texts(&self.keys),
            commit_version: self.commit_version,
            committed_at_ms: self.committed_at_ms,
        }
    }
}

/// Views of a list of recently committed transactions.
pub open spec fn recent_views(s: Seq<RecentlyCommittedTxn>) -> Seq<RecentlyCommittedTxnView> {
    s.map_values(|e: RecentlyCommittedTxn| e@)
}

/// Number of transactions that hold an in-edge from a peer.
#[derive(Debug, Clone, Copy, PartialEq, Eq, Structural)]
pub struct InEdgeSummary {
    pub count: u32,
}

} // verus!
