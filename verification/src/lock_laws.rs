//! Laws of the lock manager, said of locks and edges: what each step adds and
//! takes away.

use crate::locks::{
    PeerAction, RecentlyCommittedTxnView, SIEdgeView, SIWriteLockView, SiTxnLocksView, SiTxnPhase,
};
use crate::order::{lemma_text_irreflexive, lemma_text_transitive, text_before};
use crate::si_lock_manager::{
    commit_mirrored, has_edge, in_edge, keys_committed, list_at, lists_phase, mirrored,
    missed_edges, out_edge, reader_edges, written_keys, KeyWriterView, LocksView,
};
use vstd::prelude::*;

verus! {

/// A filter keeps exactly the members that meet its condition.
pub proof fn lemma_filtered<A>(s: Seq<A>, keep: spec_fn(A) -> bool, x: A)
    ensures
        s.filter(keep).contains(x) <==> s.contains(x) && keep(x),
{
    if s.contains(x) && keep(x) {
        let i = choose|i: int| 0 <= i < s.len() && s[i] == x;
        s.lemma_filter_contains(keep, i);
    }
    if s.filter(keep).contains(x) {
        let i = choose|i: int| 0 <= i < s.filter(keep).len() && s.filter(keep)[i] == x;
        s.lemma_filter_pred(keep, i);
        s.lemma_filter_contains_rev(keep, x);
    }
}

/// The readers of a key.
pub open spec fn readers_at(l: LocksView, key: Seq<char>) -> Seq<Seq<char>> {
    if l.readers_of.contains_key(key) {
        l.readers_of[key]
    } else {
        Seq::empty()
    }
}

/// The writers of a key.
pub open spec fn writers_at(l: LocksView, key: Seq<char>) -> Seq<KeyWriterView> {
    if l.writers_of.contains_key(key) {
        l.writers_of[key]
    } else {
        Seq::empty()
    }
}

/// `b` is `a`, with something behind it at most.
pub open spec fn extends<A>(a: Seq<A>, b: Seq<A>) -> bool {
    a.len() <= b.len() && b.take(a.len() as int) == a
}

/// A read adds a read lock with the version and tag that were seen, and an
/// in-edge for every recently committed writer of the key whose version it did
/// not see, and no other. The reader stands among the readers of the key. Locks
/// of others stay.
pub proof fn law_read_adds_an_edge_per_missed_writer(
    l: LocksView,
    txn: Seq<char>,
    key: Seq<char>,
    observed: u64,
    etag: Seq<char>,
    e: SIEdgeView,
    other: Seq<char>,
)
    requires
        l.by_txn.contains_key(txn),
        other != txn,
    ensures
        ({
            let n = l.read(txn, key, observed, etag);
            let a = l.by_txn[txn];
            let b = n.by_txn[txn];
            let missed = exists|i: int|
                0 <= i < writers_at(l, key).len() && (#[trigger] writers_at(
                    l,
                    key,
                )[i]).is_recently_committed && writers_at(l, key)[i].committed_version > observed
                    && e.peer == writers_at(l, key)[i].txn_id && e.version == writers_at(
                    l,
                    key,
                )[i].committed_version && e.key == key && e.peer_action == PeerAction::Wrote;
            &&& n.by_txn.contains_key(txn)
            &&& b.reads.len() == a.reads.len() + 1
            &&& extends(a.reads, b.reads)
            &&& b.reads.last().key == key
            &&& b.reads.last().version_observed == observed
            &&& b.reads.last().etag_observed == etag
            &&& extends(a.in_edges, b.in_edges)
            &&& b.in_edges.contains(e) <==> a.in_edges.contains(e) || missed
            &&& b.writes == a.writes
            &&& b.out_edges == a.out_edges
            &&& b.status == a.status
            &&& b.snapshot_version == a.snapshot_version
            &&& readers_at(n, key).len() == readers_at(l, key).len() + 1
            &&& extends(readers_at(l, key), readers_at(n, key))
            &&& readers_at(n, key).last() == txn
            &&& forall|k: Seq<char>| k != key ==> #[trigger] readers_at(n, k) == readers_at(l, k)
            &&& n.writers_of == l.writers_of
            &&& n.recent == l.recent
            &&& n.recent_floor_version == l.recent_floor_version
            &&& n.by_txn.contains_key(other) <==> l.by_txn.contains_key(other)
            &&& l.by_txn.contains_key(other) ==> n.by_txn[other] == l.by_txn[other]
        }),
{
    let n = l.read(txn, key, observed, etag);
    let a = l.by_txn[txn];
    let b = n.by_txn[txn];
    let ws = writers_at(l, key);
    assert(ws == list_at(l.writers_of, key));
    assert(readers_at(l, key) == list_at(l.readers_of, key));
    let new = missed_edges(ws, key, observed);
    assert(b.in_edges == a.in_edges + new);
    assert(b.in_edges.take(a.in_edges.len() as int) =~= a.in_edges);
    assert(b.reads.take(a.reads.len() as int) =~= a.reads);
    assert(readers_at(n, key).take(readers_at(l, key).len() as int) =~= readers_at(l, key));
    let keep = |w: KeyWriterView| crate::si_lock_manager::missed(w, observed);
    if a.in_edges.contains(e) {
        let i = choose|i: int| 0 <= i < a.in_edges.len() && a.in_edges[i] == e;
        assert(b.in_edges[i] == e);
    }
    if exists|i: int|
        0 <= i < ws.len() && (#[trigger] ws[i]).is_recently_committed && ws[i].committed_version
            > observed && e.peer == ws[i].txn_id && e.version == ws[i].committed_version && e.key
            == key && e.peer_action == PeerAction::Wrote {
        let i = choose|i: int|
            0 <= i < ws.len() && (#[trigger] ws[i]).is_recently_committed
                && ws[i].committed_version > observed && e.peer == ws[i].txn_id && e.version
                == ws[i].committed_version && e.key == key && e.peer_action == PeerAction::Wrote;
        ws.lemma_filter_contains(keep, i);
        let f = ws.filter(keep);
        let j = choose|j: int| 0 <= j < f.len() && f[j] == ws[i];
        assert(new[j] == e);
        assert(b.in_edges[a.in_edges.len() + j] == e);
    }
    if b.in_edges.contains(e) && !a.in_edges.contains(e) {
        let i = choose|i: int| 0 <= i < b.in_edges.len() && b.in_edges[i] == e;
        if i < a.in_edges.len() {
            assert(a.in_edges[i] == e);
        } else {
            let j = i - a.in_edges.len();
            let f = ws.filter(keep);
            assert(new[j] == e);
            assert(f.contains(f[j]));
            lemma_filtered(ws, keep, f[j]);
            let k = choose|k: int| 0 <= k < ws.len() && ws[k] == f[j];
            assert(ws[k].is_recently_committed);
        }
    }
}

/// What mirroring a write leaves of one reader.
proof fn lemma_mirrored_exact(
    m: Map<Seq<char>, SiTxnLocksView>,
    readers: Seq<Seq<char>>,
    n: nat,
    txn: Seq<char>,
    key: Seq<char>,
    version: u64,
    r: Seq<char>,
    e: SIEdgeView,
)
    requires
        n <= readers.len(),
    ensures
        ({
            let p = mirrored(m, readers, n, txn, key, version);
            let reads = exists|i: int| 0 <= i < n && #[trigger] readers[i] == r;
            let new = SIEdgeView { peer: txn, key, peer_action: PeerAction::Wrote, version };
            &&& p.contains_key(r) <==> m.contains_key(r)
            &&& m.contains_key(r) ==> {
                &&& extends(m[r].in_edges, p[r].in_edges)
                &&& p[r].in_edges.contains(e) <==> m[r].in_edges.contains(e) || (r != txn && reads
                    && e == new)
                &&& p[r].out_edges == m[r].out_edges
                &&& p[r].reads == m[r].reads
                &&& p[r].writes == m[r].writes
                &&& p[r].status == m[r].status
                &&& p[r].snapshot_version == m[r].snapshot_version
                &&& r == txn ==> p[r] == m[r]
            }
        }),
    decreases n,
{
    if m.contains_key(r) {
        assert(m[r].in_edges.take(m[r].in_edges.len() as int) =~= m[r].in_edges);
    }
    if n > 0 {
        lemma_mirrored_exact(m, readers, (n - 1) as nat, txn, key, version, r, e);
        let p = mirrored(m, readers, (n - 1) as nat, txn, key, version);
        let q = mirrored(m, readers, n, txn, key, version);
        let new = in_edge(txn, key, version);
        if exists|i: int| 0 <= i < n - 1 && #[trigger] readers[i] == r {
            let i = choose|i: int| 0 <= i < n - 1 && #[trigger] readers[i] == r;
            assert(readers[i] == r);
        }
        if readers[n - 1] == r && r != txn && m.contains_key(r) {
            assert(readers[n - 1] == r);
            let a = p[r].in_edges;
            let b = q[r].in_edges;
            assert(b == a.push(new));
            lemma_push_has(a, new, e);
            assert(b.take(m[r].in_edges.len() as int) =~= a.take(m[r].in_edges.len() as int));
        }
    }
}

proof fn lemma_push_has<A>(s: Seq<A>, x: A, t: A)
    ensures
        s.push(x).contains(t) <==> s.contains(t) || t == x,
{
    if s.contains(t) {
        let i = choose|i: int| 0 <= i < s.len() && s[i] == t;
        assert(s.push(x)[i] == t);
    }
    if t == x {
        assert(s.push(x)[s.len() as int] == t);
    }
}

/// A staged write adds a write lock and an out-edge for every other reader of
/// the key; every one of these gains the matching in-edge. Nobody else gains an
/// edge. The writer stands among the writers of the key, not committed yet.
pub proof fn law_write_ties_itself_to_every_reader(
    l: LocksView,
    txn: Seq<char>,
    key: Seq<char>,
    version: u64,
    other: Seq<char>,
    e: SIEdgeView,
)
    requires
        l.by_txn.contains_key(txn),
        other != txn,
    ensures
        ({
            let n = l.written(txn, key, version);
            let a = l.by_txn[txn];
            let b = n.by_txn[txn];
            &&& n.by_txn.contains_key(txn)
            &&& b.writes.len() == a.writes.len() + 1
            &&& extends(a.writes, b.writes)
            &&& b.writes.last().key == key
            &&& b.writes.last().version_to_write == version
            &&& extends(a.out_edges, b.out_edges)
            &&& b.out_edges.contains(e) <==> a.out_edges.contains(e) || (readers_at(
                l,
                key,
            ).contains(e.peer) && e.peer != txn && e.key == key && e.peer_action
                == PeerAction::Read && e.version == version)
            &&& b.in_edges == a.in_edges
            &&& b.reads == a.reads
            &&& b.status == a.status
            &&& n.by_txn.contains_key(other) <==> l.by_txn.contains_key(other)
            &&& l.by_txn.contains_key(other) ==> {
                let c = l.by_txn[other];
                let d = n.by_txn[other];
                &&& extends(c.in_edges, d.in_edges)
                &&& d.in_edges.contains(e) <==> c.in_edges.contains(e) || (readers_at(
                    l,
                    key,
                ).contains(other) && e.peer == txn && e.key == key && e.peer_action
                    == PeerAction::Wrote && e.version == version)
                &&& d.out_edges == c.out_edges
                &&& d.reads == c.reads
                &&& d.writes == c.writes
                &&& d.status == c.status
                &&& d.snapshot_version == c.snapshot_version
            }
            &&& writers_at(n, key).len() == writers_at(l, key).len() + 1
            &&& extends(writers_at(l, key), writers_at(n, key))
            &&& writers_at(n, key).last().txn_id == txn
            &&& !writers_at(n, key).last().is_recently_committed
            &&& forall|k: Seq<char>| k != key ==> #[trigger] writers_at(n, k) == writers_at(l, k)
            &&& n.readers_of == l.readers_of
            &&& n.recent == l.recent
            &&& n.recent_floor_version == l.recent_floor_version
        }),
{
    let n = l.written(txn, key, version);
    let a = l.by_txn[txn];
    let readers = list_at(l.readers_of, key);
    assert(readers == readers_at(l, key));
    assert(list_at(l.writers_of, key) == writers_at(l, key));
    let new = reader_edges(readers, txn, key, version);
    let own = l.by_txn.insert(
        txn,
        SiTxnLocksView {
            writes: a.writes.push(SIWriteLockView { key, version_to_write: version }),
            out_edges: a.out_edges + new,
            ..a
        },
    );
    lemma_mirrored_exact(own, readers, readers.len(), txn, key, version, txn, e);
    lemma_mirrored_exact(own, readers, readers.len(), txn, key, version, other, e);
    let b = n.by_txn[txn];
    assert(b == own[txn]);
    assert(b.writes.take(a.writes.len() as int) =~= a.writes);
    assert(b.out_edges.take(a.out_edges.len() as int) =~= a.out_edges);
    assert(writers_at(n, key).take(writers_at(l, key).len() as int) =~= writers_at(l, key));
    if readers.contains(other) {
        let i = choose|i: int| 0 <= i < readers.len() && readers[i] == other;
        assert(readers[i] == other);
    }
    lemma_reader_edges(readers, txn, key, version, e);
    if a.out_edges.contains(e) {
        let i = choose|i: int| 0 <= i < a.out_edges.len() && a.out_edges[i] == e;
        assert(b.out_edges[i] == e);
    }
    if new.contains(e) {
        let i = choose|i: int| 0 <= i < new.len() && new[i] == e;
        assert(b.out_edges[a.out_edges.len() + i] == e);
    }
    if b.out_edges.contains(e) && !a.out_edges.contains(e) {
        let i = choose|i: int| 0 <= i < b.out_edges.len() && b.out_edges[i] == e;
        if i < a.out_edges.len() {
            assert(a.out_edges[i] == e);
        } else {
            assert(new[i - a.out_edges.len()] == e);
        }
    }
}

proof fn lemma_reader_edges(
    readers: Seq<Seq<char>>,
    txn: Seq<char>,
    key: Seq<char>,
    version: u64,
    e: SIEdgeView,
)
    ensures
        reader_edges(readers, txn, key, version).contains(e) <==> readers.contains(e.peer) && e.peer
            != txn && e.key == key && e.peer_action == PeerAction::Read && e.version == version,
{
    let keep = crate::si_lock_manager::other_than(txn);
    let f = readers.filter(keep);
    let new = reader_edges(readers, txn, key, version);
    lemma_filtered(readers, keep, e.peer);
    if readers.contains(e.peer) && e.peer != txn && e.key == key && e.peer_action
        == PeerAction::Read && e.version == version {
        let j = choose|j: int| 0 <= j < f.len() && f[j] == e.peer;
        assert(new[j] == out_edge(e.peer, key, version));
        assert(new[j] == e);
    }
    if new.contains(e) {
        let j = choose|j: int| 0 <= j < new.len() && new[j] == e;
        assert(new[j] == out_edge(f[j], key, version));
        assert(f.contains(f[j]));
    }
}

/// What a commit leaves of the in-edges of a peer.
proof fn lemma_commit_mirrored_exact(
    m: Map<Seq<char>, SiTxnLocksView>,
    edges: Seq<SIEdgeView>,
    n: nat,
    txn: Seq<char>,
    version: u64,
    r: Seq<char>,
)
    requires
        n <= edges.len(),
    ensures
        ({
            let p = commit_mirrored(m, edges, n, txn, version);
            &&& p.contains_key(r) <==> m.contains_key(r)
            &&& m.contains_key(r) ==> {
                &&& extends(m[r].in_edges, p[r].in_edges)
                &&& p[r].out_edges == m[r].out_edges
                &&& p[r].reads == m[r].reads
                &&& p[r].writes == m[r].writes
                &&& p[r].status == m[r].status
                &&& p[r].snapshot_version == m[r].snapshot_version
                &&& forall|i: int|
                    0 <= i < n && (#[trigger] edges[i]).peer == r && edges[i].peer_action
                        == PeerAction::Read ==> tied(p[r].in_edges, txn, edges[i].key)
                &&& forall|j: int|
                    m[r].in_edges.len() <= j < p[r].in_edges.len() ==> (
                    #[trigger] p[r].in_edges[j]).peer == txn && p[r].in_edges[j].peer_action
                        == PeerAction::Wrote && p[r].in_edges[j].version == version && exists|
                        i: int,
                    |
                        0 <= i < n && (#[trigger] edges[i]).peer == r && edges[i].peer_action
                            == PeerAction::Read && edges[i].key == p[r].in_edges[j].key
            }
        }),
    decreases n,
{
    if m.contains_key(r) {
        assert(m[r].in_edges.take(m[r].in_edges.len() as int) =~= m[r].in_edges);
    }
    if n > 0 {
        lemma_commit_mirrored_exact(m, edges, (n - 1) as nat, txn, version, r);
        let p = commit_mirrored(m, edges, (n - 1) as nat, txn, version);
        let q = commit_mirrored(m, edges, n, txn, version);
        let e = edges[n - 1];
        if m.contains_key(r) {
            let a = p[r].in_edges;
            let b = q[r].in_edges;
            assert forall|j: int|
                m[r].in_edges.len() <= j < b.len() && j < a.len() implies exists|i: int|
                0 <= i < n && (#[trigger] edges[i]).peer == r && edges[i].peer_action
                    == PeerAction::Read && edges[i].key == (#[trigger] b[j]).key by {
                assert(b[j] == a[j]);
                let i = choose|i: int|
                    0 <= i < n - 1 && (#[trigger] edges[i]).peer == r && edges[i].peer_action
                        == PeerAction::Read && edges[i].key == a[j].key;
                assert(edges[i].peer == r);
            }
            if e.peer == r && e.peer_action == PeerAction::Read && !has_edge(a, txn, e.key) {
                let new = in_edge(txn, e.key, version);
                assert(b == a.push(new));
                assert(b.take(m[r].in_edges.len() as int) =~= a.take(m[r].in_edges.len() as int));
                assert(b[a.len() as int] == new);
                assert(tied(b, txn, e.key));
                assert(edges[n - 1].peer == r);
                assert forall|i: int|
                    0 <= i < n && (#[trigger] edges[i]).peer == r && edges[i].peer_action
                        == PeerAction::Read implies tied(b, txn, edges[i].key) by {
                    if i < n - 1 {
                        lemma_tied_kept(a, b, txn, edges[i].key);
                    }
                }
                assert forall|j: int| m[r].in_edges.len() <= j < b.len() implies (
                #[trigger] b[j]).peer == txn && b[j].peer_action == PeerAction::Wrote && b[j].version
                    == version && exists|i: int|
                    0 <= i < n && (#[trigger] edges[i]).peer == r && edges[i].peer_action
                        == PeerAction::Read && edges[i].key == b[j].key by {
                    if j < a.len() {
                        assert(b[j] == a[j]);
                    }
                }
            } else {
                assert(b == a);
                if e.peer == r && e.peer_action == PeerAction::Read {
                    let k = choose|k: int|
                        0 <= k < a.len() && (#[trigger] a[k]).peer == txn && a[k].key == e.key;
                    assert(tied(b, txn, e.key));
                }
                assert forall|j: int| m[r].in_edges.len() <= j < b.len() implies (
                #[trigger] b[j]).peer == txn && b[j].peer_action == PeerAction::Wrote && b[j].version
                    == version && exists|i: int|
                    0 <= i < n && (#[trigger] edges[i]).peer == r && edges[i].peer_action
                        == PeerAction::Read && edges[i].key == b[j].key by {
                    assert(b[j] == a[j]);
                }
            }
        }
    }
}

/// Some edge comes from the peer for the key.
pub open spec fn tied(edges: Seq<SIEdgeView>, peer: Seq<char>, key: Seq<char>) -> bool {
    exists|i: int|
        0 <= i < edges.len() && (#[trigger] edges[i]).peer == peer && edges[i].key == key
}

proof fn lemma_tied_kept(
    a: Seq<SIEdgeView>,
    b: Seq<SIEdgeView>,
    peer: Seq<char>,
    key: Seq<char>,
)
    requires
        tied(a, peer, key),
        a.len() <= b.len(),
        forall|i: int| 0 <= i < a.len() ==> a[i] == b[i],
    ensures
        tied(b, peer, key),
{
    let i = choose|i: int| 0 <= i < a.len() && (#[trigger] a[i]).peer == peer && a[i].key == key;
    assert(b[i].peer == peer);
}

/// What a commit leaves of the writers of one key.
proof fn lemma_keys_committed_exact(
    m: Map<Seq<char>, Seq<KeyWriterView>>,
    keys: Seq<Seq<char>>,
    n: nat,
    txn: Seq<char>,
    version: u64,
    k: Seq<char>,
)
    requires
        n <= keys.len(),
    ensures
        ({
            let p = keys_committed(m, keys, n, txn, version);
            let hit = exists|i: int| 0 <= i < n && #[trigger] keys[i] == k;
            &&& p.contains_key(k) <==> m.contains_key(k)
            &&& m.contains_key(k) ==> p[k].len() == m[k].len() && forall|i: int|
                0 <= i < m[k].len() ==> (#[trigger] p[k][i]).txn_id == m[k][i].txn_id && if hit
                    && m[k][i].txn_id == txn {
                    p[k][i].is_recently_committed && p[k][i].committed_version == version
                } else {
                    p[k][i] == m[k][i]
                }
        }),
    decreases n,
{
    if n > 0 {
        lemma_keys_committed_exact(m, keys, (n - 1) as nat, txn, version, k);
        if exists|i: int| 0 <= i < n - 1 && #[trigger] keys[i] == k {
            let i = choose|i: int| 0 <= i < n - 1 && #[trigger] keys[i] == k;
            assert(keys[i] == k);
        }
        if keys[n - 1] == k {
            assert(keys[n - 1] == k);
        }
    }
}

/// A commit marks the transaction committed and, on every key that it wrote,
/// its place among the writers as recently committed at the version. Every peer
/// that read what it wrote holds an in-edge from it for that key. The commit is
/// remembered with its keys, version and time, and the window reaches up to it.
pub proof fn law_commit_tells_readers_and_later_ones(
    l: LocksView,
    txn: Seq<char>,
    version: u64,
    now: i64,
    key: Seq<char>,
    peer: Seq<char>,
    i: int,
)
    requires
        l.by_txn.contains_key(txn),
        peer != txn,
        0 <= i < writers_at(l, key).len(),
    ensures
        ({
            let n = l.committed(txn, version, now);
            let a = l.by_txn[txn];
            let wrote = exists|j: int| 0 <= j < a.writes.len() && (#[trigger] a.writes[j]).key == key;
            let w = writers_at(l, key)[i];
            let x = writers_at(n, key)[i];
            &&& n.by_txn.contains_key(txn)
            &&& n.by_txn[txn].status == SiTxnPhase::Committed
            &&& n.by_txn[txn].writes == a.writes
            &&& n.by_txn[txn].reads == a.reads
            &&& n.by_txn[txn].out_edges == a.out_edges
            &&& writers_at(n, key).len() == writers_at(l, key).len()
            &&& x.txn_id == w.txn_id
            &&& wrote && w.txn_id == txn ==> x.is_recently_committed && x.committed_version
                == version
            &&& !(wrote && w.txn_id == txn) ==> x == w
            &&& n.by_txn.contains_key(peer) <==> l.by_txn.contains_key(peer)
            &&& l.by_txn.contains_key(peer) ==> {
                &&& extends(l.by_txn[peer].in_edges, n.by_txn[peer].in_edges)
                &&& n.by_txn[peer].out_edges == l.by_txn[peer].out_edges
                &&& n.by_txn[peer].status == l.by_txn[peer].status
                &&& forall|j: int|
                    0 <= j < a.out_edges.len() && (#[trigger] a.out_edges[j]).peer == peer
                        && a.out_edges[j].peer_action == PeerAction::Read ==> tied(
                        n.by_txn[peer].in_edges,
                        txn,
                        a.out_edges[j].key,
                    )
                &&& (forall|j: int|
                    0 <= j < a.out_edges.len() ==> (#[trigger] a.out_edges[j]).peer != peer)
                    ==> n.by_txn[peer] == l.by_txn[peer]
            }
            &&& n.readers_of == l.readers_of
            &&& n.recent.len() == l.recent.len() + 1
            &&& extends(l.recent, n.recent)
            &&& n.recent.last().txn_id == txn
            &&& n.recent.last().commit_version == version
            &&& n.recent.last().committed_at_ms == now
            &&& n.recent.last().keys.len() == a.writes.len()
            &&& forall|j: int|
                0 <= j < a.writes.len() ==> #[trigger] n.recent.last().keys[j] == a.writes[j].key
            &&& n.recent_floor_version >= version
            &&& n.recent_floor_version >= l.recent_floor_version
            &&& n.recent_floor_version == version || n.recent_floor_version
                == l.recent_floor_version
        }),
{
    let n = l.committed(txn, version, now);
    let a = l.by_txn[txn];
    let keys = written_keys(a.writes);
    let edges = a.out_edges;
    let marked = l.by_txn.insert(txn, SiTxnLocksView { status: SiTxnPhase::Committed, ..a });
    lemma_commit_mirrored_exact(marked, edges, edges.len(), txn, version, txn);
    lemma_commit_mirrored_exact(marked, edges, edges.len(), txn, version, peer);
    lemma_keys_committed_exact(l.writers_of, keys, keys.len(), txn, version, key);
    assert(n.recent.take(l.recent.len() as int) =~= l.recent);
    assert((exists|j: int| 0 <= j < a.writes.len() && (#[trigger] a.writes[j]).key == key) <==> (
    exists|j: int| 0 <= j < keys.len() && #[trigger] keys[j] == key)) by {
        if exists|j: int| 0 <= j < a.writes.len() && (#[trigger] a.writes[j]).key == key {
            let j = choose|j: int| 0 <= j < a.writes.len() && (#[trigger] a.writes[j]).key == key;
            assert(keys[j] == key);
        }
        if exists|j: int| 0 <= j < keys.len() && #[trigger] keys[j] == key {
            let j = choose|j: int| 0 <= j < keys.len() && #[trigger] keys[j] == key;
            assert(a.writes[j].key == key);
        }
    }
    if l.by_txn.contains_key(peer) && (forall|j: int|
        0 <= j < a.out_edges.len() ==> (#[trigger] a.out_edges[j]).peer != peer) {
        let p = n.by_txn[peer].in_edges;
        let o = l.by_txn[peer].in_edges;
        if p.len() > o.len() {
            assert(p[o.len() as int].peer == txn);
        }
        assert(p =~= o);
    }
}

/// An abort takes away the locks of the transaction, every edge to it, and its
/// places among the readers and writers of keys. All other locks, edges and
/// places stay.
pub proof fn law_abort_takes_away_only_its_own(
    l: LocksView,
    txn: Seq<char>,
    other: Seq<char>,
    e: SIEdgeView,
    key: Seq<char>,
    w: KeyWriterView,
)
    requires
        other != txn,
    ensures
        ({
            let n = l.aborted(txn);
            &&& !n.by_txn.contains_key(txn)
            &&& n.by_txn.contains_key(other) <==> l.by_txn.contains_key(other)
            &&& l.by_txn.contains_key(other) ==> {
                let a = l.by_txn[other];
                let b = n.by_txn[other];
                &&& b.in_edges.contains(e) <==> a.in_edges.contains(e) && e.peer != txn
                &&& b.out_edges.contains(e) <==> a.out_edges.contains(e) && e.peer != txn
                &&& b.reads == a.reads
                &&& b.writes == a.writes
                &&& b.status == a.status
                &&& b.snapshot_version == a.snapshot_version
            }
            &&& readers_at(n, key).contains(other) <==> readers_at(l, key).contains(other)
            &&& !readers_at(n, key).contains(txn)
            &&& writers_at(n, key).contains(w) <==> writers_at(l, key).contains(w) && w.txn_id
                != txn
            &&& n.recent == l.recent
            &&& n.recent_floor_version == l.recent_floor_version
        }),
{
    let n = l.aborted(txn);
    let to = |e: SIEdgeView| e.peer != txn;
    if l.by_txn.contains_key(other) {
        assert(n.by_txn[other].in_edges == l.by_txn[other].in_edges.filter(to));
        lemma_filtered(l.by_txn[other].in_edges, to, e);
        lemma_filtered(l.by_txn[other].out_edges, to, e);
    }
    let who = crate::si_lock_manager::other_than(txn);
    if l.readers_of.contains_key(key) {
        assert(n.readers_of.contains_key(key));
        crate::si_lock_manager::lemma_aborted_readers(l, txn, key);
        lemma_filtered(l.readers_of[key], who, other);
        lemma_filtered(l.readers_of[key], who, txn);
    }
    let wrote = |w: KeyWriterView| w.txn_id != txn;
    if l.writers_of.contains_key(key) {
        assert(n.writers_of[key] == l.writers_of[key].filter(wrote));
        lemma_filtered(l.writers_of[key], wrote, w);
    }
}

/// Moving the window forgets the commits below its floor and the locks of
/// aborted transactions, and nothing else.
pub proof fn law_eviction_forgets_only_what_is_below(
    l: LocksView,
    floor: u64,
    txn: Seq<char>,
    r: RecentlyCommittedTxnView,
)
    ensures
        ({
            let n = l.evicted(floor);
            &&& n.recent.contains(r) <==> l.recent.contains(r) && r.commit_version >= floor
            &&& n.by_txn.contains_key(txn) <==> l.by_txn.contains_key(txn) && l.by_txn[txn].status
                != SiTxnPhase::Aborted
            &&& n.by_txn.contains_key(txn) ==> n.by_txn[txn] == l.by_txn[txn]
            &&& n.recent_floor_version == floor
            &&& n.readers_of == l.readers_of
            &&& n.writers_of == l.writers_of
        }),
{
    lemma_filtered(l.recent, |x: RecentlyCommittedTxnView| x.commit_version >= floor, r);
}

/// The commit of a transaction without locks is noted without keys, and changes
/// nothing for the others.
pub proof fn law_commit_without_locks_is_only_noted(
    l: LocksView,
    txn: Seq<char>,
    version: u64,
    now: i64,
)
    requires
        !l.by_txn.contains_key(txn),
    ensures
        ({
            let n = l.committed(txn, version, now);
            &&& n.by_txn == l.by_txn
            &&& n.readers_of == l.readers_of
            &&& n.writers_of == l.writers_of
            &&& n.recent.len() == l.recent.len() + 1
            &&& extends(l.recent, n.recent)
            &&& n.recent.last().txn_id == txn
            &&& n.recent.last().commit_version == version
            &&& n.recent.last().committed_at_ms == now
            &&& n.recent.last().keys.len() == 0
        }),
{
    let n = l.committed(txn, version, now);
    assert(n.recent.take(l.recent.len() as int) =~= l.recent);
}

/// A listing of a phase names each transaction in that phase once and no other,
/// in the order of the ids.
pub proof fn law_phase_listing_names_each_once(
    ids: Seq<Seq<char>>,
    m: Map<Seq<char>, SiTxnLocksView>,
    phase: SiTxnPhase,
    txn: Seq<char>,
)
    requires
        lists_phase(ids, m, phase),
    ensures
        ids.no_duplicates(),
        ids.contains(txn) <==> m.contains_key(txn) && m[txn].status == phase,
        forall|i: int, j: int|
            0 <= i < ids.len() && 0 <= j < ids.len() ==> (i < j <==> text_before(
                #[trigger] ids[i],
                #[trigger] ids[j],
            )),
{
    assert forall|i: int, j: int| 0 <= i < ids.len() && 0 <= j < ids.len() implies (i < j
        <==> text_before(#[trigger] ids[i], #[trigger] ids[j])) by {
        if j <= i && text_before(ids[i], ids[j]) {
            if j < i {
                lemma_text_transitive(ids[i], ids[j], ids[i]);
            }
            lemma_text_irreflexive(ids[i]);
        }
    }
    assert forall|i: int, j: int|
        0 <= i < ids.len() && 0 <= j < ids.len() && i != j implies ids[i] != ids[j] by {
        lemma_text_irreflexive(ids[i]);
        assert(i < j ==> text_before(ids[i], ids[j]));
        assert(j < i ==> text_before(ids[j], ids[i]));
    }
}

} // verus!
