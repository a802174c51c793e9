//! Cycle detection over rw-antidependency edges.
//!
//! A dangerous structure exists between a transaction T and a peer P when T
//! has an in-edge from P and an out-edge to P. Serialising the two would need
//! a circular order, so one has to abort. Detection is symmetric: each side
//! finds the other, and whoever finds a peer aborts.

use crate::locks::{SIEdge, SIEdgeSet, SIEdgeView};
use crate::order::same_text;
use vstd::prelude::*;

verus! {

/// Some in-edge comes from `peer`.
pub open spec fn has_peer(edges: Seq<SIEdgeView>, peer: Seq<char>) -> bool {
    exists|i: int| 0 <= i < edges.len() && (#[trigger] edges[i]).peer == peer
}

/// `peer` is another transaction with both an in-edge and an out-edge.
pub open spec fn dangerous(
    self_txn: Seq<char>,
    in_edges: Seq<SIEdgeView>,
    out_edges: Seq<SIEdgeView>,
    peer: Seq<char>,
) -> bool {
    peer != self_txn && has_peer(in_edges, peer) && has_peer(out_edges, peer)
}

/// The peer of the first out-edge from position `i` on that also has an
/// in-edge.
pub open spec fn first_dangerous(
    self_txn: Seq<char>,
    in_edges: Seq<SIEdgeView>,
    out_edges: Seq<SIEdgeView>,
    i: int,
) -> Option<Seq<char>>
    decreases out_edges.len() - i,
{
    if 0 <= i < out_edges.len() {
        if out_edges[i].peer != self_txn && has_peer(in_edges, out_edges[i].peer) {
            Some(out_edges[i].peer)
        } else {
            first_dangerous(self_txn, in_edges, out_edges, i + 1)
        }
    } else {
        None
    }
}

/// The peer that a transaction collides with, if there is one.
pub open spec fn dangerous_peer(
    self_txn: Seq<char>,
    in_edges: Seq<SIEdgeView>,
    out_edges: Seq<SIEdgeView>,
) -> Option<Seq<char>> {
    first_dangerous(self_txn, in_edges, out_edges, 0)
}

proof fn lemma_first_dangerous(
    self_txn: Seq<char>,
    in_edges: Seq<SIEdgeView>,
    out_edges: Seq<SIEdgeView>,
    i: int,
)
    requires
        0 <= i <= out_edges.len(),
    ensures
        match first_dangerous(self_txn, in_edges, out_edges, i) {
            Some(p) => dangerous(self_txn, in_edges, out_edges, p),
            None => forall|j: int|
                i <= j < out_edges.len() ==> (#[trigger] out_edges[j]).peer == self_txn
                    || !has_peer(in_edges, out_edges[j].peer),
        },
    decreases out_edges.len() - i,
{
    if i < out_edges.len() {
        if out_edges[i].peer != self_txn && has_peer(in_edges, out_edges[i].peer) {
            assert(has_peer(out_edges, out_edges[i].peer));
        } else {
            lemma_first_dangerous(self_txn, in_edges, out_edges, i + 1);
        }
    }
}

/// A peer is reported just when some peer collides, and the one reported does.
pub proof fn law_detection_is_exact(
    self_txn: Seq<char>,
    in_edges: Seq<SIEdgeView>,
    out_edges: Seq<SIEdgeView>,
)
    ensures
        match dangerous_peer(self_txn, in_edges, out_edges) {
            Some(p) => dangerous(self_txn, in_edges, out_edges, p),
            None => forall|p: Seq<char>| !#[trigger] dangerous(self_txn, in_edges, out_edges, p),
        },
{
    lemma_first_dangerous(self_txn, in_edges, out_edges, 0);
    if dangerous_peer(self_txn, in_edges, out_edges) is None {
        assert forall|p: Seq<char>| !#[trigger] dangerous(
            self_txn,
            in_edges,
            out_edges,
            p,
        ) by {
            if dangerous(self_txn, in_edges, out_edges, p) {
                let j = choose|j: int| 0 <= j < out_edges.len() && (#[trigger] out_edges[j]).peer
                    == p;
                assert(out_edges[j].peer == p);
            }
        }
    }
}

/// Whether some edge has this peer.
fn edges_have_peer(edges: &Vec<SIEdge>, peer: &str) -> (r: bool)
    ensures
        r == has_peer(crate::locks::edge_views(edges@), peer@),
{
    let ghost ev = crate::locks::edge_views(edges@);
    let mut i: usize = 0;
    while i < edges.len()
        invariant
            i <= edges.len(),
            ev == crate::locks::edge_views(edges@),
            forall|j: int| 0 <= j < i ==> (#[trigger] ev[j]).peer != peer@,
        decreases edges.len() - i,
    {
        if same_text(edges[i].peer.as_str(), peer) {
            assert(ev[i as int].peer == peer@);
            return true;
        }
        i += 1;
    }
    false
}

/// The peer that `self_txn` forms a dangerous structure with: the first
/// out-edge whose peer also has an in-edge.
pub fn detect_dangerous_structure(
    self_txn: &str,
    in_edges: &SIEdgeSet,
    out_edges: &SIEdgeSet,
) -> (r: Option<String>)
    ensures
        match r {
            Some(p) => dangerous_peer(self_txn@, in_edges@, out_edges@) == Some(p@),
            None => dangerous_peer(self_txn@, in_edges@, out_edges@) is None,
        },
{
    let mut i: usize = 0;
    while i < out_edges.edges.len()
        invariant
            i <= out_edges.edges.len(),
            dangerous_peer(self_txn@, in_edges@, out_edges@) == first_dangerous(
                self_txn@,
                in_edges@,
                out_edges@,
                i as int,
            ),
        decreases out_edges.edges.len() - i,
    {
        let e = &out_edges.edges[i];
        assert(out_edges@[i as int] == e@);
        if !same_text(e.peer.as_str(), self_txn) && edges_have_peer(
            &in_edges.edges,
            e.peer.as_str(),
        ) {
            return Some(e.peer.clone());
        }
        i += 1;
    }
    None
}

/// An edge set made of `edges`.
pub fn edge_set(edges: Vec<SIEdge>) -> (r: SIEdgeSet)
    ensures
        r@ == crate::locks::edge_views(edges@),
{
    SIEdgeSet { edges }
}

} // verus!
