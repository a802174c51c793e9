//! Laws of collection, said of versions and pinned snapshots: what a run drops
//! from chains and history, and what it counts.

use crate::outcome_laws::entries_at;
use crate::store::{is_min_snapshot, lemma_min_snapshot, min_snapshot, RecordVersionId, StoreView};
use crate::store_chains::{after_gc, chain_bound, chain_rows, gc_counts, pruned_total};
use crate::store_laws::law_min_snapshot_is_least;
use crate::table::{lemma_finite_listing, lemma_listed};
use crate::version_chain::{
    law_prune_drops_what_is_below, lemma_newest_visible, lemma_prune_count, newest_visible,
    prune_count, VersionChainView,
};
use vstd::prelude::*;

verus! {

/// Every pinned snapshot is at or above the version.
pub open spec fn seen_by_all(s: StoreView, version: u64) -> bool {
    forall|p: u64| #[trigger] s.snapshots.contains_key(p) ==> version <= p
}

proof fn lemma_seen_by_all(s: StoreView, version: u64)
    ensures
        seen_by_all(s, version) <==> version <= min_snapshot(s.snapshots),
{
    if exists|p: u64| #[trigger] s.snapshots.contains_key(p) {
        let p = choose|p: u64| #[trigger] s.snapshots.contains_key(p);
        law_min_snapshot_is_least(s.snapshots, p);
        let m = min_snapshot(s.snapshots);
        assert(s.snapshots.contains_key(m));
        if seen_by_all(s, version) {
            assert(version <= m);
        } else {
            let q = choose|q: u64| #[trigger] s.snapshots.contains_key(q) && version > q;
            assert(m <= q);
        }
    } else {
        assert(is_min_snapshot(s.snapshots, u64::MAX));
        lemma_min_snapshot(s.snapshots, u64::MAX);
    }
}

/// A run drops an entry from a chain exactly if every reader sees a newer one,
/// and, where a threshold is requested, it is below that. The entries that stay
/// keep their order at the end of the chain.
pub proof fn law_collection_drops_what_no_reader_needs(
    s: StoreView,
    requested: Option<u64>,
    key: Seq<char>,
    i: int,
)
    requires
        0 <= i < entries_at(s.chains, key).len(),
        forall|p: int, q: int|
            0 <= p < q < entries_at(s.chains, key).len() ==> (#[trigger] entries_at(
                s.chains,
                key,
            )[p]).commit_version < (#[trigger] entries_at(s.chains, key)[q]).commit_version,
    ensures
        ({
            let n = after_gc(s, requested);
            let a = entries_at(s.chains, key);
            let b = entries_at(n.chains, key);
            let unseen = exists|j: int|
                i < j < a.len() && seen_by_all(s, (#[trigger] a[j]).commit_version);
            let below = requested is Some ==> a[i].commit_version < requested->0;
            &&& n.chains.contains_key(key)
            &&& n.chains[key].key == s.chains[key].key
            &&& 0 < b.len() <= a.len()
            &&& b == a.skip(a.len() - b.len())
            &&& i < a.len() - b.len() <==> unseen && below
        }),
{
    let a = entries_at(s.chains, key);
    let n = after_gc(s, requested);
    let active = min_snapshot(s.snapshots);
    let bound = chain_bound(a, active, requested);
    let k = prune_count(a, bound);
    lemma_prune_count(a, bound);
    law_prune_drops_what_is_below(a, bound);
    lemma_newest_visible(a, active, a.len());
    assert(entries_at(n.chains, key) == a.skip(k));
    assert forall|j: int| 0 <= j < a.len() implies (seen_by_all(s, (#[trigger] a[j]).commit_version)
        <==> a[j].commit_version <= active) by {
        lemma_seen_by_all(s, a[j].commit_version);
    }
    match newest_visible(a, active, a.len()) {
        Some(v) => {
            if i < v {
                assert(a[i].commit_version < a[v].commit_version);
                assert(seen_by_all(s, a[v].commit_version));
            } else {
                if v < i {
                    assert(a[v].commit_version < a[i].commit_version);
                }
                assert forall|j: int| i < j < a.len() implies !seen_by_all(
                    s,
                    (#[trigger] a[j]).commit_version,
                ) by {
                    assert(a[j].commit_version > active);
                }
            }
        },
        None => {
            assert(a[i].commit_version > active);
        },
    }
}

/// A run drops a version of a record from the history exactly if there is a
/// newer one that every reader sees, at or below the requested threshold where
/// there is one. What stays is unchanged.
pub proof fn law_collection_drops_superseded_history(
    s: StoreView,
    requested: Option<u64>,
    id: RecordVersionId,
)
    ensures
        ({
            let n = after_gc(s, requested);
            let newer = exists|v: u64| #[trigger]
                s.record_versions.contains_key((id.0, id.1, id.2, v)) && id.3 < v && seen_by_all(
                    s,
                    v,
                ) && (requested is Some ==> v <= requested->0);
            &&& n.record_versions.contains_key(id) <==> s.record_versions.contains_key(id)
                && !newer
            &&& n.record_versions.contains_key(id) ==> n.record_versions[id]
                == s.record_versions[id]
        }),
{
    let m = s.record_versions;
    let min = crate::store_chains::prune_threshold(s, requested);
    assert forall|v: u64| (seen_by_all(s, v) && (requested is Some ==> v <= requested->0)) <==> v
        <= min by {
        lemma_seen_by_all(s, v);
    }
    if crate::history::superseded(m, id, min) {
        let v = choose|v: u64|
            id.3 < v <= min && #[trigger] m.contains_key((id.0, id.1, id.2, v));
        assert(m.contains_key((id.0, id.1, id.2, v)));
    }
}

/// A run changes chains and history, and nothing else; it brings no chain in
/// and takes none away.
pub proof fn law_collection_touches_only_chains_and_history(
    s: StoreView,
    requested: Option<u64>,
    key: Seq<char>,
)
    ensures
        ({
            let n = after_gc(s, requested);
            &&& n.chains.contains_key(key) <==> s.chains.contains_key(key)
            &&& n.versions == s.versions
            &&& n.records == s.records
            &&& n.txns == s.txns
            &&& n.writes == s.writes
            &&& n.blobs == s.blobs
            &&& n.wal == s.wal
            &&& n.last_wal_seq == s.last_wal_seq
            &&& n.last_flushed_seq == s.last_flushed_seq
            &&& n.snapshots == s.snapshots
            &&& n.chunks == s.chunks
            &&& n.schemas == s.schemas
            &&& n.multipart == s.multipart
            &&& n.global_version == s.global_version
        }),
{
}

/// Entries of the first `n` listed chains together.
pub open spec fn chain_sizes(
    s: StoreView,
    rows: Seq<(Seq<char>, VersionChainView)>,
    n: nat,
) -> nat
    decreases n,
{
    if n == 0 {
        0
    } else {
        chain_sizes(s, rows, (n - 1) as nat) + s.chains[rows[n - 1].0].entries.len()
    }
}

/// A run counts every chain once, and as removed just the entries that the
/// chains have less afterwards.
pub proof fn law_collection_counts_add_up(s: StoreView, requested: Option<u64>)
    requires
        s.chains.dom().finite(),
    ensures
        ({
            let rows = chain_rows(s);
            let n = after_gc(s, requested);
            &&& rows.len() == s.chains.dom().len()
            &&& chain_sizes(s, rows, rows.len()) == chain_sizes(n, rows, rows.len())
                + pruned_total(rows, min_snapshot(s.snapshots), requested, rows.len())
        }),
{
    let rows = chain_rows(s);
    lemma_finite_listing::<String, VersionChainView>(s.chains);
    lemma_sizes(s, requested, rows, rows.len());
    crate::table::law_listing_has_a_row_per_key::<String, VersionChainView>(rows, s.chains);
}

/// A run of collection reports the number of chains, and the number of entries
/// that are gone from them.
pub proof fn law_collection_reports_what_is_gone(
    s: StoreView,
    requested: Option<u64>,
    r: (usize, usize),
)
    requires
        s.chains.dom().finite(),
        gc_counts(s, requested, r),
        chain_sizes(s, chain_rows(s), chain_rows(s).len()) <= usize::MAX,
    ensures
        ({
            let rows = chain_rows(s);
            let n = after_gc(s, requested);
            &&& r.0 == s.chains.dom().len()
            &&& r.1 == chain_sizes(s, rows, rows.len()) - chain_sizes(n, rows, rows.len())
        }),
{
    law_collection_counts_add_up(s, requested);
}

proof fn lemma_sizes(
    s: StoreView,
    requested: Option<u64>,
    rows: Seq<(Seq<char>, VersionChainView)>,
    n: nat,
)
    requires
        crate::table::lists::<String, VersionChainView>(rows, s.chains),
        n <= rows.len(),
    ensures
        chain_sizes(s, rows, n) == chain_sizes(after_gc(s, requested), rows, n) + pruned_total(
            rows,
            min_snapshot(s.snapshots),
            requested,
            n,
        ),
    decreases n,
{
    if n > 0 {
        lemma_sizes(s, requested, rows, (n - 1) as nat);
        lemma_listed::<String, VersionChainView>(rows, n - 1);
        let c = rows[n - 1].1.entries;
        lemma_prune_count(c, chain_bound(c, min_snapshot(s.snapshots), requested));
    }
}

} // verus!
