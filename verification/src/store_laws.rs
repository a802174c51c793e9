//! Laws of the local store.
//!
//! They are stated over the functions from state to state that the store's
//! operations implement.

use crate::history::{pruned_history, superseded};
use crate::order::{lemma_text_irreflexive, lemma_text_total, lemma_text_transitive, text_before};
use crate::outside::json_reads;
use crate::store::{
    is_min_snapshot, lemma_min_snapshot, min_snapshot, RecordId, RecordVersionId, StoreView,
};
use crate::store_chains::{
    after_gc, apply_update, apply_updates, bulk_result, chain_at, chain_bound, insert_update,
    prune_threshold, repeats_newest, sort_updates, update_before, ChainUpdate, Chains,
};
use crate::store_records::{
    latest_is, newest_version_at, record_with_body, replaces_latest, with_chunk_pointer,
    with_record_body,
};
use crate::txn_state::{RecordIndexEntryView, StoredRecordVersionView};
use crate::version_chain::{
    latest_version, law_prune_drops_what_is_below, law_prune_keeps_newest,
    law_prune_preserves_reads, lemma_prune_count, prune_count, strictly_ascending, visible_entry,
    Chain, VersionEntryView,
};
use crate::wal::WalRecordView;
use vstd::prelude::*;
use vstd::utf8::encode_utf8;

verus! {

/// Every chain is strictly ascending.
pub open spec fn chains_ascending(chains: Chains) -> bool {
    forall|k: Seq<char>| strictly_ascending(#[trigger] chain_at(chains, k).entries)
}

/// No chain holds a version above `bound`.
pub open spec fn chains_bounded(chains: Chains, bound: u64) -> bool {
    forall|k: Seq<char>, i: int|
        0 <= i < chain_at(chains, k).entries.len() ==> (#[trigger] chain_at(
            chains,
            k,
        ).entries[i]).commit_version <= bound
}

/// The newest entry of the chain is the transaction's own at `version`.
pub open spec fn newest_is_own(c: Chain, txn: Seq<char>, version: u64) -> bool {
    c.len() > 0 && c.last().txn_id == txn && c.last().commit_version == version
}

/// Every update is one of the transaction's at `version`.
pub open spec fn updates_of(s: Seq<ChainUpdate>, txn: Seq<char>, version: u64) -> bool {
    forall|i: int|
        0 <= i < s.len() ==> (#[trigger] s[i]).1.txn_id == txn && s[i].1.commit_version == version
}

/// Some update from position `i` on is for `key`.
pub open spec fn updates_key(s: Seq<ChainUpdate>, i: int, key: Seq<char>) -> bool {
    exists|j: int| i <= j < s.len() && (#[trigger] s[j]).0 == key
}

/// Inserting keeps the updates and adds the new one.
pub proof fn lemma_insert_update_contains(s: Seq<ChainUpdate>, u: ChainUpdate, x: ChainUpdate)
    ensures
        insert_update(s, u).contains(x) <==> s.contains(x) || x == u,
        insert_update(s, u).len() == s.len() + 1,
    decreases s.len(),
{
    if s.len() > 0 && update_before(u, s.last()) {
        lemma_insert_update_contains(s.drop_last(), u, x);
        let r = insert_update(s.drop_last(), u);
        assert(insert_update(s, u) == r.push(s.last()));
        assert(r.push(s.last()).contains(x) <==> r.contains(x) || x == s.last()) by {
            lemma_push_contains(r, s.last(), x);
        }
        assert(s =~= s.drop_last().push(s.last()));
        lemma_push_contains(s.drop_last(), s.last(), x);
    } else {
        lemma_push_contains(s, u, x);
    }
}

proof fn lemma_push_contains(s: Seq<ChainUpdate>, u: ChainUpdate, x: ChainUpdate)
    ensures
        s.push(u).contains(x) <==> s.contains(x) || x == u,
{
    let p = s.push(u);
    if s.contains(x) {
        let i = choose|i: int| 0 <= i < s.len() && s[i] == x;
        assert(p[i] == x);
    }
    if x == u {
        assert(p[s.len() as int] == x);
    }
}

/// Sorting keeps the updates.
pub proof fn lemma_sort_contains(s: Seq<ChainUpdate>, n: nat, x: ChainUpdate)
    requires
        n <= s.len(),
    ensures
        sort_updates(s, n).contains(x) <==> s.take(n as int).contains(x),
    decreases n,
{
    if n > 0 {
        lemma_sort_contains(s, (n - 1) as nat, x);
        lemma_insert_update_contains(sort_updates(s, (n - 1) as nat), s[n - 1], x);
        assert(s.take(n as int) =~= s.take(n - 1).push(s[n - 1]));
        lemma_push_contains(s.take(n - 1), s[n - 1], x);
    }
}

/// What a run of updates does to the chain of one key.
proof fn lemma_apply_updates(
    chains: Chains,
    s: Seq<ChainUpdate>,
    i: int,
    txn: Seq<char>,
    version: u64,
    key: Seq<char>,
)
    requires
        0 <= i <= s.len(),
        updates_of(s, txn, version),
        apply_updates(chains, s, i) is Ok,
    ensures
        ({
            let next = apply_updates(chains, s, i)->Ok_0;
            let a = chain_at(chains, key).entries;
            let b = chain_at(next, key).entries;
            &&& !updates_key(s, i, key) ==> b == a
            &&& updates_key(s, i, key) ==> newest_is_own(b, txn, version)
            &&& newest_is_own(a, txn, version) ==> newest_is_own(b, txn, version)
            &&& b == a || (b == a.push(b.last()) && newest_is_own(b, txn, version))
            &&& strictly_ascending(a) ==> strictly_ascending(b)
        }),
    decreases s.len() - i,
{
    if i < s.len() {
        let u = s[i];
        let mid = apply_update(chains, u)->Ok_0;
        lemma_apply_updates(mid, s, i + 1, txn, version, key);
        let a = chain_at(chains, key).entries;
        let m = chain_at(mid, key).entries;
        let b = chain_at(apply_updates(chains, s, i)->Ok_0, key).entries;
        if updates_key(s, i + 1, key) {
            let j = choose|j: int| i + 1 <= j < s.len() && (#[trigger] s[j]).0 == key;
            assert(s[j].0 == key);
        }
        if updates_key(s, i, key) && u.0 != key {
            let j = choose|j: int| i <= j < s.len() && (#[trigger] s[j]).0 == key;
            assert(updates_key(s, i + 1, key));
        }
        if u.0 == key {
            assert(updates_key(s, i, key));
            assert(newest_is_own(m, txn, version));
            if !repeats_newest(a, u.1) {
                assert(m == a.push(u.1));
                if b != m {
                    // A second update of the same key finds its own entry newest.
                    assert(b == m.push(b.last()));
                    lemma_second_update_is_idle(mid, s, i + 1, txn, version, key);
                }
                assert(m.last() == u.1);
                if strictly_ascending(a) {
                    assert forall|p: int, q: int| 0 <= p < q < m.len() implies (
                    #[trigger] m[p]).commit_version < (#[trigger] m[q]).commit_version by {
                        if q == a.len() && p < a.len() - 1 {
                            assert(a[p].commit_version < a[a.len() - 1].commit_version);
                        }
                    }
                }
            } else {
                assert(m == a);
            }
        } else {
            assert(m == a);
        }
    }
}

/// A chain whose newest entry is the transaction's own at `version` takes no
/// further entry from updates of that transaction at that version.
proof fn lemma_second_update_is_idle(
    chains: Chains,
    s: Seq<ChainUpdate>,
    i: int,
    txn: Seq<char>,
    version: u64,
    key: Seq<char>,
)
    requires
        0 <= i <= s.len(),
        updates_of(s, txn, version),
        apply_updates(chains, s, i) is Ok,
        newest_is_own(chain_at(chains, key).entries, txn, version),
    ensures
        chain_at(apply_updates(chains, s, i)->Ok_0, key).entries == chain_at(chains, key).entries,
    decreases s.len() - i,
{
    if i < s.len() {
        let mid = apply_update(chains, s[i])->Ok_0;
        lemma_second_update_is_idle(mid, s, i + 1, txn, version, key);
    }
}

/// A bulk append for one transaction at one version appends one entry to the
/// chain of every key that it names and leaves all other chains alone.
pub proof fn law_bulk_append_extends_named_chains(
    chains: Chains,
    s: Seq<ChainUpdate>,
    txn: Seq<char>,
    version: u64,
    key: Seq<char>,
)
    requires
        updates_of(s, txn, version),
        bulk_result(chains, s) is Ok,
    ensures
        ({
            let a = chain_at(chains, key).entries;
            let b = chain_at(bulk_result(chains, s)->Ok_0, key).entries;
            &&& !updates_key(s, 0, key) ==> b == a
            &&& updates_key(s, 0, key) ==> newest_is_own(b, txn, version)
            &&& b == a || b == a.push(b.last())
            &&& strictly_ascending(a) ==> strictly_ascending(b)
        }),
{
    let sorted = sort_updates(s, s.len());
    assert forall|i: int| 0 <= i < sorted.len() implies (#[trigger] sorted[i]).1.txn_id == txn
        && sorted[i].1.commit_version == version by {
        assert(sorted.contains(sorted[i]));
        lemma_sort_contains(s, s.len(), sorted[i]);
        assert(s.take(s.len() as int) =~= s);
        let j = choose|j: int| 0 <= j < s.len() && s[j] == sorted[i];
        assert(s[j].1.txn_id == txn);
    }
    if updates_key(s, 0, key) {
        let j = choose|j: int| 0 <= j < s.len() && (#[trigger] s[j]).0 == key;
        assert(s.take(s.len() as int) =~= s);
        assert(s.contains(s[j]));
        lemma_sort_contains(s, s.len(), s[j]);
        let k = choose|k: int| 0 <= k < sorted.len() && sorted[k] == s[j];
        assert(sorted[k].0 == key);
    }
    if updates_key(sorted, 0, key) {
        let j = choose|j: int| 0 <= j < sorted.len() && (#[trigger] sorted[j]).0 == key;
        assert(sorted.contains(sorted[j]));
        lemma_sort_contains(s, s.len(), sorted[j]);
        assert(s.take(s.len() as int) =~= s);
        let k = choose|k: int| 0 <= k < s.len() && s[k] == sorted[j];
        assert(s[k].0 == key);
    }
    lemma_apply_updates(chains, sorted, 0, txn, version, key);
}

/// A bulk append keeps every chain strictly ascending.
pub proof fn law_bulk_append_keeps_chains_ascending(chains: Chains, s: Seq<ChainUpdate>)
    requires
        chains_ascending(chains),
        bulk_result(chains, s) is Ok,
    ensures
        chains_ascending(bulk_result(chains, s)->Ok_0),
{
    lemma_apply_keeps_ascending(chains, sort_updates(s, s.len()), 0);
}

proof fn lemma_apply_keeps_ascending(chains: Chains, s: Seq<ChainUpdate>, i: int)
    requires
        0 <= i <= s.len(),
        chains_ascending(chains),
        apply_updates(chains, s, i) is Ok,
    ensures
        chains_ascending(apply_updates(chains, s, i)->Ok_0),
    decreases s.len() - i,
{
    if i < s.len() {
        let u = s[i];
        let mid = apply_update(chains, u)->Ok_0;
        assert forall|k: Seq<char>| strictly_ascending(#[trigger] chain_at(mid, k).entries) by {
            let a = chain_at(chains, k).entries;
            let m = chain_at(mid, k).entries;
            assert(strictly_ascending(a));
            if k == u.0 && !repeats_newest(a, u.1) {
                assert(m == a.push(u.1));
                assert forall|p: int, q: int| 0 <= p < q < m.len() implies (
                #[trigger] m[p]).commit_version < (#[trigger] m[q]).commit_version by {
                    if q == a.len() && p < a.len() - 1 {
                        assert(a[p].commit_version < a[a.len() - 1].commit_version);
                    }
                }
            }
        }
        lemma_apply_keeps_ascending(mid, s, i + 1);
    }
}

/// No two updates are for the same version of a key.
pub open spec fn updates_distinct(s: Seq<ChainUpdate>) -> bool {
    forall|i: int, j: int|
        0 <= i < j < s.len() ==> (#[trigger] s[i]).0 != (#[trigger] s[j]).0
            || s[i].1.commit_version != s[j].1.commit_version
}

/// The updates are in the order in which a bulk applies them.
spec fn updates_ascending(s: Seq<ChainUpdate>) -> bool {
    forall|i: int, j: int|
        0 <= i < j < s.len() ==> update_before(#[trigger] s[i], #[trigger] s[j])
}

proof fn lemma_update_transitive(a: ChainUpdate, b: ChainUpdate, c: ChainUpdate)
    requires
        update_before(a, b),
        update_before(b, c),
    ensures
        update_before(a, c),
{
    if text_before(a.0, b.0) && text_before(b.0, c.0) {
        lemma_text_transitive(a.0, b.0, c.0);
    }
}

proof fn lemma_insert_update_ascending(s: Seq<ChainUpdate>, u: ChainUpdate)
    requires
        updates_ascending(s),
        forall|i: int|
            0 <= i < s.len() ==> (#[trigger] s[i]).0 != u.0 || s[i].1.commit_version
                != u.1.commit_version,
    ensures
        updates_ascending(insert_update(s, u)),
    decreases s.len(),
{
    let r = insert_update(s, u);
    if s.len() > 0 && update_before(u, s.last()) {
        let d = s.drop_last();
        let inner = insert_update(d, u);
        assert forall|i: int| 0 <= i < d.len() implies (#[trigger] d[i]).0 != u.0
            || d[i].1.commit_version != u.1.commit_version by {
            assert(d[i] == s[i]);
        }
        assert forall|i: int, j: int| 0 <= i < j < d.len() implies update_before(
            #[trigger] d[i],
            #[trigger] d[j],
        ) by {
            assert(d[i] == s[i] && d[j] == s[j]);
        }
        lemma_insert_update_ascending(d, u);
        assert forall|i: int, j: int| 0 <= i < j < r.len() implies update_before(
            #[trigger] r[i],
            #[trigger] r[j],
        ) by {
            if j < inner.len() {
                assert(r[i] == inner[i] && r[j] == inner[j]);
            } else {
                assert(r[i] == inner[i] && r[j] == s.last());
                assert(inner.contains(inner[i]));
                lemma_insert_update_contains(d, u, inner[i]);
                if inner[i] != u {
                    let k = choose|k: int| 0 <= k < d.len() && d[k] == inner[i];
                    assert(update_before(s[k], s[s.len() - 1]));
                }
            }
        }
    } else {
        assert forall|i: int, j: int| 0 <= i < j < r.len() implies update_before(
            #[trigger] r[i],
            #[trigger] r[j],
        ) by {
            if j < s.len() {
                assert(r[i] == s[i] && r[j] == s[j]);
            } else {
                let last = s[s.len() - 1];
                assert(r[i] == s[i] && r[j] == u);
                lemma_text_total(u.0, last.0);
                assert(update_before(last, u));
                if i < s.len() - 1 {
                    lemma_update_transitive(s[i], last, u);
                }
            }
        }
    }
}

proof fn lemma_sort_ascending(s: Seq<ChainUpdate>, n: nat)
    requires
        updates_distinct(s),
        n <= s.len(),
    ensures
        updates_ascending(sort_updates(s, n)),
    decreases n,
{
    if n > 0 {
        let p = sort_updates(s, (n - 1) as nat);
        let u = s[n - 1];
        lemma_sort_ascending(s, (n - 1) as nat);
        assert forall|i: int| 0 <= i < p.len() implies (#[trigger] p[i]).0 != u.0
            || p[i].1.commit_version != u.1.commit_version by {
            assert(p.contains(p[i]));
            lemma_sort_contains(s, (n - 1) as nat, p[i]);
            let t = s.take(n - 1);
            let k = choose|k: int| 0 <= k < t.len() && t[k] == p[i];
            assert(s[k] == p[i]);
        }
        lemma_insert_update_ascending(p, u);
    }
}

/// The update is newer than the chain of its key and bound to no snapshot.
pub open spec fn update_fresh(chains: Chains, u: ChainUpdate) -> bool {
    let c = chain_at(chains, u.0).entries;
    u.2 == u64::MAX && (c.len() > 0 ==> latest_version(c) < u.1.commit_version)
}

#[verifier::spinoff_prover]
proof fn lemma_fresh_updates_apply(chains: Chains, s: Seq<ChainUpdate>, i: int)
    requires
        0 <= i <= s.len(),
        updates_ascending(s),
        forall|j: int| i <= j < s.len() ==> update_fresh(chains, #[trigger] s[j]),
    ensures
        apply_updates(chains, s, i) is Ok,
        ({
            let n = apply_updates(chains, s, i)->Ok_0;
            &&& forall|j: int|
                i <= j < s.len() ==> chain_at(n, (#[trigger] s[j]).0).entries.contains(s[j].1)
            &&& forall|k: Seq<char>, x: VersionEntryView|
                chain_at(chains, k).entries.contains(x) ==> #[trigger] chain_at(
                    n,
                    k,
                ).entries.contains(x)
        }),
    decreases s.len() - i,
{
    if i < s.len() {
        let u = s[i];
        let a = chain_at(chains, u.0).entries;
        assert(update_fresh(chains, u));
        let mid = apply_update(chains, u)->Ok_0;
        assert(chain_at(mid, u.0).entries == a.push(u.1));
        assert(a.push(u.1).last() == u.1);
        assert forall|j: int| i + 1 <= j < s.len() implies update_fresh(mid, #[trigger] s[j]) by {
            assert(update_fresh(chains, s[j]));
            assert(update_before(s[i], s[j]));
            if s[j].0 == u.0 {
                lemma_text_irreflexive(u.0);
            }
        }
        lemma_fresh_updates_apply(mid, s, i + 1);
        let n = apply_updates(chains, s, i)->Ok_0;
        assert(n == apply_updates(mid, s, i + 1)->Ok_0);
        assert forall|k: Seq<char>, x: VersionEntryView|
            chain_at(chains, k).entries.contains(x) implies #[trigger] chain_at(
            n,
            k,
        ).entries.contains(x) by {
            if k == u.0 {
                let p = choose|p: int| 0 <= p < a.len() && a[p] == x;
                assert(a.push(u.1)[p] == x);
                assert(chain_at(mid, k).entries.contains(x));
            } else {
                assert(chain_at(mid, k) == chain_at(chains, k));
            }
            assert(chain_at(n, k).entries.contains(x));
        }
        assert(a.push(u.1)[a.len() as int] == u.1);
        assert(chain_at(mid, u.0).entries.contains(u.1));
    }
}

/// A bulk append takes every update when no two are for the same version of a
/// key, all are newer than the chains of their keys and none is bound to a
/// snapshot. The chains keep what they held.
pub proof fn law_fresh_bulk_append_succeeds(chains: Chains, s: Seq<ChainUpdate>)
    requires
        updates_distinct(s),
        forall|i: int| 0 <= i < s.len() ==> update_fresh(chains, #[trigger] s[i]),
    ensures
        bulk_result(chains, s) is Ok,
        ({
            let n = bulk_result(chains, s)->Ok_0;
            &&& forall|i: int|
                0 <= i < s.len() ==> chain_at(n, (#[trigger] s[i]).0).entries.contains(s[i].1)
            &&& forall|k: Seq<char>, x: VersionEntryView|
                chain_at(chains, k).entries.contains(x) ==> #[trigger] chain_at(
                    n,
                    k,
                ).entries.contains(x)
        }),
{
    let sorted = sort_updates(s, s.len());
    assert(s.take(s.len() as int) =~= s);
    lemma_sort_ascending(s, s.len());
    assert forall|j: int| 0 <= j < sorted.len() implies update_fresh(
        chains,
        #[trigger] sorted[j],
    ) by {
        assert(sorted.contains(sorted[j]));
        lemma_sort_contains(s, s.len(), sorted[j]);
        let k = choose|k: int| 0 <= k < s.len() && s[k] == sorted[j];
        assert(update_fresh(chains, s[k]));
    }
    lemma_fresh_updates_apply(chains, sorted, 0);
    let n = bulk_result(chains, s)->Ok_0;
    assert forall|i: int| 0 <= i < s.len() implies chain_at(
        n,
        (#[trigger] s[i]).0,
    ).entries.contains(s[i].1) by {
        assert(s.contains(s[i]));
        lemma_sort_contains(s, s.len(), s[i]);
        let j = choose|j: int| 0 <= j < sorted.len() && sorted[j] == s[i];
        assert(chain_at(n, sorted[j].0).entries.contains(sorted[j].1));
    }
}

/// A write based on a snapshot that is older than the newest version of its
/// key is refused, and then nothing of the whole batch is stored.
pub proof fn law_stale_bulk_append_is_refused(chains: Chains, s: Seq<ChainUpdate>, at: int)
    requires
        0 <= at < s.len(),
        chain_at(chains, s[at].0).entries.len() > 0,
        latest_version(chain_at(chains, s[at].0).entries) > s[at].2,
    ensures
        bulk_result(chains, s) is Err,
{
    let sorted = sort_updates(s, s.len());
    assert(s.take(s.len() as int) =~= s);
    assert(s.contains(s[at]));
    lemma_sort_contains(s, s.len(), s[at]);
    let k = choose|k: int| 0 <= k < sorted.len() && sorted[k] == s[at];
    lemma_stale_update_fails(chains, sorted, 0, k);
}

proof fn lemma_stale_update_fails(chains: Chains, s: Seq<ChainUpdate>, i: int, k: int)
    requires
        0 <= i <= k < s.len(),
        chain_at(chains, s[k].0).entries.len() > 0,
        latest_version(chain_at(chains, s[k].0).entries) > s[k].2,
    ensures
        apply_updates(chains, s, i) is Err,
    decreases k - i,
{
    if i < k {
        match apply_update(chains, s[i]) {
            Ok(mid) => {
                lemma_stale_update_fails(mid, s, i + 1, k);
            },
            Err(_) => {},
        }
    }
}

/// A reader sees the same in a chain that only grew by newer versions.
pub proof fn lemma_push_keeps_reads(c: Chain, e: VersionEntryView, snapshot: u64)
    requires
        e.commit_version > snapshot,
    ensures
        visible_entry(c.push(e), snapshot) == visible_entry(c, snapshot),
{
    let p = c.push(e);
    assert(p[p.len() - 1] == e);
    lemma_newest_visible_prefix(c, p, snapshot, c.len());
    crate::version_chain::lemma_newest_visible(c, snapshot, c.len());
}

proof fn lemma_newest_visible_prefix(c: Chain, p: Chain, snapshot: u64, n: nat)
    requires
        n <= c.len() <= p.len(),
        forall|i: int| 0 <= i < c.len() ==> c[i] == p[i],
    ensures
        crate::version_chain::newest_visible(c, snapshot, n)
            == crate::version_chain::newest_visible(p, snapshot, n),
    decreases n,
{
    if n > 0 {
        lemma_newest_visible_prefix(c, p, snapshot, (n - 1) as nat);
    }
}

/// The chain's newest entry is what readers at or after its version see.
pub proof fn law_newest_entry_is_visible(c: Chain, snapshot: u64)
    requires
        c.len() > 0,
        c.last().commit_version <= snapshot,
    ensures
        visible_entry(c, snapshot) == Some(c.last()),
{
}

// ----- snapshots and collection -----

proof fn lemma_least_key(snapshots: Map<u64, u64>, k: u64)
    requires
        snapshots.contains_key(k),
    ensures
        exists|r: u64| is_min_snapshot(snapshots, r),
    decreases k,
{
    if exists|s: u64| snapshots.contains_key(s) && s < k {
        let s = choose|s: u64| snapshots.contains_key(s) && s < k;
        lemma_least_key(snapshots, s);
    } else {
        assert(is_min_snapshot(snapshots, k));
    }
}

/// The least active snapshot is at most every pinned one.
pub proof fn law_min_snapshot_is_least(snapshots: Map<u64, u64>, snapshot: u64)
    requires
        snapshots.contains_key(snapshot),
    ensures
        min_snapshot(snapshots) <= snapshot,
        is_min_snapshot(snapshots, min_snapshot(snapshots)),
{
    lemma_least_key(snapshots, snapshot);
}

/// Collection never changes what a reader at a pinned snapshot sees, in the
/// chains.
pub proof fn law_gc_preserves_pinned_reads(
    s: StoreView,
    requested: Option<u64>,
    snapshot: u64,
    key: Seq<char>,
)
    requires
        s.snapshots.contains_key(snapshot),
    ensures
        visible_entry(chain_at(after_gc(s, requested).chains, key).entries, snapshot)
            == visible_entry(chain_at(s.chains, key).entries, snapshot),
{
    law_min_snapshot_is_least(s.snapshots, snapshot);
    let active = min_snapshot(s.snapshots);
    if s.chains.contains_key(key) {
        let c = s.chains[key].entries;
        law_prune_preserves_reads(c, chain_bound(c, active, requested), active, snapshot);
    }
}

/// Collection keeps the newest version of every key and keeps chains strictly
/// ascending.
pub proof fn law_gc_keeps_newest(s: StoreView, requested: Option<u64>, key: Seq<char>)
    requires
        chains_ascending(s.chains),
    ensures
        ({
            let a = chain_at(s.chains, key).entries;
            let b = chain_at(after_gc(s, requested).chains, key).entries;
            &&& a.len() > 0 ==> b.len() > 0 && b.last() == a.last()
            &&& strictly_ascending(b)
        }),
{
    if s.chains.contains_key(key) {
        assert(strictly_ascending(chain_at(s.chains, key).entries));
        let c = s.chains[key].entries;
        law_prune_keeps_newest(c, chain_bound(c, min_snapshot(s.snapshots), requested));
    }
}

/// Without pins, a collection drops from a chain exactly the entries below the
/// requested threshold but the newest.
pub proof fn law_gc_without_pins_drops_what_is_below(
    s: StoreView,
    requested: u64,
    key: Seq<char>,
    i: int,
)
    requires
        chains_ascending(s.chains),
        s.snapshots == Map::<u64, u64>::empty(),
        0 <= i < chain_at(s.chains, key).entries.len(),
    ensures
        ({
            let a = chain_at(s.chains, key).entries;
            let b = chain_at(after_gc(s, Some(requested)).chains, key).entries;
            b.contains(a[i]) <==> a[i].commit_version >= requested || i == a.len() - 1
        }),
{
    let a = chain_at(s.chains, key).entries;
    let b = chain_at(after_gc(s, Some(requested)).chains, key).entries;
    let active = min_snapshot(s.snapshots);
    assert(is_min_snapshot(s.snapshots, u64::MAX));
    lemma_min_snapshot(s.snapshots, u64::MAX);
    let bound = chain_bound(a, active, Some(requested));
    assert(strictly_ascending(a));
    law_newest_entry_is_visible(a, u64::MAX);
    law_prune_drops_what_is_below(a, bound);
    lemma_prune_count(a, bound);
    let k = prune_count(a, bound);
    assert(b == a.skip(k));
    if i < a.len() - 1 {
        assert(a[i].commit_version < a[a.len() - 1].commit_version);
    }
    if i >= k {
        assert(b[i - k] == a[i]);
    }
    if b.contains(a[i]) {
        let j = choose|j: int| 0 <= j < b.len() && b[j] == a[i];
        assert(a[j + k] == a[i]);
    }
}

/// Collection never changes which version of a record a reader at a pinned
/// snapshot sees.
pub proof fn law_gc_preserves_pinned_history(
    s: StoreView,
    requested: Option<u64>,
    snapshot: u64,
    id: RecordId,
    v: u64,
)
    requires
        s.snapshots.contains_key(snapshot),
    ensures
        newest_version_at(s.record_versions, id, snapshot, v) <==> newest_version_at(
            after_gc(s, requested).record_versions,
            id,
            snapshot,
            v,
        ),
        newest_version_at(s.record_versions, id, snapshot, v) ==> after_gc(
            s,
            requested,
        ).record_versions[(id.0, id.1, id.2, v)] == s.record_versions[(id.0, id.1, id.2, v)],
{
    law_min_snapshot_is_least(s.snapshots, snapshot);
    let min = prune_threshold(s, requested);
    let m = s.record_versions;
    let p = pruned_history(m, min);
    let vid = (id.0, id.1, id.2, v);
    if newest_version_at(m, id, snapshot, v) {
        if superseded(m, vid, min) {
            let w = choose|w: u64| v < w <= min && #[trigger] m.contains_key((id.0, id.1, id.2, w));
            assert(m.contains_key((id.0, id.1, id.2, w)));
        }
        assert forall|w: u64| #[trigger]
            p.contains_key((id.0, id.1, id.2, w)) && w <= snapshot implies w <= v by {
            assert(m.contains_key((id.0, id.1, id.2, w)));
        }
    }
    if newest_version_at(p, id, snapshot, v) {
        assert forall|w: u64| #[trigger]
            m.contains_key((id.0, id.1, id.2, w)) && w <= snapshot implies w <= v by {
            if w > v {
                lemma_newest_survives(m, id, min, snapshot, w);
                let x = choose|x: u64|
                    w <= x <= snapshot && #[trigger] p.contains_key((id.0, id.1, id.2, x));
                assert(p.contains_key((id.0, id.1, id.2, x)));
            }
        }
    }
}

/// Some version at or above `w`, and at or below the snapshot, survives.
proof fn lemma_newest_survives(
    m: Map<RecordVersionId, StoredRecordVersionView>,
    id: RecordId,
    min: u64,
    snapshot: u64,
    w: u64,
)
    requires
        min <= snapshot,
        w <= snapshot,
        m.contains_key((id.0, id.1, id.2, w)),
    ensures
        exists|x: u64|
            w <= x <= snapshot && #[trigger] pruned_history(m, min).contains_key(
                (id.0, id.1, id.2, x),
            ),
    decreases u64::MAX - w,
{
    let vid = (id.0, id.1, id.2, w);
    if superseded(m, vid, min) {
        let x = choose|x: u64| w < x <= min && #[trigger] m.contains_key((id.0, id.1, id.2, x));
        lemma_newest_survives(m, id, min, snapshot, x);
        let y = choose|y: u64|
            x <= y <= snapshot && #[trigger] pruned_history(m, min).contains_key(
                (id.0, id.1, id.2, y),
            );
        assert(pruned_history(m, min).contains_key((id.0, id.1, id.2, y)));
    } else {
        assert(pruned_history(m, min).contains_key((id.0, id.1, id.2, w)));
    }
}

/// No pin stands at zero.
pub open spec fn pins_positive(s: StoreView) -> bool {
    forall|k: u64| #[trigger] s.snapshots.contains_key(k) ==> s.snapshots[k] > 0
}

/// Releasing a pin undoes taking it.
pub proof fn law_unpin_undoes_pin(s: StoreView, snapshot: u64)
    requires
        pins_positive(s),
        s.pins(snapshot) < u64::MAX,
    ensures
        s.pin(snapshot).unpin(snapshot) == s,
        pins_positive(s.pin(snapshot)),
        s.pin(snapshot).snapshots.contains_key(snapshot),
{
    assert(s.pin(snapshot).unpin(snapshot).snapshots =~= s.snapshots);
    assert(s.pin(snapshot).unpin(snapshot) =~= s);
}

/// Releasing one pin leaves the pins of other snapshots alone, and keeps the
/// snapshot pinned while another transaction holds it.
pub proof fn law_unpin_keeps_other_pins(s: StoreView, snapshot: u64, other: u64)
    requires
        pins_positive(s),
    ensures
        pins_positive(s.unpin(snapshot)),
        other != snapshot ==> s.unpin(snapshot).pins(other) == s.pins(other),
        s.pins(snapshot) > 1 ==> s.unpin(snapshot).pins(snapshot) == s.pins(snapshot) - 1,
        s.pins(snapshot) <= 1 ==> !s.unpin(snapshot).snapshots.contains_key(snapshot),
{
}

// ----- log -----

/// The log holds no record above its last sequence number.
pub open spec fn log_bounded(s: StoreView) -> bool {
    forall|q: u64| #[trigger] s.wal.contains_key(q) ==> q <= s.last_wal_seq
}

/// Appending to the log never overwrites a record, gives a larger sequence
/// number than every earlier one, and keeps all records.
pub proof fn law_log_only_grows(s: StoreView, rec: WalRecordView)
    requires
        log_bounded(s),
        s.last_wal_seq < u64::MAX,
    ensures
        log_bounded(s.log(rec)),
        s.log(rec).last_wal_seq == s.last_wal_seq + 1,
        !s.wal.contains_key(s.log(rec).last_wal_seq),
        s.log(rec).wal[s.log(rec).last_wal_seq] == rec,
        forall|q: u64| #[trigger]
            s.wal.contains_key(q) ==> s.log(rec).wal.contains_key(q) && s.log(rec).wal[q]
                == s.wal[q],
{
}

/// Truncating the log keeps it bounded, so numbers are never used twice.
pub proof fn law_truncation_keeps_the_log_bounded(s: StoreView, up_to: u64)
    requires
        log_bounded(s),
    ensures
        log_bounded(
            StoreView { wal: s.wal.remove_keys(Set::new(|q: u64| q <= up_to)), ..s },
        ),
{
}

// ----- record index -----

/// Storing an older version of a record never replaces a newer latest row. The
/// stored version joins the history, and every other version stays as it was.
pub proof fn law_record_index_never_goes_back(
    s: StoreView,
    id: RecordId,
    entry: RecordIndexEntryView,
    body: Seq<char>,
)
    ensures
        ({
            let n = with_record_body(s, id, entry, body);
            &&& n.records.contains_key(id)
            &&& s.records.contains_key(id) ==> n.records[id].entry.commit_version
                >= s.records[id].entry.commit_version
            &&& n.records[id].entry.commit_version >= entry.commit_version
            &&& replaces_latest(s, id, entry.commit_version) ==> n.records[id].entry == entry
                && n.records[id].body_json == Some(body)
            &&& n.record_versions.contains_key((id.0, id.1, id.2, entry.commit_version))
            &&& n.record_versions[(id.0, id.1, id.2, entry.commit_version)].entry == entry
            &&& forall|k: (Seq<char>, Seq<char>, Seq<char>, u64)|
                k != (id.0, id.1, id.2, entry.commit_version) && s.record_versions.contains_key(k)
                    ==> n.record_versions.contains_key(k) && #[trigger] n.record_versions[k]
                    == s.record_versions[k]
        }),
{
}

/// A record that was written with a body is read back with it. Where the
/// latest row is newer, that one stays as it is, and the history shows the
/// written version. No other record changes.
pub proof fn law_record_body_reads_back(
    s: StoreView,
    id: RecordId,
    entry: RecordIndexEntryView,
    body: Seq<char>,
    other: RecordId,
)
    requires
        json_reads(body),
    ensures
        ({
            let n = with_record_body(s, id, entry, body);
            let v = entry.commit_version;
            &&& replaces_latest(s, id, v) ==> (record_with_body(n, id) matches Ok(row) && row == Some(
                (entry, body),
            ))
            &&& !replaces_latest(s, id, v) ==> record_with_body(n, id) == record_with_body(s, id)
            &&& newest_version_at(n.record_versions, id, v, v)
            &&& n.record_versions[(id.0, id.1, id.2, v)] == (StoredRecordVersionView {
                entry,
                body: encode_utf8(body),
            })
            &&& other != id ==> record_with_body(n, other) == record_with_body(s, other)
        }),
{
}

/// Pointing a version to its chunk changes nothing but chunk ids, and changes
/// the latest row only where that is the version that was flushed.
pub proof fn law_chunk_pointer_never_regresses(
    s: StoreView,
    id: RecordId,
    commit_version: u64,
    chunk_id: Seq<char>,
)
    ensures
        ({
            let n = with_chunk_pointer(s, id, commit_version, chunk_id);
            &&& n.records.dom() == s.records.dom()
            &&& n.record_versions.dom() == s.record_versions.dom()
            &&& !latest_is(s, id, commit_version) ==> n.records == s.records
            &&& forall|k: RecordId| #[trigger]
                s.records.contains_key(k) ==> n.records[k].entry.commit_version
                    == s.records[k].entry.commit_version && n.records[k].body_json
                    == s.records[k].body_json
            &&& forall|k: RecordVersionId| #[trigger]
                s.record_versions.contains_key(k) ==> n.record_versions[k].body
                    == s.record_versions[k].body
        }),
{
    let n = with_chunk_pointer(s, id, commit_version, chunk_id);
    assert(n.records.dom() =~= s.records.dom());
    assert(n.record_versions.dom() =~= s.record_versions.dom());
}

} // verus!
