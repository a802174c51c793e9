//! MVCC version chain.
//!
//! Each object key maps to a chain of [`VersionEntry`] records, strictly
//! ascending by `commit_version`. A read at snapshot S sees the newest entry
//! with `commit_version <= S`. Pruning keeps that entry for every snapshot
//! that may still read.

use crate::outside::now_ms;
use crate::text::{copy_optional_text, copy_pairs, optional_text, text_pairs};
use crate::table::Row;
use vstd::prelude::*;

verus! {

/// A single version on a key's chain.
#[derive(Debug, PartialEq, Eq)]
pub struct VersionEntry {
    /// Global version at which this entry was committed.
    pub commit_version: u64,
    /// ETag of the stored object. Empty for tombstones.
    pub etag: String,
    /// Key of the object that holds the body.
    pub backend_key: String,
    /// Originating transaction. Empty for seeded entries.
    pub txn_id: String,
    pub size: u64,
    pub content_type: Option<String>,
    pub user_meta: Vec<(String, String)>,
    /// True if this version is a delete marker.
    pub deleted: bool,
    pub created_ms: i64,
}

/// Mathematical view of a [`VersionEntry`].
pub ghost struct VersionEntryView {
    pub commit_version: u64,
    pub etag: Seq<char>,
    pub backend_key: Seq<char>,
    pub txn_id: Seq<char>,
    pub size: u64,
    pub content_type: Option<Seq<char>>,
    pub user_meta: Seq<(Seq<char>, Seq<char>)>,
    pub deleted: bool,
    pub created_ms: i64,
}

impl View for VersionEntry {
    type V = VersionEntryView;

    open spec fn view(&self) -> VersionEntryView {
        VersionEntryView {
            commit_version: self.commit_version,
            etag: self.etag@,
            backend_key: self.backend_key@,
            txn_id: self.txn_id@,
            size: self.size,
            content_type: optional_text(self.content_type),
            user_meta: text_pairs(self.user_meta@),
            deleted: self.deleted,
            created_ms: self.created_ms,
        }
    }
}

/// The entry of a write of `size` bytes.
pub open spec fn write_entry_view(
    commit_version: u64,
    etag: Seq<char>,
    backend_key: Seq<char>,
    txn_id: Seq<char>,
    size: u64,
    created_ms: i64,
) -> VersionEntryView {
    VersionEntryView {
        commit_version,
        etag,
        backend_key,
        txn_id,
        size,
        content_type: None,
        user_meta: Seq::empty(),
        deleted: false,
        created_ms,
    }
}

/// The entry of a delete.
pub open spec fn tombstone_view(
    commit_version: u64,
    backend_key: Seq<char>,
    txn_id: Seq<char>,
    created_ms: i64,
) -> VersionEntryView {
    VersionEntryView {
        deleted: true,
        ..write_entry_view(
            commit_version,
            Seq::empty(),
            backend_key,
            txn_id,
            0,
            created_ms,
        )
    }
}

impl Clone for VersionEntry {
    fn clone(&self) -> (r: Self)
        ensures
            r@ == self@,
    {
        VersionEntry {
            commit_version: self.commit_version,
            etag: self.etag.clone(),
            backend_key: self.backend_key.clone(),
            txn_id: self.txn_id.clone(),
            size: self.size,
            content_type: copy_optional_text(&self.content_type),
            user_meta: copy_pairs(&self.user_meta),
            deleted: self.deleted,
            created_ms: self.created_ms,
        }
    }
}

impl VersionEntry {
    /// A write, created at `created_ms`.
    pub fn new_at(
        commit_version: u64,
        etag: String,
        backend_key: String,
        txn_id: String,
        size: u64,
        created_ms: i64,
    ) -> (r: Self)
        ensures
            r@ == write_entry_view(
                commit_version,
                etag@,
                backend_key@,
                txn_id@,
                size,
                created_ms,
            ),
    {
        let r = VersionEntry {
            commit_version,
            etag,
            backend_key,
            txn_id,
            size,
            content_type: None,
            user_meta: Vec::new(),
            deleted: false,
            created_ms,
        };
        assert(r@.user_meta =~= Seq::empty());
        r
    }

    /// A write, created now.
    pub fn new(
        commit_version: u64,
        etag: String,
        backend_key: String,
        txn_id: String,
        size: u64,
    ) -> (r: Self)
        ensures
            r@ == write_entry_view(
                commit_version,
                etag@,
                backend_key@,
                txn_id@,
                size,
                r.created_ms,
            ),
    {
        Self::new_at(commit_version, etag, backend_key, txn_id, size, now_ms())
    }

    /// A delete marker, created at `created_ms`.
    pub fn tombstone_at(
        commit_version: u64,
        backend_key: String,
        txn_id: String,
        created_ms: i64,
    ) -> (r: Self)
        ensures
            r@ == tombstone_view(commit_version, backend_key@, txn_id@, created_ms),
    {
        let r = VersionEntry {
            commit_version,
            etag: String::new(),
            backend_key,
            txn_id,
            size: 0,
            content_type: None,
            user_meta: Vec::new(),
            deleted: true,
            created_ms,
        };
        assert(r@.user_meta =~= Seq::empty());
        r
    }

    /// A delete marker, created now.
    pub fn tombstone(commit_version: u64, backend_key: String, txn_id: String) -> (r: Self)
        ensures
            r@ == tombstone_view(commit_version, backend_key@, txn_id@, r.created_ms),
    {
        Self::tombstone_at(commit_version, backend_key, txn_id, now_ms())
    }
}

/// A chain, oldest entry first.
pub type Chain = Seq<VersionEntryView>;

/// Strictly ascending by commit version.
pub open spec fn strictly_ascending(c: Chain) -> bool {
    forall|i: int, j: int|
        0 <= i < j < c.len() ==> (#[trigger] c[i]).commit_version < (#[trigger] c[j]).commit_version
}

/// Index of the last of the first `n` entries that is no newer than
/// `snapshot`.
pub open spec fn newest_visible(c: Chain, snapshot: u64, n: nat) -> Option<int>
    decreases n,
{
    if n == 0 {
        None
    } else if c[n - 1].commit_version <= snapshot {
        Some(n - 1)
    } else {
        newest_visible(c, snapshot, (n - 1) as nat)
    }
}

/// What a read at `snapshot` sees.
pub open spec fn visible_entry(c: Chain, snapshot: u64) -> Option<VersionEntryView> {
    match newest_visible(c, snapshot, c.len()) {
        Some(i) => Some(c[i]),
        None => None,
    }
}

/// Commit version of the newest entry, 0 for an empty chain.
pub open spec fn latest_version(c: Chain) -> u64 {
    if c.len() == 0 {
        0
    } else {
        c.last().commit_version
    }
}

/// First position from `from` on whose entry is not below `bound`, the length
/// if there is none.
pub open spec fn first_not_below(c: Chain, bound: u64, from: int) -> int
    decreases c.len() - from,
{
    if 0 <= from < c.len() && c[from].commit_version < bound {
        first_not_below(c, bound, from + 1)
    } else {
        from
    }
}

/// Number of leading entries that pruning drops: those below `bound`, but
/// never the newest.
pub open spec fn prune_count(c: Chain, bound: u64) -> int {
    let below = first_not_below(c, bound, 0);
    if 0 < c.len() <= below {
        c.len() - 1
    } else {
        below
    }
}

/// The chain after pruning below `bound`.
pub open spec fn pruned(c: Chain, bound: u64) -> Chain {
    c.skip(prune_count(c, bound))
}

proof fn lemma_first_not_below(c: Chain, bound: u64, from: int)
    requires
        0 <= from <= c.len(),
    ensures
        from <= first_not_below(c, bound, from) <= c.len(),
        forall|i: int|
            from <= i < first_not_below(c, bound, from) ==> (#[trigger] c[i]).commit_version < bound,
        ({
            let k = first_not_below(c, bound, from);
            k < c.len() ==> c[k].commit_version >= bound
        }),
    decreases c.len() - from,
{
    if from < c.len() && c[from].commit_version < bound {
        lemma_first_not_below(c, bound, from + 1);
    }
}

/// Pruning drops leading entries that are all below the bound, and stops at
/// the first that is not or at the newest.
pub proof fn lemma_prune_count(c: Chain, bound: u64)
    ensures
        0 <= prune_count(c, bound),
        c.len() > 0 ==> prune_count(c, bound) < c.len(),
        c.len() == 0 ==> prune_count(c, bound) == 0,
        forall|i: int|
            0 <= i < prune_count(c, bound) ==> (#[trigger] c[i]).commit_version < bound,
        ({
            let k = prune_count(c, bound);
            k + 1 < c.len() ==> c[k].commit_version >= bound
        }),
{
    lemma_first_not_below(c, bound, 0);
}

pub proof fn lemma_newest_visible(c: Chain, snapshot: u64, n: nat)
    requires
        n <= c.len(),
    ensures
        match newest_visible(c, snapshot, n) {
            Some(k) => 0 <= k < n && c[k].commit_version <= snapshot && forall|i: int|
                k < i < n ==> (#[trigger] c[i]).commit_version > snapshot,
            None => forall|i: int| 0 <= i < n ==> (#[trigger] c[i]).commit_version > snapshot,
        },
    decreases n,
{
    if n > 0 && c[n - 1].commit_version > snapshot {
        lemma_newest_visible(c, snapshot, (n - 1) as nat);
    }
}

proof fn lemma_newest_visible_shift(c: Chain, snapshot: u64, drop: int, n: nat)
    requires
        0 <= drop,
        drop + n <= c.len(),
    ensures
        match newest_visible(c, snapshot, (drop + n) as nat) {
            Some(k) => k >= drop ==> newest_visible(c.skip(drop), snapshot, n) == Some(k - drop),
            None => newest_visible(c.skip(drop), snapshot, n) is None,
        },
    decreases n,
{
    if n > 0 {
        assert(c.skip(drop)[n - 1] == c[drop + n - 1]);
        lemma_newest_visible_shift(c, snapshot, drop, (n - 1) as nat);
    } else {
        lemma_newest_visible(c, snapshot, (drop + n) as nat);
    }
}

/// A read at a snapshot returns the newest entry that is not newer than the
/// snapshot: no visible entry of the chain is newer than the one returned, and
/// nothing is returned only when nothing is visible.
pub proof fn law_read_sees_newest_visible(c: Chain, snapshot: u64)
    requires
        strictly_ascending(c),
    ensures
        match visible_entry(c, snapshot) {
            Some(e) => c.contains(e) && e.commit_version <= snapshot && forall|i: int|
                0 <= i < c.len() && (#[trigger] c[i]).commit_version <= snapshot
                    ==> c[i].commit_version <= e.commit_version,
            None => forall|i: int| 0 <= i < c.len() ==> (#[trigger] c[i]).commit_version > snapshot,
        },
{
    lemma_newest_visible(c, snapshot, c.len());
    if let Some(k) = newest_visible(c, snapshot, c.len()) {
        assert(c.contains(c[k]));
    }
}

/// Pruning never changes what a reader at or after `least` sees, as long as the
/// bound is not above the version that a reader at `least` sees.
pub proof fn law_prune_preserves_reads(c: Chain, bound: u64, least: u64, snapshot: u64)
    requires
        least <= snapshot,
        match visible_entry(c, least) {
            Some(e) => bound <= e.commit_version,
            None => bound <= least,
        },
    ensures
        visible_entry(pruned(c, bound), snapshot) == visible_entry(c, snapshot),
{
    lemma_prune_count(c, bound);
    let k = prune_count(c, bound);
    lemma_newest_visible(c, least, c.len());
    lemma_newest_visible(c, snapshot, c.len());
    lemma_newest_visible_shift(c, snapshot, k, (c.len() - k) as nat);
    if let Some(p) = newest_visible(c, snapshot, c.len()) {
        if p < k {
            assert(c[p].commit_version < bound);
            if let Some(a) = newest_visible(c, least, c.len()) {
                if a < k {
                    assert(c[a].commit_version < bound);
                }
                assert(c[a].commit_version <= snapshot);
            }
        }
        assert(c.skip(k)[p - k] == c[p]);
    }
}

/// Pruning drops exactly the entries below the bound but the newest.
pub proof fn law_prune_drops_what_is_below(c: Chain, bound: u64)
    requires
        strictly_ascending(c),
    ensures
        forall|i: int|
            0 <= i < c.len() ==> (i < prune_count(c, bound) <==> (#[trigger] c[i]).commit_version
                < bound && i < c.len() - 1),
{
    lemma_prune_count(c, bound);
    let k = prune_count(c, bound);
    assert forall|i: int| 0 <= i < c.len() implies (i < k <==> (#[trigger] c[i]).commit_version
        < bound && i < c.len() - 1) by {
        if k < i && i < c.len() - 1 {
            assert(c[k].commit_version < c[i].commit_version);
        }
    }
}

/// Pruning keeps the newest entry, never empties a chain, and leaves it
/// ascending.
pub proof fn law_prune_keeps_newest(c: Chain, bound: u64)
    requires
        strictly_ascending(c),
    ensures
        strictly_ascending(pruned(c, bound)),
        c.len() > 0 ==> pruned(c, bound).len() > 0 && pruned(c, bound).last() == c.last(),
        latest_version(pruned(c, bound)) == latest_version(c),
{
    lemma_prune_count(c, bound);
    let k = prune_count(c, bound);
    let p = pruned(c, bound);
    assert(forall|i: int| 0 <= i < p.len() ==> #[trigger] p[i] == c[i + k]);
}

/// With no reader left, pruning leaves only the newest entry.
pub proof fn law_prune_without_readers_keeps_one(c: Chain)
    requires
        strictly_ascending(c),
        c.len() > 0,
    ensures
        pruned(c, u64::MAX) == seq![c.last()],
{
    lemma_prune_count(c, u64::MAX);
    let k = prune_count(c, u64::MAX);
    if k + 1 < c.len() {
        assert(c[k].commit_version < c[k + 1].commit_version);
    }
    assert(pruned(c, u64::MAX) =~= seq![c.last()]);
}

/// A key's full version chain.
#[derive(Debug, PartialEq, Eq)]
pub struct VersionChain {
    pub key: String,
    /// Strictly ascending by `commit_version`.
    pub entries: Vec<VersionEntry>,
}

/// Views of the entries of a list.
pub open spec fn chain_of(entries: Seq<VersionEntry>) -> Chain {
    entries.map_values(|e: VersionEntry| e@)
}

/// Mathematical view of a [`VersionChain`].
pub ghost struct VersionChainView {
    pub key: Seq<char>,
    pub entries: Chain,
}

impl View for VersionChain {
    type V = VersionChainView;

    open spec fn view(&self) -> VersionChainView {
        VersionChainView { key: self.key@, entries: chain_of(self.entries@) }
    }
}

impl Clone for VersionChain {
    fn clone(&self) -> (r: Self)
        ensures
            r@ == self@,
    {
        let mut entries: Vec<VersionEntry> = Vec::new();
        let mut i: usize = 0;
        while i < self.entries.len()
            invariant
                i <= self.entries.len(),
                chain_of(entries@) == chain_of(self.entries@).take(i as int),
            decreases self.entries.len() - i,
        {
            let ghost before = entries@;
            entries.push(self.entries[i].clone());
            proof {
                assert(chain_of(entries@) =~= chain_of(before).push(self.entries@[i as int]@));
                assert(chain_of(self.entries@).take(i as int + 1) =~= chain_of(self.entries@).take(
                    i as int,
                ).push(self.entries@[i as int]@));
            }
            i += 1;
        }
        assert(chain_of(self.entries@).take(i as int) =~= chain_of(self.entries@));
        VersionChain { key: self.key.clone(), entries }
    }
}

impl VersionChain {
    /// An empty chain.
    pub fn new(key: String) -> (r: Self)
        ensures
            r@ == (VersionChainView { key: key@, entries: Seq::empty() }),
    {
        let r = VersionChain { key, entries: Vec::new() };
        assert(r@.entries =~= Seq::empty());
        r
    }

    /// The newest entry with `commit_version <= snapshot`.
    pub fn read_at_snapshot(&self, snapshot: u64) -> (r: Option<&VersionEntry>)
        ensures
            match r {
                Some(e) => visible_entry(self@.entries, snapshot) == Some(e@),
                None => visible_entry(self@.entries, snapshot) is None,
            },
    {
        let ghost c = self@.entries;
        let mut n: usize = self.entries.len();
        while n > 0
            invariant
                n <= self.entries.len(),
                c == chain_of(self.entries@),
                newest_visible(c, snapshot, c.len()) == newest_visible(c, snapshot, n as nat),
            decreases n,
        {
            if self.entries[n - 1].commit_version <= snapshot {
                return Some(&self.entries[n - 1]);
            }
            n -= 1;
        }
        None
    }

    /// Commit version of the newest entry, 0 if there is none.
    pub fn latest_commit_version(&self) -> (r: u64)
        ensures
            r == latest_version(self@.entries),
    {
        if self.entries.len() == 0 {
            0
        } else {
            self.entries[self.entries.len() - 1].commit_version
        }
    }

    /// Appends an entry that is newer than all others.
    pub fn append(&mut self, entry: VersionEntry)
        requires
            old(self).entries@.len() > 0 ==> latest_version(old(self)@.entries)
                < entry.commit_version,
        ensures
            final(self)@ == (VersionChainView {
                entries: old(self)@.entries.push(entry@),
                ..old(self)@
            }),
            strictly_ascending(old(self)@.entries) ==> strictly_ascending(final(self)@.entries),
    {
        let ghost before = self@.entries;
        self.entries.push(entry);
        proof {
            let after = self@.entries;
            assert(after =~= before.push(entry@));
            if strictly_ascending(before) {
                assert forall|i: int, j: int| 0 <= i < j < after.len() implies (
                #[trigger] after[i]).commit_version < (#[trigger] after[j]).commit_version by {
                    if j == before.len() && i < before.len() - 1 {
                        assert(before[i].commit_version < before[before.len()
                            - 1].commit_version);
                    }
                }
            }
        }
    }

    /// Drops the entries strictly below `min_snapshot` that are not the newest,
    /// and returns how many those were. A chain is never emptied;
    /// `u64::MAX` stands for no readers at all.
    pub fn prune_below(&mut self, min_snapshot: u64) -> (removed: usize)
        ensures
            removed == prune_count(old(self)@.entries, min_snapshot),
            final(self)@ == (VersionChainView {
                entries: pruned(old(self)@.entries, min_snapshot),
                ..old(self)@
            }),
            strictly_ascending(old(self)@.entries) ==> forall|i: int|
                0 <= i < old(self)@.entries.len() ==> (i < removed <==> (
                #[trigger] old(self)@.entries[i]).commit_version < min_snapshot && i
                    < old(self)@.entries.len() - 1),
    {
        let ghost c = self@.entries;
        let n: usize = self.entries.len();
        let mut below: usize = 0;
        while below < n && self.entries[below].commit_version < min_snapshot
            invariant
                *self == *old(self),
                n == self.entries.len(),
                c == chain_of(self.entries@),
                below <= n,
                first_not_below(c, min_snapshot, 0) == first_not_below(
                    c,
                    min_snapshot,
                    below as int,
                ),
            decreases n - below,
        {
            below += 1;
        }
        let removed: usize = if n > 0 && below >= n {
            n - 1
        } else {
            below
        };
        proof {
            lemma_prune_count(c, min_snapshot);
            if strictly_ascending(c) {
                law_prune_drops_what_is_below(c, min_snapshot);
            }
        }
        let kept = self.entries.split_off(removed);
        self.entries = kept;
        proof {
            assert(self@.entries =~= c.skip(removed as int));
        }
        removed
    }
}

impl Row for VersionChain {
    fn copy_row(&self) -> (r: Self) {
        self.clone()
    }
}

} // verus!
