//! Version chains in the local store: snapshot reads, atomic appends and
//! pruning.

use crate::history::{lemma_superseded, pruned_history, superseded};
use crate::order::{
    compare_text, lemma_text_irreflexive, lemma_text_transitive, text_before, KeyOrder,
};
use crate::store::{clamped, min_snapshot, LocalStore, RecordVersionId, StoreView};
use crate::table::{ascending, key_set, listing, lists, pair_views, Table, TableKey};
use crate::text::{decimal, decimal_text};
use crate::txn_state::StoredRecordVersionView;
use crate::types::{ErrorKind, XtableError, XtableResult};
use crate::version_chain::{
    latest_version, prune_count, pruned, visible_entry, Chain, VersionChain, VersionChainView,
    VersionEntry, VersionEntryView,
};
use vstd::prelude::*;

verus! {

/// Chains by key.
pub type Chains = Map<Seq<char>, VersionChainView>;

/// The chain of a key, empty if there is none.
pub open spec fn chain_at(chains: Chains, key: Seq<char>) -> VersionChainView {
    if chains.contains_key(key) {
        chains[key]
    } else {
        VersionChainView { key, entries: Seq::empty() }
    }
}

/// `chain` with `entry` as its newest entry.
pub open spec fn extended(chain: VersionChainView, entry: VersionEntryView) -> VersionChainView {
    VersionChainView { entries: chain.entries.push(entry), ..chain }
}

/// Message of an append that is not newer than the chain.
pub open spec fn not_monotonic_text(latest: u64, new: u64) -> Seq<char> {
    "chain append not monotonic: latest="@ + decimal(latest as nat) + " new="@ + decimal(
        new as nat,
    )
}

/// Message of a bulk append that is not newer than the chain.
pub open spec fn bulk_not_monotonic_text(key: Seq<char>, latest: u64, new: u64) -> Seq<char> {
    "chain append not monotonic for key "@ + key + ": latest="@ + decimal(latest as nat)
        + " new="@ + decimal(new as nat)
}

/// Message of a write that lost against a newer version.
pub open spec fn snapshot_conflict_text(key: Seq<char>, snapshot: u64, latest: u64) -> Seq<char> {
    key + ": snapshot "@ + decimal(snapshot as nat) + " < chain latest "@ + decimal(latest as nat)
}

/// Builds the message of a write that lost against a newer version.
pub fn snapshot_conflict_message(key: &str, snapshot: u64, latest: u64) -> (r: String)
    ensures
        r@ == snapshot_conflict_text(key@, snapshot, latest),
{
    let mut m = key.to_owned();
    m.append(": snapshot ");
    m.append(decimal_text(snapshot).as_str());
    m.append(" < chain latest ");
    m.append(decimal_text(latest).as_str());
    m
}

/// One append of a bulk: the key, the entry, and the snapshot that its
/// transaction read at.
pub type ChainUpdate = (Seq<char>, VersionEntryView, u64);

/// Views of the appends of a bulk.
pub open spec fn update_views(s: Seq<(String, VersionEntry, u64)>) -> Seq<ChainUpdate> {
    s.map_values(|u: (String, VersionEntry, u64)| (u.0@, u.1@, u.2))
}

/// `a` comes before `b` in a bulk: by key, then by version.
pub open spec fn update_before(a: ChainUpdate, b: ChainUpdate) -> bool {
    text_before(a.0, b.0) || (a.0 == b.0 && a.1.commit_version < b.1.commit_version)
}

/// Inserts an append behind all those that do not come after it.
pub open spec fn insert_update(s: Seq<ChainUpdate>, u: ChainUpdate) -> Seq<ChainUpdate>
    decreases s.len(),
{
    if s.len() > 0 && update_before(u, s.last()) {
        insert_update(s.drop_last(), u).push(s.last())
    } else {
        s.push(u)
    }
}

/// The first `n` appends in the order in which a bulk applies them.
pub open spec fn sort_updates(s: Seq<ChainUpdate>, n: nat) -> Seq<ChainUpdate>
    decreases n,
{
    if n == 0 {
        Seq::empty()
    } else {
        insert_update(sort_updates(s, (n - 1) as nat), s[n - 1])
    }
}

/// The append repeats the newest entry of the chain.
pub open spec fn repeats_newest(chain: Chain, e: VersionEntryView) -> bool {
    &&& chain.len() > 0
    &&& chain.last().commit_version == e.commit_version
    &&& chain.last().txn_id == e.txn_id
    &&& chain.last().backend_key == e.backend_key
    &&& chain.last().deleted == e.deleted
}

/// One append: refused if the chain has a version newer than the snapshot or
/// not older than the entry, without effect if it repeats the newest entry.
pub open spec fn apply_update(chains: Chains, u: ChainUpdate) -> Result<
    Chains,
    (ErrorKind, Seq<char>),
> {
    let chain = chain_at(chains, u.0);
    let latest = latest_version(chain.entries);
    if chain.entries.len() > 0 && latest > u.2 {
        Err((ErrorKind::Conflict, snapshot_conflict_text(u.0, u.2, latest)))
    } else if repeats_newest(chain.entries, u.1) {
        Ok(chains)
    } else if chain.entries.len() > 0 && u.1.commit_version <= latest {
        Err((ErrorKind::Internal, bulk_not_monotonic_text(u.0, latest, u.1.commit_version)))
    } else {
        Ok(chains.insert(u.0, extended(chain, u.1)))
    }
}

/// The appends from position `i` on, one after the other, until one is
/// refused.
pub open spec fn apply_updates(chains: Chains, s: Seq<ChainUpdate>, i: int) -> Result<
    Chains,
    (ErrorKind, Seq<char>),
>
    decreases s.len() - i,
{
    if 0 <= i < s.len() {
        match apply_update(chains, s[i]) {
            Ok(next) => apply_updates(next, s, i + 1),
            Err(e) => Err(e),
        }
    } else {
        Ok(chains)
    }
}

/// What a bulk append makes of the chains.
pub open spec fn bulk_result(chains: Chains, s: Seq<ChainUpdate>) -> Result<
    Chains,
    (ErrorKind, Seq<char>),
> {
    apply_updates(chains, sort_updates(s, s.len()), 0)
}

/// The bound below which a run prunes one chain: the requested threshold, but
/// never above the version that a reader at the least active snapshot sees.
pub open spec fn chain_bound(c: Chain, active: u64, requested: Option<u64>) -> u64 {
    let anchor = match visible_entry(c, active) {
        Some(e) => e.commit_version,
        None => active,
    };
    match requested {
        Some(r) => if r < anchor {
            r
        } else {
            anchor
        },
        None => anchor,
    }
}

/// A chain after a pruning run.
pub open spec fn chain_after_gc(
    c: VersionChainView,
    active: u64,
    requested: Option<u64>,
) -> VersionChainView {
    VersionChainView {
        entries: pruned(c.entries, chain_bound(c.entries, active, requested)),
        ..c
    }
}

/// Chains after a pruning run.
pub open spec fn pruned_chains(chains: Chains, active: u64, requested: Option<u64>) -> Chains {
    Map::new(
        |k: Seq<char>| chains.contains_key(k),
        |k: Seq<char>| chain_after_gc(chains[k], active, requested),
    )
}

/// The chains in the order of their keys.
pub open spec fn chain_rows(s: StoreView) -> Seq<(Seq<char>, VersionChainView)> {
    listing::<String, VersionChainView>(s.chains)
}

/// Number of entries that a run removes from the first `n` chains.
pub open spec fn pruned_total(
    rows: Seq<(Seq<char>, VersionChainView)>,
    active: u64,
    requested: Option<u64>,
    n: nat,
) -> nat
    decreases n,
{
    if n == 0 {
        0
    } else {
        let c = rows[n - 1].1.entries;
        pruned_total(rows, active, requested, (n - 1) as nat) + prune_count(
            c,
            chain_bound(c, active, requested),
        ) as nat
    }
}

/// The counts of a pruning run: chains visited, and entries removed.
pub open spec fn gc_counts(s: StoreView, requested: Option<u64>, r: (usize, usize)) -> bool {
    let rows = chain_rows(s);
    &&& r.0 == rows.len()
    &&& r.1 == clamped(
        pruned_total(rows, min_snapshot(s.snapshots), requested, rows.len()),
    )
}

/// The threshold of a pruning run for the record history: no pinned snapshot
/// may be passed.
pub open spec fn prune_threshold(s: StoreView, requested: Option<u64>) -> u64 {
    let active = min_snapshot(s.snapshots);
    match requested {
        Some(r) => if r < active {
            r
        } else {
            active
        },
        None => active,
    }
}

/// The store after a pruning run.
pub open spec fn after_gc(s: StoreView, requested: Option<u64>) -> StoreView {
    StoreView {
        chains: pruned_chains(s.chains, min_snapshot(s.snapshots), requested),
        record_versions: pruned_history(s.record_versions, prune_threshold(s, requested)),
        ..s
    }
}

proof fn lemma_insert_update_at(s: Seq<ChainUpdate>, u: ChainUpdate, n: nat, k: nat)
    requires
        k <= n <= s.len(),
        forall|i: int| k <= i < n ==> update_before(u, #[trigger] s[i]),
        k > 0 ==> !update_before(u, s[k - 1]),
    ensures
        insert_update(s.take(n as int), u) == s.take(n as int).insert(k as int, u),
    decreases n,
{
    let t = s.take(n as int);
    if n > k {
        assert(t.last() == s[n - 1]);
        assert(t.drop_last() =~= s.take(n - 1));
        lemma_insert_update_at(s, u, (n - 1) as nat, k);
        assert(s.take(n - 1).insert(k as int, u).push(t.last()) =~= t.insert(k as int, u));
    } else {
        if n > 0 {
            assert(t.last() == s[n - 1]);
        }
        assert(t.push(u) =~= t.insert(n as int, u));
    }
}

/// Whether `a` comes before `b` in a bulk.
fn update_comes_before(
    a: &(String, VersionEntry, u64),
    b: &(String, VersionEntry, u64),
) -> (r: bool)
    ensures
        r == update_before((a.0@, a.1@, a.2), (b.0@, b.1@, b.2)),
{
    match compare_text(a.0.as_str(), b.0.as_str()) {
        KeyOrder::Less => true,
        KeyOrder::Equal => {
            proof { lemma_text_irreflexive(a.0@); }
            a.1.commit_version < b.1.commit_version
        },
        KeyOrder::Greater => {
            proof {
                if text_before(a.0@, b.0@) {
                    lemma_text_transitive(a.0@, b.0@, a.0@);
                }
                lemma_text_irreflexive(a.0@);
            }
            false
        },
    }
}

/// A copy of the appends in the order in which a bulk applies them.
fn sorted_updates(entries: &Vec<(String, VersionEntry, u64)>) -> (r: Vec<
    (String, VersionEntry, u64),
>)
    ensures
        update_views(r@) == sort_updates(update_views(entries@), entries@.len()),
{
    let ghost us = update_views(entries@);
    let mut out: Vec<(String, VersionEntry, u64)> = Vec::new();
    let mut i: usize = 0;
    assert(update_views(out@) =~= sort_updates(us, 0));
    while i < entries.len()
        invariant
            i <= entries.len(),
            us == update_views(entries@),
            update_views(out@) == sort_updates(us, i as nat),
        decreases entries.len() - i,
    {
        let e = &entries[i];
        let item = (e.0.clone(), e.1.clone(), e.2);
        let ghost before = update_views(out@);
        let ghost u = us[i as int];
        let mut n: usize = out.len();
        while n > 0 && update_comes_before(&item, &out[n - 1])
            invariant
                n <= out.len(),
                before == update_views(out@),
                u == (item.0@, item.1@, item.2),
                forall|j: int| n <= j < before.len() ==> update_before(u, #[trigger] before[j]),
            decreases n,
        {
            n -= 1;
        }
        proof {
            lemma_insert_update_at(before, u, before.len(), n as nat);
            assert(before.take(before.len() as int) =~= before);
        }
        out.insert(n, item);
        assert(update_views(out@) =~= before.insert(n as int, u));
        i += 1;
    }
    out
}

impl LocalStore {
    /// The full chain of a key.
    pub fn read_chain(&self, key: &str) -> (r: VersionChain)
        ensures
            r@ == chain_at(self@.chains, key@),
    {
        match self.chains.fetch(&key.to_owned()) {
            Some(c) => c,
            None => VersionChain::new(key.to_owned()),
        }
    }

    /// The newest entry of a key that is visible at `snapshot`.
    pub fn read_at_snapshot(&self, key: &str, snapshot: u64) -> (r: Option<VersionEntry>)
        ensures
            match r {
                Some(e) => visible_entry(chain_at(self@.chains, key@).entries, snapshot) == Some(
                    e@,
                ),
                None => visible_entry(chain_at(self@.chains, key@).entries, snapshot) is None,
            },
    {
        let chain = self.read_chain(key);
        match chain.read_at_snapshot(snapshot) {
            Some(e) => Some(e.clone()),
            None => None,
        }
    }

    /// The newest entry of a key.
    pub fn read_latest(&self, key: &str) -> (r: Option<VersionEntry>)
        ensures
            match r {
                Some(e) => chain_at(self@.chains, key@).entries.len() > 0 && e@ == chain_at(
                    self@.chains,
                    key@,
                ).entries.last(),
                None => chain_at(self@.chains, key@).entries.len() == 0,
            },
    {
        let chain = self.read_chain(key);
        let n: usize = chain.entries.len();
        if n == 0 {
            None
        } else {
            Some(chain.entries[n - 1].clone())
        }
    }

    /// Appends an entry to a key's chain; refuses one that is not newer than
    /// the chain.
    pub fn append_chain_entry(&mut self, key: &str, entry: &VersionEntry) -> (r: XtableResult<()>)
        ensures
            ({
                let chain = chain_at(old(self)@.chains, key@);
                let latest = latest_version(chain.entries);
                if chain.entries.len() > 0 && entry.commit_version <= latest {
                    &&& r matches Err(e) && e@ == (
                        ErrorKind::Internal,
                        not_monotonic_text(latest, entry.commit_version),
                    )
                    &&& final(self)@ == old(self)@
                } else {
                    &&& r is Ok
                    &&& final(self)@ == (StoreView {
                        chains: old(self)@.chains.insert(key@, extended(chain, entry@)),
                        ..old(self)@
                    })
                }
            }),
    {
        let mut chain = self.read_chain(key);
        let latest = chain.latest_commit_version();
        if chain.entries.len() > 0 && entry.commit_version <= latest {
            let mut m = "chain append not monotonic: latest=".to_owned();
            m.append(decimal_text(latest).as_str());
            m.append(" new=");
            m.append(decimal_text(entry.commit_version).as_str());
            return Err(XtableError::internal(m));
        }
        chain.append(entry.clone());
        self.chains.insert(key.to_owned(), chain);
        Ok(())
    }

    /// Appends several entries, all or none. Each is checked against the
    /// snapshot of its transaction: a chain that has moved past it refuses the
    /// whole bulk.
    pub fn append_chain_entries_bulk(&mut self, entries: &Vec<(String, VersionEntry, u64)>) -> (r:
        XtableResult<()>)
        ensures
            match bulk_result(old(self)@.chains, update_views(entries@)) {
                Ok(chains) => r is Ok && final(self)@ == (StoreView { chains, ..old(self)@ }),
                Err(x) => (r matches Err(e) && e@ == x) && final(self)@ == old(self)@,
            },
    {
        let sorted = sorted_updates(entries);
        let ghost us = update_views(sorted@);
        let ghost m = self.chains@;
        let ghost whole = apply_updates(m, us, 0);
        let mut staged: Table<String, VersionChain> = Table::new();
        assert(m.union_prefer_right(staged@) =~= m);
        let mut i: usize = 0;
        while i < sorted.len()
            invariant
                i <= sorted.len(),
                *self == *old(self),
                m == self.chains@,
                us == update_views(sorted@),
                whole == apply_updates(m.union_prefer_right(staged@), us, i as int),
                whole == bulk_result(old(self)@.chains, update_views(entries@)),
            decreases sorted.len() - i,
        {
            let key = &sorted[i].0;
            let entry = &sorted[i].1;
            let snapshot: u64 = sorted[i].2;
            let ghost cur = m.union_prefer_right(staged@);
            let ghost u = us[i as int];
            assert(u == (key@, entry@, snapshot));
            let mut chain = match staged.fetch(key) {
                Some(c) => c,
                None => self.read_chain(key.as_str()),
            };
            assert(chain@ == chain_at(cur, key@));
            let latest = chain.latest_commit_version();
            let n: usize = chain.entries.len();
            if n > 0 && latest > snapshot {
                return Err(
                    XtableError::Conflict(snapshot_conflict_message(key.as_str(), snapshot, latest)),
                );
            }
            let repeated = n > 0 && entry.commit_version == latest && crate::order::same_text(
                chain.entries[n - 1].txn_id.as_str(),
                entry.txn_id.as_str(),
            ) && crate::order::same_text(
                chain.entries[n - 1].backend_key.as_str(),
                entry.backend_key.as_str(),
            ) && chain.entries[n - 1].deleted == entry.deleted;
            assert(repeated == repeats_newest(chain@.entries, entry@));
            if !repeated {
                if n > 0 && entry.commit_version <= latest {
                    let mut msg = "chain append not monotonic for key ".to_owned();
                    msg.append(key.as_str());
                    msg.append(": latest=");
                    msg.append(decimal_text(latest).as_str());
                    msg.append(" new=");
                    msg.append(decimal_text(entry.commit_version).as_str());
                    return Err(XtableError::internal(msg));
                }
                let ghost before = staged@;
                chain.append(entry.clone());
                let ghost cv = chain@;
                staged.insert(key.clone(), chain);
                assert(m.union_prefer_right(staged@) =~= m.union_prefer_right(before).insert(
                    key@,
                    cv,
                ));
            }
            i += 1;
        }
        self.chains.absorb(staged);
        Ok(())
    }

    /// All chains, in key order.
    pub fn iter_all_chains(&self) -> (r: Vec<(String, VersionChain)>)
        ensures
            lists::<String, VersionChainView>(pair_views(r@), self@.chains),
    {
        self.chains.list()
    }

    /// Prunes chain entries below `min_snapshot` that are not the newest, and
    /// the record history likewise, but nothing that a reader at a pinned
    /// snapshot sees. Returns the number of chains visited and of entries
    /// removed from them.
    pub fn gc_chains(&mut self, min_snapshot: u64) -> (r: (usize, usize))
        ensures
            final(self)@ == after_gc(old(self)@, Some(min_snapshot)),
            gc_counts(old(self)@, Some(min_snapshot), r),
    {
        self.gc_chains_inner(Some(min_snapshot))
    }

    /// Prunes chains and record history up to the smallest pinned snapshot.
    pub fn gc_chains_at_active_snapshot(&mut self) -> (r: (usize, usize))
        ensures
            final(self)@ == after_gc(old(self)@, None),
            gc_counts(old(self)@, None, r),
    {
        self.gc_chains_inner(None)
    }

    /// Prunes every chain; returns the number of entries removed.
    fn prune_chains(&mut self, active: u64, requested: Option<u64>) -> (removed: usize)
        ensures
            final(self)@ == (StoreView {
                chains: pruned_chains(old(self)@.chains, active, requested),
                ..old(self)@
            }),
            final(self).chains.rows().len() == old(self).chains.rows().len(),
            removed == clamped(
                pruned_total(
                    old(self).chains.rows(),
                    active,
                    requested,
                    old(self).chains.rows().len(),
                ),
            ),
    {
        let n = self.chains.len();
        let ghost rows = self.chains.rows();
        let ghost m = self.chains@;
        let mut total: usize = 0;
        let mut i: usize = 0;
        while i < n
            invariant
                i <= n,
                n == rows.len(),
                rows == old(self).chains.rows(),
                m == old(self)@.chains,
                ascending::<String, VersionChainView>(rows),
                forall|p: int|
                    0 <= p < rows.len() ==> m.contains_key((#[trigger] rows[p]).0)
                        && m[rows[p].0] == rows[p].1,
                self.chains.rows().len() == n,
                forall|p: int| i <= p < n ==> #[trigger] self.chains.rows()[p] == rows[p],
                forall|p: int|
                    0 <= p < n ==> (#[trigger] self.chains.rows()[p]).0 == rows[p].0,
                self@ == (StoreView { chains: self.chains@, ..old(self)@ }),
                forall|k: Seq<char>| #[trigger]
                    self.chains@.contains_key(k) <==> m.contains_key(k),
                forall|p: int|
                    0 <= p < n ==> self.chains@[(#[trigger] rows[p]).0] == (if p < i {
                        chain_after_gc(rows[p].1, active, requested)
                    } else {
                        rows[p].1
                    }),
                total == clamped(pruned_total(rows, active, requested, i as nat)),
            decreases n - i,
        {
            let mut chain = self.chains.value_at(i).clone();
            assert(self.chains.rows()[i as int] == rows[i as int]);
            let anchor: u64 = match chain.read_at_snapshot(active) {
                Some(e) => e.commit_version,
                None => active,
            };
            let bound: u64 = match requested {
                Some(r) => if r < anchor {
                    r
                } else {
                    anchor
                },
                None => anchor,
            };
            assert(bound == chain_bound(chain@.entries, active, requested));
            let removed = chain.prune_below(bound);
            let ghost before = self.chains@;
            let ghost before_rows = self.chains.rows();
            self.chains.set_value_at(i, chain);
            proof {
                let ki = rows[i as int].0;
                assert(before_rows[i as int].0 == ki);
                assert forall|p: int| 0 <= p < n implies self.chains@[(#[trigger] rows[p]).0] == (
                if p < i + 1 {
                    chain_after_gc(rows[p].1, active, requested)
                } else {
                    rows[p].1
                }) by {
                    if p != i {
                        lemma_text_irreflexive(ki);
                        if p < i {
                            assert(String::before(rows[p].0, ki));
                        } else {
                            assert(String::before(ki, rows[p].0));
                        }
                    }
                }
            }
            if removed as u128 + total as u128 <= usize::MAX as u128 {
                total = total + removed;
            } else {
                total = usize::MAX;
            }
            i += 1;
        }
        proof {
            let target = pruned_chains(m, active, requested);
            assert forall|k: Seq<char>| #[trigger]
                target.contains_key(k) implies target[k] == self.chains@[k] by {
                let p = choose|p: int| 0 <= p < rows.len() && (#[trigger] rows[p]).0 == k;
                assert(self.chains@[rows[p].0] == target[k]);
            }
            assert(target =~= self.chains@);
        }
        total
    }

    /// Prunes the record history.
    fn prune_history(&mut self, min: u64)
        ensures
            final(self)@ == (StoreView {
                record_versions: pruned_history(old(self)@.record_versions, min),
                ..old(self)@
            }),
    {
        let n = self.record_versions.len();
        let ghost rows = self.record_versions.rows();
        let ghost m = self.record_versions@;
        let mut gone: Vec<(String, String, String, u64)> = Vec::new();
        let mut i: usize = 0;
        while i < n
            invariant
                i <= n,
                n == rows.len(),
                *self == *old(self),
                rows == self.record_versions.rows(),
                m == self.record_versions@,
                ascending::<(String, String, String, u64), StoredRecordVersionView>(rows),
                forall|p: int|
                    0 <= p < rows.len() ==> m.contains_key((#[trigger] rows[p]).0)
                        && m[rows[p].0] == rows[p].1,
                forall|k: RecordVersionId| #[trigger]
                    m.contains_key(k) ==> exists|p: int|
                        0 <= p < rows.len() && (#[trigger] rows[p]).0 == k,
                forall|p: int|
                    0 <= p < i && superseded(m, (#[trigger] rows[p]).0, min) ==> key_set(
                        gone@,
                    ).contains(rows[p].0),
                forall|g: int|
                    0 <= g < gone@.len() ==> superseded(m, (#[trigger] gone@[g])@, min),
            decreases n - i,
        {
            let key = self.record_versions.key_at(i);
            let drop: bool = if i + 1 < n {
                let next = self.record_versions.key_at(i + 1);
                next.3 <= min && crate::order::same_text(key.0.as_str(), next.0.as_str())
                    && crate::order::same_text(key.1.as_str(), next.1.as_str())
                    && crate::order::same_text(key.2.as_str(), next.2.as_str())
            } else {
                false
            };
            proof {
                lemma_superseded(m, rows, i as int, min);
            }
            if drop {
                let ghost before = gone@;
                gone.push(key.duplicate());
                proof {
                    let after = gone@;
                    assert(after[before.len() as int]@ == rows[i as int].0);
                    assert forall|p: int| 0 <= p < i + 1 && superseded(
                        m,
                        (#[trigger] rows[p]).0,
                        min,
                    ) implies key_set(after).contains(rows[p].0) by {
                        if p < i {
                            assert(key_set(before).contains(rows[p].0));
                            let w = choose|w: int|
                                0 <= w < before.len() && (#[trigger] before[w])@ == rows[p].0;
                            assert(after[w]@ == rows[p].0);
                        }
                    }
                }
            }
            i += 1;
        }
        self.record_versions.remove_all(&gone);
        proof {
            let target = pruned_history(m, min);
            assert forall|k: RecordVersionId| #[trigger] m.contains_key(k) implies (key_set(
                gone@,
            ).contains(k) <==> superseded(m, k, min)) by {
                let p = choose|p: int| 0 <= p < rows.len() && (#[trigger] rows[p]).0 == k;
                assert(rows[p].0 == k);
                if key_set(gone@).contains(k) {
                    let g = choose|g: int| 0 <= g < gone@.len() && (#[trigger] gone@[g])@ == k;
                    assert(superseded(m, gone@[g]@, min));
                }
            }
            assert(self.record_versions@ =~= target);
        }
    }

    fn gc_chains_inner(&mut self, requested_min: Option<u64>) -> (r: (usize, usize))
        ensures
            final(self)@ == after_gc(old(self)@, requested_min),
            gc_counts(old(self)@, requested_min, r),
    {
        let visited = self.chains.len();
        let active_min = self.min_active_snapshot();
        let min: u64 = match requested_min {
            Some(requested) => if requested < active_min {
                requested
            } else {
                active_min
            },
            None => active_min,
        };
        let removed = self.prune_chains(active_min, requested_min);
        self.prune_history(min);
        (visited, removed)
    }
}

} // verus!
