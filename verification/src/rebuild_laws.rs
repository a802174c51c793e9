//! Laws of a cold rebuild, said of the entries in the chunk files: what the
//! indexes, the history and the chains hold of each afterwards.

use crate::chunk::{p_body, p_entries, p_file_footer, p_header, ChunkEntryView};
use crate::order::{lemma_text_irreflexive, lemma_text_total, lemma_text_transitive, text_before};
use crate::outcome_laws::{entries_at, lemma_insert_keeps_others};
use crate::rebuild::{
    chain_updates, chunk_of, found_chunks, found_id, found_in, found_key, found_latest, found_max,
    found_record, found_versions, history_rows, latest_records, latest_rows, latest_versions,
    lemma_found_latest, lemma_found_latest_keys, lemma_found_latest_of, lemma_found_max,
    lemma_insert_all, lemma_sort_found_contains, rebuilt, sort_found, FoundVersionView,
    ListedObjectView,
};
use crate::restore_laws::lemma_found_has;
use crate::store::{insert_all, RecordVersionId, StoreView};
use crate::store_chains::{
    apply_update, apply_updates, chain_at, insert_update, sort_updates, update_before, ChainUpdate,
    Chains,
};
use crate::store_laws::{lemma_insert_update_contains, lemma_sort_contains};
use crate::table::{lemma_finite_listing, lemma_listed, rows_map};
use crate::types::Version;
use crate::version_chain::VersionEntryView;
use vstd::prelude::*;

verus! {

// ----- what the objects hold -----

/// The object is a chunk file with the id that was fetched and can be read, and
/// `e` is one of its entries.
pub open spec fn holds_entry(o: ListedObjectView, id: Seq<char>, e: ChunkEntryView) -> bool {
    let file = o.bytes->0;
    &&& o.key.len() >= ".xtc"@.len()
    &&& o.key.skip(o.key.len() - ".xtc"@.len()) == ".xtc"@
    &&& o.bytes is Some
    &&& p_header(file) is Some
    &&& (p_header(file)->0).0.chunk_id == id
    &&& p_body(file) is Some
    &&& p_entries(p_body(file)->0, Seq::empty()) is Some
    &&& p_entries(p_body(file)->0, Seq::empty())->0.contains(e)
}

/// Some object holds the entry.
pub open spec fn held(objects: Seq<ListedObjectView>, e: ChunkEntryView) -> bool {
    exists|o: int, id: Seq<char>|
        0 <= o < objects.len() && #[trigger] holds_entry(objects[o], id, e)
}

/// Key of the entry's record among versions and chains.
pub open spec fn key_text(e: ChunkEntryView) -> Seq<char> {
    "_xtable/"@ + e.space + "/"@ + e.table + "/"@ + e.record_id
}

/// The two entries are of the same record.
pub open spec fn same_record(a: ChunkEntryView, b: ChunkEntryView) -> bool {
    a.space == b.space && a.table == b.table && a.record_id == b.record_id
}

/// The found version is an entry of an object.
spec fn found_from(objects: Seq<ListedObjectView>, h: FoundVersionView, o: int) -> bool {
    &&& 0 <= o < objects.len()
    &&& holds_entry(objects[o], h.chunk_id, h.entry)
    &&& h.chunk_s3_key == objects[o].key
    &&& h.etag == objects[o].etag
}

proof fn lemma_found_comes_from(objects: Seq<ListedObjectView>, n: nat, h: FoundVersionView)
    requires
        n <= objects.len(),
        found_versions(objects, n).contains(h),
    ensures
        exists|o: int| #[trigger] found_from(objects, h, o),
    decreases n,
{
    let all = found_versions(objects, n);
    let j = choose|j: int| 0 <= j < all.len() && all[j] == h;
    if n > 0 {
        let done = found_versions(objects, (n - 1) as nat);
        if j < done.len() {
            assert(all[j] == done[j]);
            assert(done.contains(h));
            lemma_found_comes_from(objects, (n - 1) as nat, h);
        } else {
            let o = objects[n - 1];
            let c = chunk_of(o)->0;
            assert(all[j] == found_in(o, c)[j - done.len()]);
            assert(h.entry == c.entries[j - done.len()]);
            assert(c.entries.contains(h.entry));
            reveal(chunk_of);
            assert(found_from(objects, h, n - 1));
        }
    }
}

proof fn lemma_held_is_found(
    objects: Seq<ListedObjectView>,
    o: int,
    id: Seq<char>,
    e: ChunkEntryView,
)
    requires
        0 <= o < objects.len(),
        holds_entry(objects[o], id, e),
    ensures
        found_versions(objects, objects.len()).contains(
            FoundVersionView {
                entry: e,
                chunk_s3_key: objects[o].key,
                chunk_id: id,
                etag: objects[o].etag,
            },
        ),
{
    reveal(chunk_of);
    let c = chunk_of(objects[o])->0;
    assert(chunk_of(objects[o]) is Some);
    let i = choose|i: int| 0 <= i < c.entries.len() && c.entries[i] == e;
    lemma_found_has(objects, objects.len(), o, i);
    assert(found_in(objects[o], c)[i].entry == e);
}

// ----- what an append in order leaves -----

/// No update comes before one at an earlier position.
spec fn in_update_order(s: Seq<ChainUpdate>) -> bool {
    forall|i: int, j: int|
        0 <= i < j < s.len() ==> !update_before(#[trigger] s[j], #[trigger] s[i])
}

proof fn lemma_not_before(u: ChainUpdate, last: ChainUpdate, x: ChainUpdate)
    requires
        !update_before(u, last),
        !update_before(last, x),
    ensures
        !update_before(u, x),
{
    lemma_text_total(u.0, last.0);
    lemma_text_total(last.0, x.0);
    if text_before(u.0, x.0) {
        if text_before(last.0, u.0) {
            lemma_text_transitive(last.0, u.0, x.0);
        }
    }
    if u.0 == x.0 && last.0 != x.0 {
        lemma_text_irreflexive(x.0);
        if text_before(last.0, u.0) {
        } else {
            assert(text_before(u.0, last.0));
        }
    }
}

proof fn lemma_insert_in_order(s: Seq<ChainUpdate>, u: ChainUpdate)
    requires
        in_update_order(s),
    ensures
        in_update_order(insert_update(s, u)),
    decreases s.len(),
{
    let r = insert_update(s, u);
    if s.len() > 0 && update_before(u, s.last()) {
        let d = s.drop_last();
        let inner = insert_update(d, u);
        assert(in_update_order(d)) by {
            assert forall|i: int, j: int| 0 <= i < j < d.len() implies !update_before(
                #[trigger] d[j],
                #[trigger] d[i],
            ) by {
                assert(d[i] == s[i] && d[j] == s[j]);
            }
        }
        lemma_insert_in_order(d, u);
        assert forall|i: int, j: int| 0 <= i < j < r.len() implies !update_before(
            #[trigger] r[j],
            #[trigger] r[i],
        ) by {
            assert(r[i] == inner[i]);
            if j < inner.len() {
                assert(r[j] == inner[j]);
            } else {
                let last = s[s.len() - 1];
                assert(r[j] == last);
                assert(inner.contains(inner[i]));
                lemma_insert_update_contains(d, u, inner[i]);
                if inner[i] == u {
                    if update_before(last, u) {
                        if text_before(last.0, u.0) && text_before(u.0, last.0) {
                            lemma_text_transitive(last.0, u.0, last.0);
                        }
                        lemma_text_irreflexive(last.0);
                        lemma_text_irreflexive(u.0);
                    }
                } else {
                    let k = choose|k: int| 0 <= k < d.len() && d[k] == inner[i];
                    assert(!update_before(s[s.len() - 1], s[k]));
                }
            }
        }
    } else {
        assert forall|i: int, j: int| 0 <= i < j < r.len() implies !update_before(
            #[trigger] r[j],
            #[trigger] r[i],
        ) by {
            if j < s.len() {
                assert(r[i] == s[i] && r[j] == s[j]);
            } else {
                let last = s[s.len() - 1];
                assert(r[i] == s[i] && r[j] == u);
                if i < s.len() - 1 {
                    assert(!update_before(s[s.len() - 1], s[i]));
                    lemma_not_before(u, last, s[i]);
                }
            }
        }
    }
}

proof fn lemma_sort_in_order(s: Seq<ChainUpdate>, n: nat)
    requires
        n <= s.len(),
    ensures
        in_update_order(sort_updates(s, n)),
    decreases n,
{
    if n > 0 {
        lemma_sort_in_order(s, (n - 1) as nat);
        lemma_insert_in_order(sort_updates(s, (n - 1) as nat), s[n - 1]);
    }
}

/// The two entries agree in version, transaction, object and delete flag.
pub open spec fn entries_agree(a: VersionEntryView, b: VersionEntryView) -> bool {
    &&& a.commit_version == b.commit_version
    &&& a.txn_id == b.txn_id
    &&& a.backend_key == b.backend_key
    &&& a.deleted == b.deleted
}

/// With the newest entry of a chain at `version`, no update of the key up to
/// `at`, at versions not above it, changes the chain, and the one at `at`
/// agrees with the newest entry.
proof fn lemma_updates_repeat(chains: Chains, s: Seq<ChainUpdate>, i: int, at: int)
    requires
        0 <= i <= at < s.len(),
        apply_updates(chains, s, i) is Ok,
        entries_at(chains, s[at].0).len() > 0,
        forall|j: int|
            i <= j <= at && (#[trigger] s[j]).0 == s[at].0 ==> s[j].1.commit_version <= entries_at(
                chains,
                s[at].0,
            ).last().commit_version,
    ensures
        entries_agree(entries_at(chains, s[at].0).last(), s[at].1),
    decreases at - i,
{
    let mid = apply_update(chains, s[i])->Ok_0;
    assert(entries_at(chains, s[at].0) == chain_at(chains, s[at].0).entries);
    if i < at {
        assert(s[i].0 == s[at].0 ==> mid == chains);
        assert(entries_at(mid, s[at].0) == entries_at(chains, s[at].0));
        lemma_updates_repeat(mid, s, i + 1, at);
    } else {
        assert(s[at].1.commit_version <= entries_at(chains, s[at].0).last().commit_version);
    }
}

/// The chain of a key does not change while all updates of the key are at
/// versions not above its newest.
proof fn lemma_updates_idle(chains: Chains, s: Seq<ChainUpdate>, i: int, key: Seq<char>)
    requires
        0 <= i <= s.len(),
        apply_updates(chains, s, i) is Ok,
        entries_at(chains, key).len() > 0,
        forall|j: int|
            i <= j < s.len() && (#[trigger] s[j]).0 == key ==> s[j].1.commit_version <= entries_at(
                chains,
                key,
            ).last().commit_version,
    ensures
        entries_at(apply_updates(chains, s, i)->Ok_0, key) == entries_at(chains, key),
    decreases s.len() - i,
{
    if i < s.len() {
        let mid = apply_update(chains, s[i])->Ok_0;
        assert(entries_at(chains, key) == chain_at(chains, key).entries);
        assert(s[i].0 == key ==> mid == chains);
        assert(entries_at(mid, key) == entries_at(chains, key));
        lemma_updates_idle(mid, s, i + 1, key);
    }
}

/// After updates in order, the newest entry of the chain agrees with an update
/// of the key at its highest version. It is such an update, or it was the
/// newest before.
proof fn lemma_newest_after(chains: Chains, s: Seq<ChainUpdate>, i: int, at: int)
    requires
        0 <= i <= at < s.len(),
        in_update_order(s),
        apply_updates(chains, s, i) is Ok,
        forall|j: int|
            0 <= j < s.len() && (#[trigger] s[j]).0 == s[at].0 ==> s[j].1.commit_version
                <= s[at].1.commit_version,
    ensures
        ({
            let key = s[at].0;
            let a = entries_at(chains, key);
            let b = entries_at(apply_updates(chains, s, i)->Ok_0, key);
            &&& b.len() > 0
            &&& entries_agree(b.last(), s[at].1)
            &&& (a.len() > 0 && b.last() == a.last()) || exists|j: int|
                0 <= j < s.len() && (#[trigger] s[j]).0 == key && s[j].1 == b.last()
        }),
    decreases at - i,
{
    let key = s[at].0;
    let mid = apply_update(chains, s[i])->Ok_0;
    let a = entries_at(chains, key);
    let m = entries_at(mid, key);
    assert(a == chain_at(chains, key).entries);
    assert(m == chain_at(mid, key).entries);
    if i == at {
        assert(m.len() > 0 && entries_agree(m.last(), s[at].1));
        assert(m == a || m.last() == s[at].1);
        lemma_updates_idle(mid, s, i + 1, key);
    } else {
        lemma_newest_after(mid, s, i + 1, at);
        let b = entries_at(apply_updates(chains, s, i)->Ok_0, key);
        if m.len() > 0 && b.last() == m.last() && m != a {
            assert(s[i].0 == key && s[i].1 == m.last());
        }
    }
}

/// Of two updates of one version of a key in a successful append, in order,
/// each agrees with the other.
proof fn lemma_twins_agree(chains: Chains, s: Seq<ChainUpdate>, i: int, p: int, q: int)
    requires
        0 <= i <= p < q < s.len(),
        in_update_order(s),
        apply_updates(chains, s, i) is Ok,
        s[p].0 == s[q].0,
        s[p].1.commit_version == s[q].1.commit_version,
    ensures
        entries_agree(s[p].1, s[q].1),
    decreases p - i,
{
    let mid = apply_update(chains, s[i])->Ok_0;
    if i < p {
        lemma_twins_agree(mid, s, i + 1, p, q);
    } else {
        let m = entries_at(mid, s[p].0);
        assert(m == chain_at(mid, s[p].0).entries);
        assert(m.len() > 0 && entries_agree(m.last(), s[p].1));
        assert forall|j: int|
            p + 1 <= j <= q && (#[trigger] s[j]).0 == s[q].0 implies s[j].1.commit_version
            <= m.last().commit_version by {
            if j < q {
                assert(!update_before(s[q], s[j]));
            }
        }
        lemma_updates_repeat(mid, s, p + 1, q);
    }
}

// ----- the chain updates of a rebuild -----

/// The chain updates of a rebuild, in the order in which they are applied.
spec fn applied(objects: Seq<ListedObjectView>, now: i64) -> Seq<ChainUpdate> {
    let hs = found_versions(objects, objects.len());
    let us = chain_updates(sort_found(hs, hs.len()), now);
    sort_updates(us, us.len())
}

/// Every held entry has its update among the applied ones.
proof fn lemma_applied_has(
    objects: Seq<ListedObjectView>,
    now: i64,
    o: int,
    id: Seq<char>,
    e: ChunkEntryView,
)
    requires
        0 <= o < objects.len(),
        holds_entry(objects[o], id, e),
    ensures
        exists|j: int|
            0 <= j < applied(objects, now).len() && is_update_of(
                #[trigger] applied(objects, now)[j],
                objects[o],
                e,
                now,
            ),
{
    let hs = found_versions(objects, objects.len());
    let sorted = sort_found(hs, hs.len());
    let us = chain_updates(sorted, now);
    let h = FoundVersionView {
        entry: e,
        chunk_s3_key: objects[o].key,
        chunk_id: id,
        etag: objects[o].etag,
    };
    lemma_held_is_found(objects, o, id, e);
    assert(hs.take(hs.len() as int) =~= hs);
    lemma_sort_found_contains(hs, hs.len(), h);
    let i = choose|i: int| 0 <= i < sorted.len() && sorted[i] == h;
    assert(us.contains(us[i]));
    assert(us.take(us.len() as int) =~= us);
    lemma_sort_contains(us, us.len(), us[i]);
    let j = choose|j: int| 0 <= j < applied(objects, now).len() && applied(objects, now)[j]
        == us[i];
    assert(is_update_of(applied(objects, now)[j], objects[o], e, now));
}

/// Every applied update is that of a held entry.
proof fn lemma_applied_from(objects: Seq<ListedObjectView>, now: i64, j: int)
    requires
        0 <= j < applied(objects, now).len(),
    ensures
        exists|o: int, id: Seq<char>, e: ChunkEntryView|
            0 <= o < objects.len() && #[trigger] holds_entry(objects[o], id, e) && is_update_of(
                applied(objects, now)[j],
                objects[o],
                e,
                now,
            ),
{
    let hs = found_versions(objects, objects.len());
    let sorted = sort_found(hs, hs.len());
    let us = chain_updates(sorted, now);
    let s = applied(objects, now);
    assert(s.contains(s[j]));
    assert(us.take(us.len() as int) =~= us);
    lemma_sort_contains(us, us.len(), s[j]);
    let i = choose|i: int| 0 <= i < us.len() && us[i] == s[j];
    assert(sorted.contains(sorted[i]));
    assert(hs.take(hs.len() as int) =~= hs);
    lemma_sort_found_contains(hs, hs.len(), sorted[i]);
    let h = sorted[i];
    lemma_found_comes_from(objects, objects.len(), h);
    let o = choose|o: int| #[trigger] found_from(objects, h, o);
    assert(holds_entry(objects[o], h.chunk_id, h.entry));
    assert(is_update_of(s[j], objects[o], h.entry, now));
}

/// The update appends the entry, as the object holds it, to the chain of its
/// record.
pub open spec fn is_update_of(
    u: ChainUpdate,
    o: ListedObjectView,
    e: ChunkEntryView,
    now: i64,
) -> bool {
    &&& u.0 == key_text(e)
    &&& chain_entry_of(u.1, o, e, now)
}

/// The chain entry says what the chunk entry says, as the object holds it.
pub open spec fn chain_entry_of(
    v: VersionEntryView,
    o: ListedObjectView,
    e: ChunkEntryView,
    now: i64,
) -> bool {
    &&& v.commit_version == e.commit_version
    &&& v.deleted == e.deleted
    &&& v.txn_id == e.txn_id
    &&& v.size == e.value.len() as u64
    &&& v.content_type == e.content_type
    &&& v.user_meta == e.user_meta
    &&& v.backend_key == o.key
    &&& v.etag == o.etag
    &&& v.created_ms == now
}

/// In a successful rebuild, entries of one version of a chain agree.
proof fn lemma_same_version_agrees(
    s: StoreView,
    objects: Seq<ListedObjectView>,
    now: i64,
    a: ChunkEntryView,
    b: ChunkEntryView,
)
    requires
        rebuilt(s, objects, now).1 is Ok,
        held(objects, a),
        held(objects, b),
        key_text(a) == key_text(b),
        a.commit_version == b.commit_version,
    ensures
        a.deleted == b.deleted,
        a.txn_id == b.txn_id,
{
    let (oa, ia) = choose|o: int, id: Seq<char>|
        0 <= o < objects.len() && #[trigger] holds_entry(objects[o], id, a);
    let (ob, ib) = choose|o: int, id: Seq<char>|
        0 <= o < objects.len() && #[trigger] holds_entry(objects[o], id, b);
    lemma_applied_has(objects, now, oa, ia, a);
    lemma_applied_has(objects, now, ob, ib, b);
    let us = applied(objects, now);
    let p = choose|j: int| 0 <= j < us.len() && is_update_of(#[trigger] us[j], objects[oa], a, now);
    let q = choose|j: int| 0 <= j < us.len() && is_update_of(#[trigger] us[j], objects[ob], b, now);
    let hs = found_versions(objects, objects.len());
    let raw = chain_updates(sort_found(hs, hs.len()), now);
    lemma_sort_in_order(raw, raw.len());
    if p < q {
        lemma_twins_agree(s.chains, us, 0, p, q);
    } else if q < p {
        lemma_twins_agree(s.chains, us, 0, q, p);
    }
}

// ----- laws -----

/// After a successful rebuild, the chain of every record that was found ends
/// with its highest version: where no entry of the same key is above `e`, the
/// newest entry of the chain is at its version and is a delete exactly if `e`
/// is. In a chain that was empty it says all that one such chunk entry says.
pub proof fn law_rebuilt_chain_ends_with_the_highest_version(
    s: StoreView,
    objects: Seq<ListedObjectView>,
    now: i64,
    e: ChunkEntryView,
)
    requires
        rebuilt(s, objects, now).1 is Ok,
        held(objects, e),
        forall|f: ChunkEntryView| #[trigger]
            held(objects, f) && key_text(f) == key_text(e) ==> f.commit_version
                <= e.commit_version,
    ensures
        ({
            let n = rebuilt(s, objects, now).0;
            let chain = n.chains[key_text(e)].entries;
            &&& n.chains.contains_key(key_text(e))
            &&& chain.len() > 0
            &&& chain.last().commit_version == e.commit_version
            &&& chain.last().deleted == e.deleted
            &&& chain.last().txn_id == e.txn_id
            &&& entries_at(s.chains, key_text(e)).len() == 0 ==> exists|
                o: int,
                id: Seq<char>,
                f: ChunkEntryView,
            |
                0 <= o < objects.len() && #[trigger] holds_entry(objects[o], id, f) && key_text(f)
                    == key_text(e) && f.commit_version == e.commit_version && chain_entry_of(
                    chain.last(),
                    objects[o],
                    f,
                    now,
                )
        }),
{
    let us = applied(objects, now);
    let n = rebuilt(s, objects, now).0;
    let (o, id) = choose|o: int, id: Seq<char>|
        0 <= o < objects.len() && #[trigger] holds_entry(objects[o], id, e);
    lemma_applied_has(objects, now, o, id, e);
    let at = choose|j: int| 0 <= j < us.len() && is_update_of(#[trigger] us[j], objects[o], e, now);
    let hs = found_versions(objects, objects.len());
    let raw = chain_updates(sort_found(hs, hs.len()), now);
    lemma_sort_in_order(raw, raw.len());
    assert forall|j: int| 0 <= j < us.len() && (#[trigger] us[j]).0
        == us[at].0 implies us[j].1.commit_version <= us[at].1.commit_version by {
        lemma_applied_from(objects, now, j);
        let (p, i, f) = choose|p: int, i: Seq<char>, f: ChunkEntryView|
            0 <= p < objects.len() && #[trigger] holds_entry(objects[p], i, f) && is_update_of(
                us[j],
                objects[p],
                f,
                now,
            );
        assert(held(objects, f));
    }
    lemma_newest_after(s.chains, us, 0, at);
    let b = entries_at(n.chains, key_text(e));
    assert(n.chains == apply_updates(s.chains, us, 0)->Ok_0);
    if entries_at(s.chains, key_text(e)).len() == 0 {
        let j = choose|j: int|
            0 <= j < us.len() && (#[trigger] us[j]).0 == key_text(e) && us[j].1 == b.last();
        lemma_applied_from(objects, now, j);
    }
}

/// After a successful rebuild, each history row that was found is marked
/// deleted exactly if its chunk entry is, whichever chunk holds it, and has its
/// transaction.
pub proof fn law_rebuilt_history_marks_deletes(
    s: StoreView,
    objects: Seq<ListedObjectView>,
    now: i64,
    e: ChunkEntryView,
)
    requires
        rebuilt(s, objects, now).1 is Ok,
        held(objects, e),
    ensures
        ({
            let n = rebuilt(s, objects, now).0;
            let id = (e.space, e.table, e.record_id, e.commit_version);
            &&& n.record_versions.contains_key(id)
            &&& n.record_versions[id].entry.deleted == e.deleted
            &&& n.record_versions[id].entry.txn_id == e.txn_id
            &&& n.record_versions[id].entry.commit_version == e.commit_version
            &&& n.record_versions[id].entry.updated_ms == now
        }),
{
    law_rebuilt_history_comes_from_the_chunks(s, objects, now, e);
    let n = rebuilt(s, objects, now).0;
    let row = n.record_versions[(e.space, e.table, e.record_id, e.commit_version)];
    let (o, id, f) = choose|o: int, id: Seq<char>, f: ChunkEntryView|
        0 <= o < objects.len() && #[trigger] holds_entry(objects[o], id, f) && same_record(f, e)
            && f.commit_version == e.commit_version && history_row_of(row, id, f, now);
    assert(held(objects, f));
    lemma_same_version_agrees(s, objects, now, f, e);
}

/// The history row says what the entry of the chunk says.
pub open spec fn history_row_of(
    row: crate::txn_state::StoredRecordVersionView,
    chunk_id: Seq<char>,
    e: ChunkEntryView,
    now: i64,
) -> bool {
    &&& row.body == e.value
    &&& index_row_of(row.entry, chunk_id, e, now)
}

/// The index entry says what the entry of the chunk says.
pub open spec fn index_row_of(
    row: crate::txn_state::RecordIndexEntryView,
    chunk_id: Seq<char>,
    e: ChunkEntryView,
    now: i64,
) -> bool {
    &&& row.commit_version == e.commit_version
    &&& row.deleted == e.deleted
    &&& row.chunk_id == chunk_id
    &&& row.schema_version == e.schema_version
    &&& row.txn_id == e.txn_id
    &&& row.updated_ms == now
}

/// After a rebuild the history has a row for every entry of a chunk. The row
/// has the body and all fields of an entry of that version of the record, and
/// points to the chunk that holds it.
pub proof fn law_rebuilt_history_comes_from_the_chunks(
    s: StoreView,
    objects: Seq<ListedObjectView>,
    now: i64,
    e: ChunkEntryView,
)
    requires
        held(objects, e),
    ensures
        ({
            let n = rebuilt(s, objects, now).0;
            let key = (e.space, e.table, e.record_id, e.commit_version);
            &&& n.record_versions.contains_key(key)
            &&& exists|o: int, id: Seq<char>, f: ChunkEntryView|
                0 <= o < objects.len() && #[trigger] holds_entry(objects[o], id, f)
                    && same_record(f, e) && f.commit_version == e.commit_version && history_row_of(
                    n.record_versions[key],
                    id,
                    f,
                    now,
                )
        }),
{
    let hs = found_versions(objects, objects.len());
    let (o, id) = choose|o: int, id: Seq<char>|
        0 <= o < objects.len() && #[trigger] holds_entry(objects[o], id, e);
    lemma_held_is_found(objects, o, id, e);
    let h = FoundVersionView {
        entry: e,
        chunk_s3_key: objects[o].key,
        chunk_id: id,
        etag: objects[o].etag,
    };
    let i = choose|i: int| 0 <= i < hs.len() && hs[i] == h;
    let sorted = sort_found(hs, hs.len());
    let rows = history_rows(sorted, now);
    let k = (e.space, e.table, e.record_id, e.commit_version);
    assert(hs.take(hs.len() as int) =~= hs);
    lemma_sort_found_contains(hs, hs.len(), h);
    let p = choose|p: int| 0 <= p < sorted.len() && sorted[p] == h;
    assert(rows[p].0 == k);
    lemma_insert_all(s.record_versions, rows, rows.len(), k);
    let n = insert_all(s.record_versions, rows, rows.len());
    let q = choose|q: int| 0 <= q < rows.len() && (#[trigger] rows[q]).0 == k && n[k] == rows[q].1;
    assert(sorted.contains(sorted[q]));
    lemma_sort_found_contains(hs, hs.len(), sorted[q]);
    let g = sorted[q];
    lemma_found_comes_from(objects, objects.len(), g);
    let oo = choose|oo: int| #[trigger] found_from(objects, g, oo);
    assert(holds_entry(objects[oo], g.chunk_id, g.entry));
    assert(rows[q].0 == found_id(g));
    assert(history_row_of(n[k], g.chunk_id, g.entry, now));
}

/// The latest found version of a record, and where it comes from.
proof fn lemma_latest_of(objects: Seq<ListedObjectView>, e: ChunkEntryView)
    requires
        held(objects, e),
    ensures
        ({
            let hs = found_versions(objects, objects.len());
            let m = found_latest(hs, hs.len());
            let k = (e.space, e.table, e.record_id);
            &&& m.contains_key(k)
            &&& found_record(m[k]) == k
            &&& m[k].entry.commit_version >= e.commit_version
            &&& exists|o: int| #[trigger] found_from(objects, m[k], o)
        }),
{
    let hs = found_versions(objects, objects.len());
    let (o, id) = choose|o: int, id: Seq<char>|
        0 <= o < objects.len() && #[trigger] holds_entry(objects[o], id, e);
    lemma_held_is_found(objects, o, id, e);
    let h = FoundVersionView {
        entry: e,
        chunk_s3_key: objects[o].key,
        chunk_id: id,
        etag: objects[o].etag,
    };
    let i = choose|i: int| 0 <= i < hs.len() && hs[i] == h;
    lemma_found_latest(hs, hs.len(), i);
    lemma_found_latest_of(hs, hs.len());
    let m = found_latest(hs, hs.len());
    let k = (e.space, e.table, e.record_id);
    assert(m.contains_key(k));
    lemma_found_comes_from(objects, objects.len(), m[k]);
}

/// After a rebuild the record index has an entry for every record of a chunk:
/// that of an entry with the highest version of the record, pointing to the
/// chunk that holds it, without a body.
pub proof fn law_rebuilt_index_shows_the_highest_version(
    s: StoreView,
    objects: Seq<ListedObjectView>,
    now: i64,
    e: ChunkEntryView,
)
    requires
        held(objects, e),
    ensures
        ({
            let n = rebuilt(s, objects, now).0;
            let key = (e.space, e.table, e.record_id);
            &&& n.records.contains_key(key)
            &&& n.records[key].body_json is None
            &&& n.records[key].entry.commit_version >= e.commit_version
            &&& exists|o: int, id: Seq<char>, f: ChunkEntryView|
                0 <= o < objects.len() && #[trigger] holds_entry(objects[o], id, f)
                    && same_record(f, e) && index_row_of(n.records[key].entry, id, f, now)
        }),
{
    let hs = found_versions(objects, objects.len());
    let m = found_latest(hs, hs.len());
    let k = (e.space, e.table, e.record_id);
    lemma_latest_of(objects, e);
    lemma_found_latest_of(hs, hs.len());
    let rows = latest_rows(hs);
    lemma_finite_listing::<(String, String, String), FoundVersionView>(m);
    let recs = latest_records(rows, now);
    let n = insert_all(s.records, recs, recs.len());
    assert(rows_map(rows).contains_key(k));
    let p = choose|p: int| 0 <= p < rows.len() && (#[trigger] rows[p]).0 == k;
    assert(recs[p].0 == k);
    lemma_insert_all(s.records, recs, recs.len(), k);
    let q = choose|q: int| 0 <= q < recs.len() && (#[trigger] recs[q]).0 == k && n[k] == recs[q].1;
    assert(rows[q].0 == k);
    lemma_listed::<(String, String, String), FoundVersionView>(rows, q);
    assert(rows[q].1 == m[k]);
    let o = choose|o: int| #[trigger] found_from(objects, m[k], o);
    assert(holds_entry(objects[o], m[k].chunk_id, m[k].entry));
    assert(index_row_of(n[k].entry, m[k].chunk_id, m[k].entry, now));
}

/// After a successful rebuild the record index entry of every record is at the
/// highest version in the chunks, and is marked deleted exactly if the chunk
/// entry of that version is a delete.
pub proof fn law_rebuilt_index_marks_deletes(
    s: StoreView,
    objects: Seq<ListedObjectView>,
    now: i64,
    e: ChunkEntryView,
)
    requires
        rebuilt(s, objects, now).1 is Ok,
        held(objects, e),
        forall|f: ChunkEntryView| #[trigger]
            held(objects, f) && same_record(f, e) ==> f.commit_version <= e.commit_version,
    ensures
        ({
            let n = rebuilt(s, objects, now).0;
            let row = n.records[(e.space, e.table, e.record_id)].entry;
            &&& n.records.contains_key((e.space, e.table, e.record_id))
            &&& row.commit_version == e.commit_version
            &&& row.deleted == e.deleted
            &&& row.txn_id == e.txn_id
        }),
{
    law_rebuilt_index_shows_the_highest_version(s, objects, now, e);
    let n = rebuilt(s, objects, now).0;
    let row = n.records[(e.space, e.table, e.record_id)].entry;
    let (o, id, f) = choose|o: int, id: Seq<char>, f: ChunkEntryView|
        0 <= o < objects.len() && #[trigger] holds_entry(objects[o], id, f) && same_record(f, e)
            && index_row_of(row, id, f, now);
    assert(held(objects, f));
    lemma_same_version_agrees(s, objects, now, f, e);
}

/// The version record says what the entry says, as the object holds it.
pub open spec fn version_row_of(
    row: crate::version_index::VersionRecordView,
    o: ListedObjectView,
    e: ChunkEntryView,
    now: i64,
) -> bool {
    &&& row.latest_version == Version(e.commit_version)
    &&& row.tombstone == e.deleted
    &&& row.last_writer_txn_id == e.txn_id
    &&& row.latest_etag == o.etag
    &&& row.latest_backend_key == o.key
    &&& row.size == e.value.len() as u64
    &&& row.last_modified_unix_ms == now
}

/// After a rebuild there is a version record for every record of a chunk whose
/// key no other record has: that of an entry with the highest version of it.
pub proof fn law_rebuilt_versions_show_the_highest_version(
    s: StoreView,
    objects: Seq<ListedObjectView>,
    now: i64,
    e: ChunkEntryView,
)
    requires
        held(objects, e),
        forall|f: ChunkEntryView| #[trigger]
            held(objects, f) && key_text(f) == key_text(e) ==> same_record(f, e),
    ensures
        ({
            let n = rebuilt(s, objects, now).0;
            &&& n.versions.contains_key(key_text(e))
            &&& exists|o: int, id: Seq<char>, f: ChunkEntryView|
                0 <= o < objects.len() && #[trigger] holds_entry(objects[o], id, f)
                    && same_record(f, e) && f.commit_version >= e.commit_version && version_row_of(
                    n.versions[key_text(e)],
                    objects[o],
                    f,
                    now,
                )
        }),
{
    let hs = found_versions(objects, objects.len());
    let m = found_latest(hs, hs.len());
    let k = (e.space, e.table, e.record_id);
    let text = key_text(e);
    lemma_latest_of(objects, e);
    lemma_found_latest_of(hs, hs.len());
    lemma_found_latest_keys(hs, hs.len());
    let rows = latest_rows(hs);
    lemma_finite_listing::<(String, String, String), FoundVersionView>(m);
    let recs = latest_versions(rows, now);
    let n = insert_all(s.versions, recs, recs.len());
    assert(rows_map(rows).contains_key(k));
    let p = choose|p: int| 0 <= p < rows.len() && (#[trigger] rows[p]).0 == k;
    lemma_listed::<(String, String, String), FoundVersionView>(rows, p);
    assert(rows[p].1 == m[k]);
    assert(found_key(m[k]) == text);
    assert(recs[p].0 == text);
    lemma_insert_all(s.versions, recs, recs.len(), text);
    let q = choose|q: int|
        0 <= q < recs.len() && (#[trigger] recs[q]).0 == text && n[text] == recs[q].1;
    lemma_listed::<(String, String, String), FoundVersionView>(rows, q);
    let g = rows[q].1;
    assert(m.contains_key(rows[q].0) && m[rows[q].0] == g);
    lemma_found_comes_from(objects, objects.len(), g);
    let o = choose|o: int| #[trigger] found_from(objects, g, o);
    assert(holds_entry(objects[o], g.chunk_id, g.entry));
    assert(held(objects, g.entry));
    assert(key_text(g.entry) == found_key(g));
    assert(same_record(g.entry, e));
    assert(rows[q].0 == k);
    assert(version_row_of(n[text], objects[o], g.entry, now));
}

/// After a successful rebuild the version record of every record whose key no
/// other record has is at the highest version in the chunks, and is a tombstone
/// exactly if the chunk entry of that version is a delete.
pub proof fn law_rebuilt_versions_mark_deletes(
    s: StoreView,
    objects: Seq<ListedObjectView>,
    now: i64,
    e: ChunkEntryView,
)
    requires
        rebuilt(s, objects, now).1 is Ok,
        held(objects, e),
        forall|f: ChunkEntryView| #[trigger]
            held(objects, f) && key_text(f) == key_text(e) ==> same_record(f, e)
                && f.commit_version <= e.commit_version,
    ensures
        ({
            let n = rebuilt(s, objects, now).0;
            let row = n.versions[key_text(e)];
            &&& n.versions.contains_key(key_text(e))
            &&& row.latest_version == Version(e.commit_version)
            &&& row.tombstone == e.deleted
            &&& row.last_writer_txn_id == e.txn_id
        }),
{
    law_rebuilt_versions_show_the_highest_version(s, objects, now, e);
    let n = rebuilt(s, objects, now).0;
    let (o, id, f) = choose|o: int, id: Seq<char>, f: ChunkEntryView|
        0 <= o < objects.len() && #[trigger] holds_entry(objects[o], id, f) && same_record(f, e)
            && f.commit_version >= e.commit_version && version_row_of(
            n.versions[key_text(e)],
            objects[o],
            f,
            now,
        );
    assert(held(objects, f));
    lemma_same_version_agrees(s, objects, now, f, e);
}

/// After a successful rebuild the version of the store is the highest version
/// in the chunks, 0 where they hold none.
pub proof fn law_rebuilt_store_is_at_the_highest_version(
    s: StoreView,
    objects: Seq<ListedObjectView>,
    now: i64,
)
    requires
        rebuilt(s, objects, now).1 is Ok,
    ensures
        ({
            let v = rebuilt(s, objects, now).0.global_version;
            &&& forall|e: ChunkEntryView| #[trigger]
                held(objects, e) ==> e.commit_version <= v
            &&& v > 0 ==> exists|e: ChunkEntryView| #[trigger]
                held(objects, e) && e.commit_version == v
        }),
{
    let hs = found_versions(objects, objects.len());
    let v = rebuilt(s, objects, now).0.global_version;
    assert forall|e: ChunkEntryView| #[trigger] held(objects, e) implies e.commit_version <= v by {
        let (o, id) = choose|o: int, id: Seq<char>|
            0 <= o < objects.len() && #[trigger] holds_entry(objects[o], id, e);
        lemma_held_is_found(objects, o, id, e);
        let h = FoundVersionView {
            entry: e,
            chunk_s3_key: objects[o].key,
            chunk_id: id,
            etag: objects[o].etag,
        };
        let i = choose|i: int| 0 <= i < hs.len() && hs[i] == h;
        lemma_found_max(hs, hs.len(), i);
    }
    if v > 0 {
        lemma_found_max_is_one(hs, hs.len());
        let i = choose|i: int| 0 <= i < hs.len() && (#[trigger] hs[i]).entry.commit_version == v;
        assert(hs.contains(hs[i]));
        lemma_found_comes_from(objects, objects.len(), hs[i]);
        let o = choose|o: int| #[trigger] found_from(objects, hs[i], o);
        assert(holds_entry(objects[o], hs[i].chunk_id, hs[i].entry));
        assert(held(objects, hs[i].entry));
    }
}

proof fn lemma_found_max_is_one(hs: Seq<FoundVersionView>, n: nat)
    requires
        n <= hs.len(),
    ensures
        found_max(hs, n) > 0 ==> exists|i: int|
            0 <= i < n && (#[trigger] hs[i]).entry.commit_version == found_max(hs, n),
    decreases n,
{
    if n > 0 {
        lemma_found_max_is_one(hs, (n - 1) as nat);
        assert(hs[n - 1] == hs[n - 1]);
        if found_max(hs, n) == found_max(hs, (n - 1) as nat) && found_max(hs, n) > 0 {
            let i = choose|i: int|
                0 <= i < n - 1 && (#[trigger] hs[i]).entry.commit_version == found_max(
                    hs,
                    (n - 1) as nat,
                );
            assert(hs[i] == hs[i]);
        }
    }
}

/// The object is a chunk file that was fetched and can be read.
pub open spec fn readable(o: ListedObjectView) -> bool {
    let file = o.bytes->0;
    &&& o.key.len() >= ".xtc"@.len()
    &&& o.key.skip(o.key.len() - ".xtc"@.len()) == ".xtc"@
    &&& o.bytes is Some
    &&& p_header(file) is Some
    &&& p_body(file) is Some
    &&& p_entries(p_body(file)->0, Seq::empty()) is Some
}

/// Id of the chunk in a readable object.
pub open spec fn id_of(o: ListedObjectView) -> Seq<char> {
    (p_header(o.bytes->0)->0).0.chunk_id
}

/// A rebuild enters every readable chunk whose id no other one has into the
/// chunk index, as live: object, size and tag as listed, space, table, key range
/// and time as its header has them, the tight range of its versions, the log
/// range of its first and last entry, and the bloom filter of its footer.
pub proof fn law_rebuilt_chunk_index_describes_the_file(
    s: StoreView,
    objects: Seq<ListedObjectView>,
    now: i64,
    o: int,
)
    requires
        0 <= o < objects.len(),
        readable(objects[o]),
        forall|j: int|
            0 <= j < objects.len() && j != o && readable(#[trigger] objects[j]) ==> id_of(
                objects[j],
            ) != id_of(objects[o]),
    ensures
        ({
            let n = rebuilt(s, objects, now).0.chunks;
            let file = objects[o].bytes->0;
            let h = (p_header(file)->0).0;
            let es = p_entries(p_body(file)->0, Seq::empty())->0;
            let c = n[h.chunk_id];
            &&& n.contains_key(h.chunk_id)
            &&& c.status == crate::cf::ChunkStatus::Live
            &&& c.s3_key == objects[o].key
            &&& c.size_bytes == objects[o].size
            &&& c.etag == objects[o].etag
            &&& c.space == h.space
            &&& c.table == h.table
            &&& c.key_min == h.key_min
            &&& c.key_max == h.key_max
            &&& c.flushed_at_ms == h.created_at_ms
            &&& c.shard == 0
            &&& c.sha256_body.len() == 0
            &&& p_file_footer(file) is Some ==> c.bloom == Some(p_file_footer(file)->0.bloom)
            &&& p_file_footer(file) is None ==> c.bloom is None
            &&& forall|i: int|
                0 <= i < es.len() ==> c.commit_version_min <= (#[trigger] es[i]).commit_version
                    <= c.commit_version_max
            &&& es.len() > 0 ==> exists|i: int|
                0 <= i < es.len() && (#[trigger] es[i]).commit_version == c.commit_version_min
            &&& es.len() > 0 ==> exists|i: int|
                0 <= i < es.len() && (#[trigger] es[i]).commit_version == c.commit_version_max
            &&& es.len() > 0 ==> c.wal_seq_first == es[0].wal_seq && c.wal_seq_last
                == es.last().wal_seq
        }),
{
    reveal(chunk_of);
    let file = objects[o].bytes->0;
    let es = p_entries(p_body(file)->0, Seq::empty())->0;
    assert(crate::restore_laws::chunk_id_unique(objects, o));
    crate::restore_laws::law_rebuild_indexes_the_chunk(s, objects, now, o);
    crate::flush_laws::lemma_version_range(es, es.len());
}

proof fn lemma_found_chunk_ids(objects: Seq<ListedObjectView>, n: nat, i: int)
    requires
        n <= objects.len(),
        0 <= i < found_chunks(objects, n).len(),
    ensures
        exists|j: int|
            0 <= j < n && readable(#[trigger] objects[j]) && found_chunks(objects, n)[i].0 == id_of(
                objects[j],
            ),
{
    reveal(chunk_of);
    crate::restore_laws::lemma_found_chunk_of(objects, n, i);
    let j = choose|j: int|
        0 <= j < n && chunk_of(#[trigger] objects[j]) is Some && found_chunks(objects, n)[i] == (
            chunk_of(objects[j])->0.header.chunk_id,
            crate::rebuild::rebuilt_chunk_entry(objects[j], chunk_of(objects[j])->0),
        );
    assert(readable(objects[j]));
}

/// A rebuild leaves alone what no chunk names: chunks, records, history rows,
/// versions and chains of other names. Transactions, staged writes, bodies, the
/// log, pins and schemas stay in any case. A rebuild that fails leaves all
/// chains and the version of the store as they were.
pub proof fn law_rebuild_leaves_the_rest_alone(
    s: StoreView,
    objects: Seq<ListedObjectView>,
    now: i64,
    chunk: Seq<char>,
    id: RecordVersionId,
    key: Seq<char>,
)
    requires
        forall|o: int|
            0 <= o < objects.len() && readable(#[trigger] objects[o]) ==> id_of(objects[o])
                != chunk,
        forall|e: ChunkEntryView| #[trigger]
            held(objects, e) ==> (e.space, e.table, e.record_id) != (id.0, id.1, id.2) && key_text(
                e,
            ) != key,
    ensures
        ({
            let (n, r) = rebuilt(s, objects, now);
            let rec = (id.0, id.1, id.2);
            &&& n.chunks.contains_key(chunk) <==> s.chunks.contains_key(chunk)
            &&& s.chunks.contains_key(chunk) ==> n.chunks[chunk] == s.chunks[chunk]
            &&& n.records.contains_key(rec) <==> s.records.contains_key(rec)
            &&& s.records.contains_key(rec) ==> n.records[rec] == s.records[rec]
            &&& n.record_versions.contains_key(id) <==> s.record_versions.contains_key(id)
            &&& s.record_versions.contains_key(id) ==> n.record_versions[id]
                == s.record_versions[id]
            &&& n.versions.contains_key(key) <==> s.versions.contains_key(key)
            &&& s.versions.contains_key(key) ==> n.versions[key] == s.versions[key]
            &&& entries_at(n.chains, key) == entries_at(s.chains, key)
            &&& n.txns == s.txns
            &&& n.writes == s.writes
            &&& n.blobs == s.blobs
            &&& n.wal == s.wal
            &&& n.last_wal_seq == s.last_wal_seq
            &&& n.last_flushed_seq == s.last_flushed_seq
            &&& n.snapshots == s.snapshots
            &&& n.schemas == s.schemas
            &&& n.multipart == s.multipart
            &&& r is Err ==> n.chains == s.chains && n.global_version == s.global_version
        }),
{
    let (n, r) = rebuilt(s, objects, now);
    let hs = found_versions(objects, objects.len());
    let sorted = sort_found(hs, hs.len());
    let rec = (id.0, id.1, id.2);
    assert(hs.take(hs.len() as int) =~= hs);
    assert forall|h: FoundVersionView| #[trigger] hs.contains(h) implies found_record(h) != rec
        && found_key(h) != key by {
        lemma_found_comes_from(objects, objects.len(), h);
        let o = choose|o: int| #[trigger] found_from(objects, h, o);
        assert(holds_entry(objects[o], h.chunk_id, h.entry));
        assert(held(objects, h.entry));
        assert(key_text(h.entry) == found_key(h));
    }
    let chunks = found_chunks(objects, objects.len());
    assert forall|i: int| 0 <= i < chunks.len() implies (#[trigger] chunks[i]).0 != chunk by {
        lemma_found_chunk_ids(objects, objects.len(), i);
    }
    lemma_insert_keeps_others(s.chunks, chunks, chunks.len(), chunk);
    let history = history_rows(sorted, now);
    assert forall|i: int| 0 <= i < history.len() implies (#[trigger] history[i]).0 != id by {
        assert(sorted.contains(sorted[i]));
        lemma_sort_found_contains(hs, hs.len(), sorted[i]);
        assert(hs.contains(sorted[i]));
        assert(history[i].0 == found_id(sorted[i]));
    }
    lemma_insert_keeps_others(s.record_versions, history, history.len(), id);
    let m = found_latest(hs, hs.len());
    lemma_found_latest_of(hs, hs.len());
    lemma_found_latest_keys(hs, hs.len());
    lemma_finite_listing::<(String, String, String), FoundVersionView>(m);
    let rows = latest_rows(hs);
    assert forall|i: int| 0 <= i < rows.len() implies (#[trigger] rows[i]).0 != rec && found_key(
        rows[i].1,
    ) != key by {
        lemma_listed::<(String, String, String), FoundVersionView>(rows, i);
        assert(m.contains_key(rows[i].0));
        assert(hs.contains(m[rows[i].0]));
    }
    let recs = latest_records(rows, now);
    assert forall|i: int| 0 <= i < recs.len() implies (#[trigger] recs[i]).0 != rec by {
        assert(recs[i].0 == rows[i].0);
    }
    lemma_insert_keeps_others(s.records, recs, recs.len(), rec);
    let vers = latest_versions(rows, now);
    assert forall|i: int| 0 <= i < vers.len() implies (#[trigger] vers[i]).0 != key by {
        assert(vers[i].0 == found_key(rows[i].1));
    }
    lemma_insert_keeps_others(s.versions, vers, vers.len(), key);
    if r is Ok {
        let us = applied(objects, now);
        assert forall|j: int| 0 <= j < us.len() implies (#[trigger] us[j]).0 != key by {
            lemma_applied_from(objects, now, j);
            let (o, i, e) = choose|o: int, i: Seq<char>, e: ChunkEntryView|
                0 <= o < objects.len() && #[trigger] holds_entry(objects[o], i, e) && is_update_of(
                    us[j],
                    objects[o],
                    e,
                    now,
                );
            assert(held(objects, e));
        }
        crate::outcome_laws::lemma_updates_keep_others(s.chains, us, 0, key);
    }
}

/// One more object adds its entries to the versions found, if it is a readable
/// chunk, and none else.
pub proof fn law_found_versions_add_up(objects: Seq<ListedObjectView>, o: ListedObjectView)
    ensures
        found_versions(Seq::empty(), 0).len() == 0,
        found_versions(objects.push(o), objects.len() + 1).len() == found_versions(
            objects,
            objects.len(),
        ).len() + if readable(o) {
            p_entries(p_body(o.bytes->0)->0, Seq::empty())->0.len()
        } else {
            0
        },
{
    reveal(chunk_of);
    let all = objects.push(o);
    lemma_same_prefix(objects, all, objects.len());
    assert(all[objects.len() as int] == o);
}

proof fn lemma_same_prefix(a: Seq<ListedObjectView>, b: Seq<ListedObjectView>, n: nat)
    requires
        n <= a.len() <= b.len(),
        forall|i: int| 0 <= i < a.len() ==> a[i] == b[i],
    ensures
        found_versions(a, n) == found_versions(b, n),
    decreases n,
{
    if n > 0 {
        lemma_same_prefix(a, b, (n - 1) as nat);
    }
}

} // verus!
