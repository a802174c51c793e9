//! Letting go of staged writes and spilled bodies.
//!
//! Rows leave the store; the paths of spill files that no row names any more
//! are collected for the caller to remove.

use crate::store::{LocalStore, StoreView};
use crate::table::{lemma_finite_listing, lemma_listed, listing, pair_views, rows_map};
use crate::text::texts;
use crate::txn_state::{WriteSetEntry, WriteSetEntryView};
use vstd::prelude::*;

verus! {

/// Rows of a write set in key order.
pub type WriteRows = Seq<(Seq<char>, WriteSetEntryView)>;

/// A store, and the paths of files that are no longer needed.
#[verifier::ext_equal]
pub ghost struct Cleanup {
    pub store: StoreView,
    pub garbage: Seq<Seq<char>>,
}

impl Cleanup {
    /// A spilled body is let go.
    pub open spec fn blob_dropped(self, handle: Seq<char>) -> Cleanup {
        Cleanup {
            store: StoreView { blobs: self.store.blobs.remove(handle), ..self.store },
            garbage: if self.store.blobs.contains_key(handle) {
                self.garbage.push(self.store.blobs[handle].path)
            } else {
                self.garbage
            },
        }
    }

    /// A staged write is let go.
    pub open spec fn write_dropped(self, txn: Seq<char>, key: Seq<char>) -> Cleanup {
        Cleanup {
            store: StoreView { writes: self.store.writes.remove((txn, key)), ..self.store },
            ..self
        }
    }

    /// Those of the first `n` rows that have a spilled body are let go,
    /// together with it.
    pub open spec fn spills_dropped(self, rows: WriteRows, txn: Seq<char>, n: nat) -> Cleanup
        decreases n,
    {
        if n == 0 {
            self
        } else {
            let c = self.spills_dropped(rows, txn, (n - 1) as nat);
            match rows[n - 1].1.body_handle {
                Some(h) => c.blob_dropped(h).write_dropped(txn, rows[n - 1].1.backend_key),
                None => c,
            }
        }
    }

    /// The first `n` rows and their spilled bodies are let go.
    pub open spec fn rows_dropped(self, rows: WriteRows, txn: Seq<char>, n: nat) -> Cleanup
        decreases n,
    {
        if n == 0 {
            self
        } else {
            let c = self.rows_dropped(rows, txn, (n - 1) as nat);
            let d = match rows[n - 1].1.body_handle {
                Some(h) => c.blob_dropped(h),
                None => c,
            };
            d.write_dropped(txn, rows[n - 1].1.backend_key)
        }
    }
}

/// A store and a list of paths, as a [`Cleanup`].
pub open spec fn cleanup_of(store: LocalStore, garbage: Vec<String>) -> Cleanup {
    Cleanup { store: store@, garbage: texts(garbage@) }
}

/// Lets a spilled body go.
pub fn drop_blob(store: &mut LocalStore, garbage: &mut Vec<String>, handle: &str)
    ensures
        cleanup_of(*final(store), *final(garbage)) == cleanup_of(
            *old(store),
            *old(garbage),
        ).blob_dropped(handle@),
{
    let ghost before = texts(garbage@);
    if let Some(rec) = store.get_blob(handle) {
        let path = rec.path;
        let ghost pv = path@;
        garbage.push(path);
        assert(texts(garbage@) =~= before.push(pv));
    }
    store.delete_blob(handle);
}

/// Lets the rows with a spilled body go, together with it.
pub fn drop_spills(
    store: &mut LocalStore,
    garbage: &mut Vec<String>,
    rows: &Vec<(String, WriteSetEntry)>,
    txn_id: &str,
)
    ensures
        cleanup_of(*final(store), *final(garbage)) == cleanup_of(
            *old(store),
            *old(garbage),
        ).spills_dropped(pair_views(rows@), txn_id@, rows@.len()),
{
    let ghost start = cleanup_of(*store, *garbage);
    let ghost views = pair_views(rows@);
    let mut i: usize = 0;
    while i < rows.len()
        invariant
            i <= rows.len(),
            views == pair_views(rows@),
            cleanup_of(*store, *garbage) == start.spills_dropped(views, txn_id@, i as nat),
        decreases rows.len() - i,
    {
        assert(views[i as int] == (rows@[i as int].0@, rows@[i as int].1@));
        if let Some(handle) = &rows[i].1.body_handle {
            drop_blob(store, garbage, handle.as_str());
            store.delete_write_entry(txn_id, rows[i].1.backend_key.as_str());
        }
        i += 1;
    }
}

/// Lets all rows go, together with their spilled bodies.
pub fn drop_rows(
    store: &mut LocalStore,
    garbage: &mut Vec<String>,
    rows: &Vec<(String, WriteSetEntry)>,
    txn_id: &str,
)
    ensures
        cleanup_of(*final(store), *final(garbage)) == cleanup_of(
            *old(store),
            *old(garbage),
        ).rows_dropped(pair_views(rows@), txn_id@, rows@.len()),
{
    let ghost start = cleanup_of(*store, *garbage);
    let ghost views = pair_views(rows@);
    let mut i: usize = 0;
    while i < rows.len()
        invariant
            i <= rows.len(),
            views == pair_views(rows@),
            cleanup_of(*store, *garbage) == start.rows_dropped(views, txn_id@, i as nat),
        decreases rows.len() - i,
    {
        assert(views[i as int] == (rows@[i as int].0@, rows@[i as int].1@));
        if let Some(handle) = &rows[i].1.body_handle {
            drop_blob(store, garbage, handle.as_str());
        }
        store.delete_write_entry(txn_id, rows[i].1.backend_key.as_str());
        i += 1;
    }
}

/// Dropping rows touches nothing but writes, blobs and the list of files. It
/// takes away the named writes of the transaction and no write of another.
pub proof fn lemma_rows_dropped(c: Cleanup, rows: WriteRows, txn: Seq<char>, n: nat)
    ensures
        ({
            let d = c.rows_dropped(rows, txn, n);
            &&& d.store == (StoreView { writes: d.store.writes, blobs: d.store.blobs, ..c.store })
            &&& forall|k: (Seq<char>, Seq<char>)| #[trigger]
                d.store.writes.contains_key(k) ==> c.store.writes.contains_key(k)
                    && d.store.writes[k] == c.store.writes[k]
            &&& forall|i: int|
                0 <= i < n ==> !d.store.writes.contains_key(
                    (txn, (#[trigger] rows[i]).1.backend_key),
                )
            &&& forall|k: (Seq<char>, Seq<char>)|
                k.0 != txn && #[trigger] c.store.writes.contains_key(k)
                    ==> d.store.writes.contains_key(k)
        }),
    decreases n,
{
    if n > 0 {
        lemma_rows_dropped(c, rows, txn, (n - 1) as nat);
    }
}

/// Dropping spills touches nothing but writes, blobs and the list of files,
/// and only takes writes away.
pub proof fn lemma_spills_dropped(c: Cleanup, rows: WriteRows, txn: Seq<char>, n: nat)
    ensures
        ({
            let d = c.spills_dropped(rows, txn, n);
            &&& d.store == (StoreView { writes: d.store.writes, blobs: d.store.blobs, ..c.store })
            &&& forall|k: (Seq<char>, Seq<char>)| #[trigger]
                d.store.writes.contains_key(k) ==> c.store.writes.contains_key(k)
                    && d.store.writes[k] == c.store.writes[k]
        }),
    decreases n,
{
    if n > 0 {
        lemma_spills_dropped(c, rows, txn, (n - 1) as nat);
    }
}

/// Dropping rows takes away exactly the writes that they name and the bodies
/// that they point to, and notes the file of every body that it takes away.
pub proof fn law_dropped_rows_leave_nothing(
    c: Cleanup,
    rows: WriteRows,
    txn: Seq<char>,
    n: nat,
    key: (Seq<char>, Seq<char>),
    handle: Seq<char>,
)
    ensures
        ({
            let d = c.rows_dropped(rows, txn, n);
            let named = exists|i: int|
                0 <= i < n && (#[trigger] rows[i]).1.backend_key == key.1;
            let pointed = exists|i: int|
                0 <= i < n && (#[trigger] rows[i]).1.body_handle == Some(handle);
            &&& d.store.writes.contains_key(key) <==> c.store.writes.contains_key(key) && !(key.0
                == txn && named)
            &&& d.store.writes.contains_key(key) ==> d.store.writes[key] == c.store.writes[key]
            &&& d.store.blobs.contains_key(handle) <==> c.store.blobs.contains_key(handle)
                && !pointed
            &&& d.store.blobs.contains_key(handle) ==> d.store.blobs[handle]
                == c.store.blobs[handle]
            &&& c.garbage.is_prefix_of(d.garbage)
            &&& c.store.blobs.contains_key(handle) && pointed ==> d.garbage.contains(
                c.store.blobs[handle].path,
            )
        }),
    decreases n,
{
    if n > 0 {
        law_dropped_rows_leave_nothing(c, rows, txn, (n - 1) as nat, key, handle);
        let m = c.rows_dropped(rows, txn, (n - 1) as nat);
        let d = c.rows_dropped(rows, txn, n);
        if m.garbage.contains(c.store.blobs[handle].path) {
            let i = choose|i: int|
                0 <= i < m.garbage.len() && m.garbage[i] == c.store.blobs[handle].path;
            assert(d.garbage[i] == c.store.blobs[handle].path);
        }
        if rows[n - 1].1.body_handle == Some(handle) && m.store.blobs.contains_key(handle) {
            assert(d.garbage[m.garbage.len() as int] == c.store.blobs[handle].path);
        }
        if let Some(h) = rows[n - 1].1.body_handle {
            law_dropped_rows_leave_nothing(c, rows, txn, (n - 1) as nat, key, h);
        }
    }
}

/// A commit takes away exactly the rows with a spilled body, together with
/// that body, and notes the file of every body that it takes away.
pub proof fn law_dropped_spills_leave_inline_writes(
    c: Cleanup,
    rows: WriteRows,
    txn: Seq<char>,
    n: nat,
    key: (Seq<char>, Seq<char>),
    handle: Seq<char>,
)
    ensures
        ({
            let d = c.spills_dropped(rows, txn, n);
            let named = exists|i: int|
                0 <= i < n && (#[trigger] rows[i]).1.backend_key == key.1
                    && rows[i].1.body_handle is Some;
            let pointed = exists|i: int|
                0 <= i < n && (#[trigger] rows[i]).1.body_handle == Some(handle);
            &&& d.store.writes.contains_key(key) <==> c.store.writes.contains_key(key) && !(key.0
                == txn && named)
            &&& d.store.writes.contains_key(key) ==> d.store.writes[key] == c.store.writes[key]
            &&& d.store.blobs.contains_key(handle) <==> c.store.blobs.contains_key(handle)
                && !pointed
            &&& d.store.blobs.contains_key(handle) ==> d.store.blobs[handle]
                == c.store.blobs[handle]
            &&& c.garbage.is_prefix_of(d.garbage)
            &&& c.store.blobs.contains_key(handle) && pointed ==> d.garbage.contains(
                c.store.blobs[handle].path,
            )
        }),
    decreases n,
{
    if n > 0 {
        law_dropped_spills_leave_inline_writes(c, rows, txn, (n - 1) as nat, key, handle);
        let m = c.spills_dropped(rows, txn, (n - 1) as nat);
        let d = c.spills_dropped(rows, txn, n);
        if m.garbage.contains(c.store.blobs[handle].path) {
            let i = choose|i: int|
                0 <= i < m.garbage.len() && m.garbage[i] == c.store.blobs[handle].path;
            assert(d.garbage[i] == c.store.blobs[handle].path);
        }
        if rows[n - 1].1.body_handle == Some(handle) && m.store.blobs.contains_key(handle) {
            assert(d.garbage[m.garbage.len() as int] == c.store.blobs[handle].path);
        }
        if let Some(h) = rows[n - 1].1.body_handle {
            law_dropped_spills_leave_inline_writes(c, rows, txn, (n - 1) as nat, key, h);
        }
    }
}

/// The staged writes of one transaction are finitely many where all are.
pub proof fn lemma_write_set_finite(s: StoreView, txn: Seq<char>)
    requires
        s.writes.dom().finite(),
    ensures
        s.write_set(txn).dom().finite(),
{
    let second = |k: (Seq<char>, Seq<char>)| k.1;
    let all = s.writes.dom().map(second);
    s.writes.dom().lemma_map_finite(second);
    assert forall|k: Seq<char>| #[trigger] s.write_set(txn).dom().contains(k) implies all.contains(
        k,
    ) by {
        assert(s.writes.dom().contains((txn, k)));
        assert(second((txn, k)) == k);
    }
    vstd::set_lib::lemma_set_subset_finite(all, s.write_set(txn).dom());
}

/// Some staged write of the transaction has its body under `handle`.
pub open spec fn points_to(s: StoreView, txn: Seq<char>, handle: Seq<char>) -> bool {
    exists|key: Seq<char>| #[trigger]
        s.writes.contains_key((txn, key)) && s.writes[(txn, key)].body_handle == Some(handle)
}

/// Dropping all rows of a transaction takes away its staged writes, the bodies
/// that they point to, and nothing else.
pub proof fn law_dropping_a_write_set_empties_it(
    c: Cleanup,
    txn: Seq<char>,
    key: (Seq<char>, Seq<char>),
    handle: Seq<char>,
)
    requires
        c.store.writes.dom().finite(),
        forall|k: (Seq<char>, Seq<char>)| #[trigger]
            c.store.writes.contains_key(k) ==> c.store.writes[k].backend_key == k.1,
    ensures
        ({
            let rows = listing::<String, WriteSetEntryView>(c.store.write_set(txn));
            let d = c.rows_dropped(rows, txn, rows.len());
            &&& d.store.writes.contains_key(key) <==> c.store.writes.contains_key(key) && key.0
                != txn
            &&& d.store.writes.contains_key(key) ==> d.store.writes[key] == c.store.writes[key]
            &&& d.store.blobs.contains_key(handle) <==> c.store.blobs.contains_key(handle)
                && !points_to(c.store, txn, handle)
            &&& d.store.blobs.contains_key(handle) ==> d.store.blobs[handle]
                == c.store.blobs[handle]
            &&& c.store.blobs.contains_key(handle) && points_to(c.store, txn, handle)
                ==> d.garbage.contains(c.store.blobs[handle].path)
        }),
{
    let ws = c.store.write_set(txn);
    let rows = listing::<String, WriteSetEntryView>(ws);
    lemma_write_set_finite(c.store, txn);
    lemma_finite_listing::<String, WriteSetEntryView>(ws);
    law_dropped_rows_leave_nothing(c, rows, txn, rows.len(), key, handle);
    if c.store.writes.contains_key(key) && key.0 == txn {
        assert(ws.contains_key(key.1));
        assert(rows_map(rows).contains_key(key.1));
        let i = choose|i: int| 0 <= i < rows.len() && (#[trigger] rows[i]).0 == key.1;
        lemma_listed::<String, WriteSetEntryView>(rows, i);
        assert(rows[i].1.backend_key == key.1);
    }
    if points_to(c.store, txn, handle) {
        let k = choose|k: Seq<char>| #[trigger]
            c.store.writes.contains_key((txn, k)) && c.store.writes[(txn, k)].body_handle == Some(
                handle,
            );
        assert(ws.contains_key(k));
        assert(rows_map(rows).contains_key(k));
        let i = choose|i: int| 0 <= i < rows.len() && (#[trigger] rows[i]).0 == k;
        lemma_listed::<String, WriteSetEntryView>(rows, i);
        assert(rows[i].1.body_handle == Some(handle));
    }
    if exists|i: int| 0 <= i < rows.len() && (#[trigger] rows[i]).1.body_handle == Some(handle) {
        let i = choose|i: int|
            0 <= i < rows.len() && (#[trigger] rows[i]).1.body_handle == Some(handle);
        lemma_listed::<String, WriteSetEntryView>(rows, i);
        assert(ws.contains_key(rows[i].0));
        assert(c.store.writes.contains_key((txn, rows[i].0)));
    }
}

/// The spilled rows of a transaction leave with their bodies; its other staged
/// writes, and all of other transactions, stay.
pub proof fn law_dropping_spills_keeps_the_rest(
    c: Cleanup,
    txn: Seq<char>,
    key: (Seq<char>, Seq<char>),
    handle: Seq<char>,
)
    requires
        c.store.writes.dom().finite(),
        forall|k: (Seq<char>, Seq<char>)| #[trigger]
            c.store.writes.contains_key(k) ==> c.store.writes[k].backend_key == k.1,
    ensures
        ({
            let rows = listing::<String, WriteSetEntryView>(c.store.write_set(txn));
            let d = c.spills_dropped(rows, txn, rows.len());
            &&& d.store.writes.contains_key(key) <==> c.store.writes.contains_key(key) && !(key.0
                == txn && c.store.writes[key].body_handle is Some)
            &&& d.store.writes.contains_key(key) ==> d.store.writes[key] == c.store.writes[key]
            &&& d.store.blobs.contains_key(handle) <==> c.store.blobs.contains_key(handle)
                && !points_to(c.store, txn, handle)
            &&& d.store.blobs.contains_key(handle) ==> d.store.blobs[handle]
                == c.store.blobs[handle]
            &&& c.store.blobs.contains_key(handle) && points_to(c.store, txn, handle)
                ==> d.garbage.contains(c.store.blobs[handle].path)
        }),
{
    let ws = c.store.write_set(txn);
    let rows = listing::<String, WriteSetEntryView>(ws);
    lemma_write_set_finite(c.store, txn);
    lemma_finite_listing::<String, WriteSetEntryView>(ws);
    law_dropped_spills_leave_inline_writes(c, rows, txn, rows.len(), key, handle);
    if c.store.writes.contains_key(key) && key.0 == txn {
        assert(ws.contains_key(key.1));
        assert(rows_map(rows).contains_key(key.1));
        let i = choose|i: int| 0 <= i < rows.len() && (#[trigger] rows[i]).0 == key.1;
        lemma_listed::<String, WriteSetEntryView>(rows, i);
        assert(rows[i].1 == c.store.writes[key]);
        assert forall|j: int|
            0 <= j < rows.len() && (#[trigger] rows[j]).1.backend_key == key.1 implies rows[j].1
            == c.store.writes[key] by {
            lemma_listed::<String, WriteSetEntryView>(rows, j);
            assert(ws.contains_key(rows[j].0));
            assert(c.store.writes.contains_key((txn, rows[j].0)));
        }
    }
    if points_to(c.store, txn, handle) {
        let k = choose|k: Seq<char>| #[trigger]
            c.store.writes.contains_key((txn, k)) && c.store.writes[(txn, k)].body_handle == Some(
                handle,
            );
        assert(ws.contains_key(k));
        assert(rows_map(rows).contains_key(k));
        let i = choose|i: int| 0 <= i < rows.len() && (#[trigger] rows[i]).0 == k;
        lemma_listed::<String, WriteSetEntryView>(rows, i);
        assert(rows[i].1.body_handle == Some(handle));
    }
    if exists|i: int| 0 <= i < rows.len() && (#[trigger] rows[i]).1.body_handle == Some(handle) {
        let i = choose|i: int|
            0 <= i < rows.len() && (#[trigger] rows[i]).1.body_handle == Some(handle);
        lemma_listed::<String, WriteSetEntryView>(rows, i);
        assert(ws.contains_key(rows[i].0));
        assert(c.store.writes.contains_key((txn, rows[i].0)));
    }
}

} // verus!
