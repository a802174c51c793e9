//! Ordered tables.
//!
//! A [`Table`] holds one row per key, in ascending key order. It stands for a
//! map from keys to values, and for the sequence of its rows in that order.

use crate::order::{
    compare_text, lemma_text_irreflexive, lemma_text_total, lemma_text_transitive, text_before,
    KeyOrder,
};
use vstd::prelude::*;

verus! {

/// A key type with a strict total order on its views.
pub trait TableKey: View + Sized {
    /// `a` sorts before `b`.
    spec fn before(a: Self::V, b: Self::V) -> bool;

    proof fn lemma_irreflexive(a: Self::V)
        ensures
            !Self::before(a, a),
    ;

    proof fn lemma_transitive(a: Self::V, b: Self::V, c: Self::V)
        requires
            Self::before(a, b),
            Self::before(b, c),
        ensures
            Self::before(a, c),
    ;

    proof fn lemma_total(a: Self::V, b: Self::V)
        ensures
            Self::before(a, b) || a == b || Self::before(b, a),
    ;

    /// How `self` stands to `other`.
    fn compare(&self, other: &Self) -> (r: KeyOrder)
        ensures
            match r {
                KeyOrder::Less => Self::before(self@, other@),
                KeyOrder::Equal => self@ == other@,
                KeyOrder::Greater => Self::before(other@, self@),
            },
    ;

    /// A copy of the key.
    fn duplicate(&self) -> (r: Self)
        ensures
            r@ == self@,
    ;
}

impl TableKey for u64 {
    open spec fn before(a: u64, b: u64) -> bool {
        a < b
    }

    proof fn lemma_irreflexive(a: u64) {
    }

    proof fn lemma_transitive(a: u64, b: u64, c: u64) {
    }

    proof fn lemma_total(a: u64, b: u64) {
    }

    fn compare(&self, other: &Self) -> (r: KeyOrder) {
        if *self < *other {
            KeyOrder::Less
        } else if *self == *other {
            KeyOrder::Equal
        } else {
            KeyOrder::Greater
        }
    }

    fn duplicate(&self) -> (r: Self) {
        *self
    }
}

impl TableKey for String {
    open spec fn before(a: Seq<char>, b: Seq<char>) -> bool {
        text_before(a, b)
    }

    proof fn lemma_irreflexive(a: Seq<char>) {
        lemma_text_irreflexive(a);
    }

    proof fn lemma_transitive(a: Seq<char>, b: Seq<char>, c: Seq<char>) {
        lemma_text_transitive(a, b, c);
    }

    proof fn lemma_total(a: Seq<char>, b: Seq<char>) {
        lemma_text_total(a, b);
    }

    fn compare(&self, other: &Self) -> (r: KeyOrder) {
        compare_text(self.as_str(), other.as_str())
    }

    fn duplicate(&self) -> (r: Self) {
        self.clone()
    }
}

impl<A: TableKey, B: TableKey> TableKey for (A, B) {
    open spec fn before(a: (A::V, B::V), b: (A::V, B::V)) -> bool {
        A::before(a.0, b.0) || (a.0 == b.0 && B::before(a.1, b.1))
    }

    proof fn lemma_irreflexive(a: (A::V, B::V)) {
        A::lemma_irreflexive(a.0);
        B::lemma_irreflexive(a.1);
    }

    proof fn lemma_transitive(a: (A::V, B::V), b: (A::V, B::V), c: (A::V, B::V)) {
        if A::before(a.0, b.0) {
            if A::before(b.0, c.0) {
                A::lemma_transitive(a.0, b.0, c.0);
            }
        } else if !A::before(b.0, c.0) {
            B::lemma_transitive(a.1, b.1, c.1);
        }
    }

    proof fn lemma_total(a: (A::V, B::V), b: (A::V, B::V)) {
        A::lemma_total(a.0, b.0);
        B::lemma_total(a.1, b.1);
    }

    fn compare(&self, other: &Self) -> (r: KeyOrder) {
        match self.0.compare(&other.0) {
            KeyOrder::Equal => self.1.compare(&other.1),
            o => o,
        }
    }

    fn duplicate(&self) -> (r: Self) {
        (self.0.duplicate(), self.1.duplicate())
    }
}

impl<A: TableKey, B: TableKey, C: TableKey> TableKey for (A, B, C) {
    open spec fn before(a: (A::V, B::V, C::V), b: (A::V, B::V, C::V)) -> bool {
        A::before(a.0, b.0) || (a.0 == b.0 && <(B, C) as TableKey>::before(
            (a.1, a.2),
            (b.1, b.2),
        ))
    }

    proof fn lemma_irreflexive(a: (A::V, B::V, C::V)) {
        A::lemma_irreflexive(a.0);
        <(B, C) as TableKey>::lemma_irreflexive((a.1, a.2));
    }

    proof fn lemma_transitive(
        a: (A::V, B::V, C::V),
        b: (A::V, B::V, C::V),
        c: (A::V, B::V, C::V),
    ) {
        if A::before(a.0, b.0) {
            if A::before(b.0, c.0) {
                A::lemma_transitive(a.0, b.0, c.0);
            }
        } else if !A::before(b.0, c.0) {
            <(B, C) as TableKey>::lemma_transitive((a.1, a.2), (b.1, b.2), (c.1, c.2));
        }
    }

    proof fn lemma_total(a: (A::V, B::V, C::V), b: (A::V, B::V, C::V)) {
        A::lemma_total(a.0, b.0);
        <(B, C) as TableKey>::lemma_total((a.1, a.2), (b.1, b.2));
    }

    fn compare(&self, other: &Self) -> (r: KeyOrder) {
        match self.0.compare(&other.0) {
            KeyOrder::Equal => match self.1.compare(&other.1) {
                KeyOrder::Equal => self.2.compare(&other.2),
                o => o,
            },
            o => o,
        }
    }

    fn duplicate(&self) -> (r: Self) {
        (self.0.duplicate(), self.1.duplicate(), self.2.duplicate())
    }
}

impl<A: TableKey, B: TableKey, C: TableKey, D: TableKey> TableKey for (A, B, C, D) {
    open spec fn before(a: (A::V, B::V, C::V, D::V), b: (A::V, B::V, C::V, D::V)) -> bool {
        A::before(a.0, b.0) || (a.0 == b.0 && <(B, C, D) as TableKey>::before(
            (a.1, a.2, a.3),
            (b.1, b.2, b.3),
        ))
    }

    proof fn lemma_irreflexive(a: (A::V, B::V, C::V, D::V)) {
        A::lemma_irreflexive(a.0);
        <(B, C, D) as TableKey>::lemma_irreflexive((a.1, a.2, a.3));
    }

    proof fn lemma_transitive(
        a: (A::V, B::V, C::V, D::V),
        b: (A::V, B::V, C::V, D::V),
        c: (A::V, B::V, C::V, D::V),
    ) {
        if A::before(a.0, b.0) {
            if A::before(b.0, c.0) {
                A::lemma_transitive(a.0, b.0, c.0);
            }
        } else if !A::before(b.0, c.0) {
            <(B, C, D) as TableKey>::lemma_transitive(
                (a.1, a.2, a.3),
                (b.1, b.2, b.3),
                (c.1, c.2, c.3),
            );
        }
    }

    proof fn lemma_total(a: (A::V, B::V, C::V, D::V), b: (A::V, B::V, C::V, D::V)) {
        A::lemma_total(a.0, b.0);
        <(B, C, D) as TableKey>::lemma_total((a.1, a.2, a.3), (b.1, b.2, b.3));
    }

    fn compare(&self, other: &Self) -> (r: KeyOrder) {
        match self.0.compare(&other.0) {
            KeyOrder::Equal => match self.1.compare(&other.1) {
                KeyOrder::Equal => match self.2.compare(&other.2) {
                    KeyOrder::Equal => self.3.compare(&other.3),
                    o => o,
                },
                o => o,
            },
            o => o,
        }
    }

    fn duplicate(&self) -> (r: Self) {
        (self.0.duplicate(), self.1.duplicate(), self.2.duplicate(), self.3.duplicate())
    }
}

/// Rows in strictly ascending key order.
pub open spec fn ascending<K: TableKey, W>(rows: Seq<(K::V, W)>) -> bool {
    forall|i: int, j: int|
        0 <= i < j < rows.len() ==> K::before((#[trigger] rows[i]).0, (#[trigger] rows[j]).0)
}

/// Two rows of an ascending sequence stand in the order of their positions.
pub proof fn lemma_ascending<K: TableKey, W>(rows: Seq<(K::V, W)>, i: int, j: int)
    requires
        ascending::<K, W>(rows),
        0 <= i < j < rows.len(),
    ensures
        K::before(rows[i].0, rows[j].0),
{
}

/// The map that a sequence of rows with distinct keys stands for.
pub open spec fn rows_map<K, W>(rows: Seq<(K, W)>) -> Map<K, W> {
    Map::new(
        |k: K| exists|i: int| 0 <= i < rows.len() && (#[trigger] rows[i]).0 == k,
        |k: K| rows[choose|i: int| 0 <= i < rows.len() && (#[trigger] rows[i]).0 == k].1,
    )
}

/// A table of rows in ascending key order, one row per key.
pub struct Table<K: TableKey, V: View> {
    entries: Vec<(K, V)>,
}

impl<K: TableKey, V: View> View for Table<K, V> {
    type V = Map<K::V, V::V>;

    open spec fn view(&self) -> Map<K::V, V::V> {
        rows_map(self.rows())
    }
}

impl<K: TableKey, V: View> Table<K, V> {
    /// The rows, in ascending key order.
    pub closed spec fn rows(&self) -> Seq<(K::V, V::V)> {
        self.entries@.map_values(|e: (K, V)| (e.0@, e.1@))
    }

    #[verifier::type_invariant]
    spec fn sorted(&self) -> bool {
        ascending::<K, V::V>(self.rows())
    }

    proof fn lemma_position(rows: Seq<(K::V, V::V)>, i: int)
        requires
            ascending::<K, V::V>(rows),
            0 <= i < rows.len(),
        ensures
            rows_map(rows).contains_key(rows[i].0),
            rows_map(rows)[rows[i].0] == rows[i].1,
    {
        let k = rows[i].0;
        let j = choose|j: int| 0 <= j < rows.len() && (#[trigger] rows[j]).0 == k;
        if i < j {
            K::lemma_irreflexive(k);
        } else if j < i {
            K::lemma_irreflexive(k);
        }
    }

    /// An empty table.
    pub fn new() -> (r: Self)
        ensures
            r@ == Map::<K::V, V::V>::empty(),
            r.rows() == Seq::<(K::V, V::V)>::empty(),
    {
        let r = Table { entries: Vec::new() };
        assert(r.rows() =~= Seq::<(K::V, V::V)>::empty());
        assert(r@ =~= Map::<K::V, V::V>::empty());
        r
    }

    /// Number of rows. The rows are in ascending key order and make up the map.
    pub fn len(&self) -> (n: usize)
        ensures
            n == self.rows().len(),
            ascending::<K, V::V>(self.rows()),
            forall|i: int|
                0 <= i < self.rows().len() ==> self@.contains_key((#[trigger] self.rows()[i]).0)
                    && self@[self.rows()[i].0] == self.rows()[i].1,
            forall|k: K::V| #[trigger]
                self@.contains_key(k) ==> exists|i: int|
                    0 <= i < self.rows().len() && (#[trigger] self.rows()[i]).0 == k,
            self.rows() == listing::<K, V::V>(self@),
    {
        proof {
            use_type_invariant(self);
            assert forall|i: int| 0 <= i < self.rows().len() implies self@.contains_key(
                (#[trigger] self.rows()[i]).0,
            ) && self@[self.rows()[i].0] == self.rows()[i].1 by {
                Self::lemma_position(self.rows(), i);
            }
            lemma_lists::<K, V::V>(self.rows(), self@);
            lemma_listing::<K, V::V>(self.rows(), self@);
        }
        self.entries.len()
    }

    /// Key of row `i`.
    pub fn key_at(&self, i: usize) -> (k: &K)
        requires
            i < self.rows().len(),
        ensures
            k@ == self.rows()[i as int].0,
    {
        &self.entries[i].0
    }

    /// Value of row `i`.
    pub fn value_at(&self, i: usize) -> (v: &V)
        requires
            i < self.rows().len(),
        ensures
            v@ == self.rows()[i as int].1,
    {
        &self.entries[i].1
    }

    /// First position whose key does not sort before `key`, and whether that
    /// position holds `key` itself.
    fn locate(entries: &Vec<(K, V)>, key: &K) -> (r: (usize, bool))
        requires
            ascending::<K, V::V>(entries@.map_values(|e: (K, V)| (e.0@, e.1@))),
        ensures
            r.0 <= entries.len(),
            forall|i: int| 0 <= i < r.0 ==> K::before((#[trigger] entries@[i]).0@, key@),
            r.1 ==> r.0 < entries.len() && entries@[r.0 as int].0@ == key@,
            !r.1 ==> forall|i: int|
                r.0 <= i < entries.len() ==> K::before(key@, (#[trigger] entries@[i]).0@),
    {
        let ghost rows = entries@.map_values(|e: (K, V)| (e.0@, e.1@));
        let mut lo: usize = 0;
        let mut hi: usize = entries.len();
        while lo < hi
            invariant
                lo <= hi <= entries.len(),
                rows == entries@.map_values(|e: (K, V)| (e.0@, e.1@)),
                ascending::<K, V::V>(rows),
                forall|i: int| 0 <= i < lo ==> K::before((#[trigger] entries@[i]).0@, key@),
                forall|i: int|
                    hi <= i < entries.len() ==> K::before(key@, (#[trigger] entries@[i]).0@),
            decreases hi - lo,
        {
            let mid: usize = lo + (hi - lo) / 2;
            match entries[mid].0.compare(key) {
                KeyOrder::Less => {
                    proof {
                        assert forall|i: int| 0 <= i < mid + 1 implies K::before(
                            (#[trigger] entries@[i]).0@,
                            key@,
                        ) by {
                            if i < mid {
                                assert(K::before(rows[i].0, rows[mid as int].0));
                                K::lemma_transitive(
                                    entries@[i].0@,
                                    entries@[mid as int].0@,
                                    key@,
                                );
                            }
                        }
                    }
                    lo = mid + 1;
                },
                KeyOrder::Equal => {
                    proof {
                        assert forall|i: int| 0 <= i < mid implies K::before(
                            (#[trigger] entries@[i]).0@,
                            key@,
                        ) by {
                            assert(K::before(rows[i].0, rows[mid as int].0));
                        }
                    }
                    return (mid, true);
                },
                KeyOrder::Greater => {
                    proof {
                        assert forall|i: int| mid <= i < entries.len() implies K::before(
                            key@,
                            (#[trigger] entries@[i]).0@,
                        ) by {
                            if mid < i {
                                assert(K::before(rows[mid as int].0, rows[i].0));
                                K::lemma_transitive(
                                    key@,
                                    entries@[mid as int].0@,
                                    entries@[i].0@,
                                );
                            }
                        }
                    }
                    hi = mid;
                },
            }
        }
        (lo, false)
    }

    /// The value stored under `key`.
    pub fn get(&self, key: &K) -> (r: Option<&V>)
        ensures
            match r {
                Some(v) => self@.contains_key(key@) && self@[key@] == v@,
                None => !self@.contains_key(key@),
            },
    {
        proof {
            use_type_invariant(self);
        }
        let (pos, found) = Self::locate(&self.entries, key);
        if found {
            proof {
                Self::lemma_position(self.rows(), pos as int);
            }
            Some(&self.entries[pos].1)
        } else {
            proof {
                if self@.contains_key(key@) {
                    let i = choose|i: int|
                        0 <= i < self.rows().len() && (#[trigger] self.rows()[i]).0 == key@;
                    assert(self.entries@[i].0@ == key@);
                    K::lemma_irreflexive(key@);
                }
            }
            None
        }
    }

    /// Stores `value` under `key`, in place of what was there.
    pub fn insert(&mut self, key: K, value: V)
        ensures
            final(self)@ == old(self)@.insert(key@, value@),
    {
        proof {
            use_type_invariant(&*self);
        }
        let mut entries: Vec<(K, V)> = Vec::new();
        std::mem::swap(&mut entries, &mut self.entries);
        let ghost before = entries@.map_values(|e: (K, V)| (e.0@, e.1@));
        let (pos, found) = Self::locate(&entries, &key);
        let ghost kv = key@;
        let ghost vv = value@;
        if found {
            entries[pos] = (key, value);
        } else {
            entries.insert(pos, (key, value));
        }
        let ghost after = entries@.map_values(|e: (K, V)| (e.0@, e.1@));
        proof {
            if found {
                assert(after =~= before.update(pos as int, (kv, vv)));
                assert forall|i: int, j: int| 0 <= i < j < after.len() implies K::before(
                    (#[trigger] after[i]).0,
                    (#[trigger] after[j]).0,
                ) by {
                    assert(K::before(before[i].0, before[j].0));
                }
            } else {
                assert(after =~= before.insert(pos as int, (kv, vv)));
                assert forall|i: int, j: int| 0 <= i < j < after.len() implies K::before(
                    (#[trigger] after[i]).0,
                    (#[trigger] after[j]).0,
                ) by {
                    if i < pos && j > pos {
                        assert(K::before(before[i].0, before[j - 1].0));
                    } else if i < pos && j < pos {
                        assert(K::before(before[i].0, before[j].0));
                    } else if i > pos {
                        assert(K::before(before[i - 1].0, before[j - 1].0));
                    }
                }
            }
            assert forall|k: K::V| #[trigger]
                rows_map(after).contains_key(k) <==> (k == kv || rows_map(before).contains_key(
                    k,
                )) by {
                if rows_map(before).contains_key(k) && k != kv {
                    let i = choose|i: int|
                        0 <= i < before.len() && (#[trigger] before[i]).0 == k;
                    let j = if !found && i >= pos {
                        i + 1
                    } else {
                        i
                    };
                    assert(after[j].0 == k);
                }
                if k == kv {
                    assert(after[pos as int].0 == kv);
                }
                if rows_map(after).contains_key(k) && k != kv {
                    let i = choose|i: int| 0 <= i < after.len() && (#[trigger] after[i]).0 == k;
                    let j = if !found && i > pos {
                        i - 1
                    } else {
                        i
                    };
                    assert(before[j].0 == k);
                }
            }
            assert forall|k: K::V| #[trigger]
                rows_map(after).contains_key(k) implies rows_map(after)[k] == (if k == kv {
                vv
            } else {
                rows_map(before)[k]
            }) by {
                let i = choose|i: int| 0 <= i < after.len() && (#[trigger] after[i]).0 == k;
                Self::lemma_position(after, i);
                if k == kv {
                    Self::lemma_position(after, pos as int);
                } else {
                    let j = if !found && i > pos {
                        i - 1
                    } else {
                        i
                    };
                    Self::lemma_position(before, j);
                }
            }
            assert(rows_map(after) =~= rows_map(before).insert(kv, vv));
        }
        self.entries = entries;
    }

    /// Removes the row under `key`, and returns its value.
    pub fn remove(&mut self, key: &K) -> (r: Option<V>)
        ensures
            final(self)@ == old(self)@.remove(key@),
            match r {
                Some(v) => old(self)@.contains_key(key@) && old(self)@[key@] == v@,
                None => !old(self)@.contains_key(key@),
            },
    {
        proof {
            use_type_invariant(&*self);
        }
        let mut entries: Vec<(K, V)> = Vec::new();
        std::mem::swap(&mut entries, &mut self.entries);
        let ghost before = entries@.map_values(|e: (K, V)| (e.0@, e.1@));
        let (pos, found) = Self::locate(&entries, key);
        let mut taken: Option<V> = None;
        if found {
            proof {
                Self::lemma_position(before, pos as int);
            }
            let (_k, v) = entries.remove(pos);
            taken = Some(v);
        } else {
            proof {
                if rows_map(before).contains_key(key@) {
                    let i = choose|i: int|
                        0 <= i < before.len() && (#[trigger] before[i]).0 == key@;
                    assert(entries@[i].0@ == key@);
                    K::lemma_irreflexive(key@);
                }
            }
        }
        let ghost after = entries@.map_values(|e: (K, V)| (e.0@, e.1@));
        proof {
            if found {
                assert(after =~= before.remove(pos as int));
                assert forall|i: int, j: int| 0 <= i < j < after.len() implies K::before(
                    (#[trigger] after[i]).0,
                    (#[trigger] after[j]).0,
                ) by {
                    let p = if i >= pos {
                        i + 1
                    } else {
                        i
                    };
                    let q = if j >= pos {
                        j + 1
                    } else {
                        j
                    };
                    assert(K::before(before[p].0, before[q].0));
                }
                assert forall|k: K::V| #[trigger]
                    rows_map(after).contains_key(k) <==> (k != key@ && rows_map(
                        before,
                    ).contains_key(k)) by {
                    if rows_map(after).contains_key(k) {
                        let i = choose|i: int|
                            0 <= i < after.len() && (#[trigger] after[i]).0 == k;
                        let p = if i >= pos {
                            i + 1
                        } else {
                            i
                        };
                        assert(before[p].0 == k);
                        if k == key@ {
                            K::lemma_irreflexive(k);
                            if p < pos {
                                assert(K::before(before[p].0, before[pos as int].0));
                            } else {
                                assert(K::before(before[pos as int].0, before[p].0));
                            }
                        }
                    }
                    if k != key@ && rows_map(before).contains_key(k) {
                        let i = choose|i: int|
                            0 <= i < before.len() && (#[trigger] before[i]).0 == k;
                        let p = if i > pos {
                            i - 1
                        } else {
                            i
                        };
                        assert(after[p].0 == k);
                    }
                }
                assert forall|k: K::V| #[trigger]
                    rows_map(after).contains_key(k) implies rows_map(after)[k] == rows_map(
                    before,
                )[k] by {
                    let i = choose|i: int| 0 <= i < after.len() && (#[trigger] after[i]).0 == k;
                    Self::lemma_position(after, i);
                    let p = if i >= pos {
                        i + 1
                    } else {
                        i
                    };
                    Self::lemma_position(before, p);
                }
            }
            assert(rows_map(after) =~= rows_map(before).remove(key@));
        }
        self.entries = entries;
        taken
    }
}

impl<K: TableKey, V: View> Table<K, V> {
    /// Replaces the value of row `i`.
    pub fn set_value_at(&mut self, i: usize, value: V)
        requires
            i < old(self).rows().len(),
        ensures
            final(self).rows() == old(self).rows().update(
                i as int,
                (old(self).rows()[i as int].0, value@),
            ),
            final(self)@ == old(self)@.insert(old(self).rows()[i as int].0, value@),
    {
        proof {
            use_type_invariant(&*self);
        }
        let mut entries: Vec<(K, V)> = Vec::new();
        std::mem::swap(&mut entries, &mut self.entries);
        let ghost before = entries@.map_values(|e: (K, V)| (e.0@, e.1@));
        let ghost vv = value@;
        let ghost k = before[i as int].0;
        entries[i].1 = value;
        let ghost after = entries@.map_values(|e: (K, V)| (e.0@, e.1@));
        proof {
            assert(after =~= before.update(i as int, (k, vv)));
            assert forall|p: int, q: int| 0 <= p < q < after.len() implies K::before(
                (#[trigger] after[p]).0,
                (#[trigger] after[q]).0,
            ) by {
                assert(K::before(before[p].0, before[q].0));
            }
            assert forall|x: K::V| #[trigger]
                rows_map(after).contains_key(x) <==> rows_map(before).contains_key(x) by {
                if rows_map(after).contains_key(x) {
                    let w = choose|w: int| 0 <= w < after.len() && (#[trigger] after[w]).0 == x;
                    assert(before[w].0 == x);
                }
                if rows_map(before).contains_key(x) {
                    let w = choose|w: int| 0 <= w < before.len() && (#[trigger] before[w]).0 == x;
                    assert(after[w].0 == x);
                }
            }
            Self::lemma_position(before, i as int);
            Self::lemma_position(after, i as int);
            assert forall|x: K::V| #[trigger]
                rows_map(after).contains_key(x) && x != k implies rows_map(after)[x] == rows_map(
                before,
            )[x] by {
                let w = choose|w: int| 0 <= w < after.len() && (#[trigger] after[w]).0 == x;
                Self::lemma_position(after, w);
                Self::lemma_position(before, w);
            }
            assert(rows_map(after) =~= rows_map(before).insert(k, vv));
        }
        self.entries = entries;
    }

    /// Removes the rows under `keys`.
    pub fn remove_all(&mut self, keys: &Vec<K>)
        ensures
            final(self)@ == old(self)@.remove_keys(key_set(keys@)),
    {
        let ghost m = self@;
        let mut j: usize = 0;
        proof {
            assert(m.remove_keys(key_set(keys@.take(0))) =~= m);
        }
        while j < keys.len()
            invariant
                j <= keys.len(),
                self@ == m.remove_keys(key_set(keys@.take(j as int))),
            decreases keys.len() - j,
        {
            self.remove(&keys[j]);
            proof {
                let s0 = keys@.take(j as int);
                let s1 = keys@.take(j + 1);
                assert forall|x: K::V| #[trigger]
                    key_set(s1).contains(x) <==> (key_set(s0).contains(x) || x
                        == keys@[j as int]@) by {
                    if key_set(s0).contains(x) {
                        let w = choose|w: int| 0 <= w < s0.len() && (#[trigger] s0[w])@ == x;
                        assert(s1[w]@ == x);
                    }
                    if key_set(s1).contains(x) {
                        let w = choose|w: int| 0 <= w < s1.len() && (#[trigger] s1[w])@ == x;
                        if w < s0.len() {
                            assert(s0[w]@ == x);
                        }
                    }
                    if x == keys@[j as int]@ {
                        assert(s1[j as int]@ == x);
                    }
                }
                assert(self@ =~= m.remove_keys(key_set(s1)));
            }
            j += 1;
        }
        assert(keys@.take(j as int) =~= keys@);
    }

    /// Stores all rows of `other`, in place of what was under their keys.
    pub fn absorb(&mut self, other: Self)
        ensures
            final(self)@ == old(self)@.union_prefer_right(other@),
    {
        let ghost m = self@;
        let ghost rows = other.rows();
        let ghost om = other@;
        let n = other.len();
        proof {
            assert(m.union_prefer_right(rows_map(rows.skip(n as int))) =~= m);
        }
        let mut left = other.entries;
        while left.len() > 0
            invariant
                left@.len() <= n,
                n == rows.len(),
                ascending::<K, V::V>(rows),
                left@.map_values(|e: (K, V)| (e.0@, e.1@)) == rows.take(left@.len() as int),
                self@ == m.union_prefer_right(rows_map(rows.skip(left@.len() as int))),
            decreases left.len(),
        {
            let ghost k: int = left@.len() as int;
            let ghost before = left@;
            let last = left.pop();
            match last {
                Some((key, value)) => {
                    let ghost kv = key@;
                    let ghost vv = value@;
                    assert(rows.take(k)[k - 1] == (kv, vv));
                    self.insert(key, value);
                    proof {
                        assert(left@.map_values(|e: (K, V)| (e.0@, e.1@)) =~= rows.take(k - 1));
                        let s0 = rows.skip(k);
                        let s1 = rows.skip(k - 1);
                        assert(s1[0] == (kv, vv));
                        assert(forall|i: int| 0 <= i < s0.len() ==> #[trigger] s0[i] == s1[i + 1]);
                        assert forall|p: int, q: int| 0 <= p < q < s1.len() implies K::before(
                            (#[trigger] s1[p]).0,
                            (#[trigger] s1[q]).0,
                        ) by {
                            assert(K::before(rows[p + k - 1].0, rows[q + k - 1].0));
                        }
                        assert forall|p: int, q: int| 0 <= p < q < s0.len() implies K::before(
                            (#[trigger] s0[p]).0,
                            (#[trigger] s0[q]).0,
                        ) by {
                            assert(K::before(rows[p + k].0, rows[q + k].0));
                        }
                        Self::lemma_position(s1, 0);
                        assert forall|x: K::V| #[trigger]
                            rows_map(s1).contains_key(x) <==> (x == kv || rows_map(
                                s0,
                            ).contains_key(x)) by {
                            if rows_map(s1).contains_key(x) {
                                let w = choose|w: int|
                                    0 <= w < s1.len() && (#[trigger] s1[w]).0 == x;
                                if w > 0 {
                                    assert(s0[w - 1].0 == x);
                                }
                            }
                            if rows_map(s0).contains_key(x) {
                                let w = choose|w: int|
                                    0 <= w < s0.len() && (#[trigger] s0[w]).0 == x;
                                assert(s1[w + 1].0 == x);
                            }
                        }
                        assert forall|x: K::V| #[trigger]
                            rows_map(s0).contains_key(x) && x != kv implies rows_map(s1)[x]
                            == rows_map(s0)[x] by {
                            let w = choose|w: int|
                                0 <= w < s0.len() && (#[trigger] s0[w]).0 == x;
                            Self::lemma_position(s0, w);
                            Self::lemma_position(s1, w + 1);
                        }
                        assert(self@ =~= m.union_prefer_right(rows_map(s1)));
                    }
                },
                None => {},
            }
        }
        proof {
            assert(rows.skip(0) =~= rows);
        }
    }
}

/// The views of `keys`.
pub open spec fn key_set<K: View>(keys: Seq<K>) -> Set<K::V> {
    Set::new(|x: K::V| exists|i: int| 0 <= i < keys.len() && (#[trigger] keys[i])@ == x)
}

/// A value that can be copied out of a table.
pub trait Row: View + Sized {
    /// A copy of the value.
    fn copy_row(&self) -> (r: Self)
        ensures
            r@ == self@,
    ;
}

impl Row for u64 {
    fn copy_row(&self) -> (r: Self) {
        *self
    }
}

impl Row for String {
    fn copy_row(&self) -> (r: Self) {
        self.clone()
    }
}

/// Views of keys and values.
pub open spec fn pair_views<K: View, V: View>(s: Seq<(K, V)>) -> Seq<(K::V, V::V)> {
    s.map_values(|e: (K, V)| (e.0@, e.1@))
}

/// `rows` lists the map `m` in ascending key order.
pub open spec fn lists<K: TableKey, W>(rows: Seq<(K::V, W)>, m: Map<K::V, W>) -> bool {
    ascending::<K, W>(rows) && rows_map(rows) == m
}

/// Each row of a listing is in the map under its key.
pub proof fn lemma_listed<K: TableKey, W>(rows: Seq<(K::V, W)>, i: int)
    requires
        ascending::<K, W>(rows),
        0 <= i < rows.len(),
    ensures
        rows_map(rows).contains_key(rows[i].0),
        rows_map(rows)[rows[i].0] == rows[i].1,
{
    let k = rows[i].0;
    let j = choose|j: int| 0 <= j < rows.len() && (#[trigger] rows[j]).0 == k;
    if i < j || j < i {
        K::lemma_irreflexive(k);
    }
}

/// A listing in ascending order with the keys and values of `m` lists `m`.
pub proof fn lemma_lists<K: TableKey, W>(rows: Seq<(K::V, W)>, m: Map<K::V, W>)
    requires
        ascending::<K, W>(rows),
        forall|i: int|
            0 <= i < rows.len() ==> m.contains_key((#[trigger] rows[i]).0) && m[rows[i].0]
                == rows[i].1,
        forall|k: K::V| #[trigger]
            m.contains_key(k) ==> exists|i: int| 0 <= i < rows.len() && (#[trigger] rows[i]).0 == k,
    ensures
        lists::<K, W>(rows, m),
{
    assert forall|k: K::V| #[trigger] rows_map(rows).contains_key(k) implies m.contains_key(k)
        && rows_map(rows)[k] == m[k] by {
        let i = choose|i: int| 0 <= i < rows.len() && (#[trigger] rows[i]).0 == k;
        lemma_listed::<K, W>(rows, i);
    }
    assert(rows_map(rows) =~= m);
}

/// The rows of `m` in ascending key order.
pub open spec fn listing<K: TableKey, W>(m: Map<K::V, W>) -> Seq<(K::V, W)> {
    choose|rows: Seq<(K::V, W)>| lists::<K, W>(rows, m)
}

/// Two listings of the same map agree on their first `n` rows.
proof fn lemma_listings_agree<K: TableKey, W>(
    a: Seq<(K::V, W)>,
    b: Seq<(K::V, W)>,
    m: Map<K::V, W>,
    n: nat,
)
    requires
        lists::<K, W>(a, m),
        lists::<K, W>(b, m),
        n <= a.len(),
    ensures
        n <= b.len(),
        forall|i: int| 0 <= i < n ==> a[i] == b[i],
    decreases n,
{
    if n > 0 {
        lemma_listings_agree::<K, W>(a, b, m, (n - 1) as nat);
        let x = a[n - 1];
        lemma_listed::<K, W>(a, n - 1);
        assert(rows_map(b).contains_key(x.0));
        let j = choose|j: int| 0 <= j < b.len() && (#[trigger] b[j]).0 == x.0;
        lemma_listed::<K, W>(b, j);
        if j < n - 1 {
            assert(a[j] == b[j]);
            lemma_ascending::<K, W>(a, j, n - 1);
            K::lemma_irreflexive(x.0);
        }
        if j > n - 1 {
            let y = b[n - 1];
            lemma_ascending::<K, W>(b, n - 1, j);
            lemma_listed::<K, W>(b, n - 1);
            assert(rows_map(a).contains_key(y.0));
            let k = choose|k: int| 0 <= k < a.len() && (#[trigger] a[k]).0 == y.0;
            if k < n - 1 {
                assert(a[k] == b[k]);
                lemma_ascending::<K, W>(b, k, n - 1);
                K::lemma_irreflexive(y.0);
            } else if k == n - 1 {
                K::lemma_irreflexive(x.0);
            } else {
                lemma_ascending::<K, W>(a, n - 1, k);
                K::lemma_transitive(x.0, y.0, x.0);
                K::lemma_irreflexive(x.0);
            }
        }
    }
}

/// A map has one listing.
pub proof fn lemma_listing<K: TableKey, W>(rows: Seq<(K::V, W)>, m: Map<K::V, W>)
    requires
        lists::<K, W>(rows, m),
    ensures
        listing::<K, W>(m) == rows,
        lists::<K, W>(listing::<K, W>(m), m),
{
    let other = listing::<K, W>(m);
    lemma_listings_agree::<K, W>(rows, other, m, rows.len());
    lemma_listings_agree::<K, W>(other, rows, m, other.len());
    assert(other =~= rows);
}

/// One more than the last position below `n` whose key sorts before `k`, 0 if
/// there is none.
spec fn rank<K: TableKey, W>(rows: Seq<(K::V, W)>, k: K::V, n: nat) -> nat
    decreases n,
{
    if n == 0 {
        0
    } else if K::before(rows[n - 1].0, k) {
        n
    } else {
        rank::<K, W>(rows, k, (n - 1) as nat)
    }
}

proof fn lemma_rank<K: TableKey, W>(rows: Seq<(K::V, W)>, k: K::V, n: nat)
    requires
        n <= rows.len(),
        ascending::<K, W>(rows),
        forall|i: int| 0 <= i < rows.len() ==> (#[trigger] rows[i]).0 != k,
    ensures
        rank::<K, W>(rows, k, n) <= n,
        forall|i: int|
            0 <= i < rank::<K, W>(rows, k, n) ==> K::before((#[trigger] rows[i]).0, k),
        forall|i: int|
            rank::<K, W>(rows, k, n) <= i < n ==> K::before(k, (#[trigger] rows[i]).0),
    decreases n,
{
    if n > 0 {
        if K::before(rows[n - 1].0, k) {
            assert forall|i: int| 0 <= i < n implies K::before((#[trigger] rows[i]).0, k) by {
                if i < n - 1 {
                    lemma_ascending::<K, W>(rows, i, n - 1);
                    K::lemma_transitive(rows[i].0, rows[n - 1].0, k);
                }
            }
        } else {
            lemma_rank::<K, W>(rows, k, (n - 1) as nat);
            K::lemma_total(rows[n - 1].0, k);
        }
    }
}

/// A row put at its place keeps a listing ascending.
proof fn lemma_row_inserted<K: TableKey, W>(rows: Seq<(K::V, W)>, at: int, row: (K::V, W))
    requires
        ascending::<K, W>(rows),
        0 <= at <= rows.len(),
        forall|i: int| 0 <= i < at ==> K::before((#[trigger] rows[i]).0, row.0),
        forall|i: int| at <= i < rows.len() ==> K::before(row.0, (#[trigger] rows[i]).0),
    ensures
        ascending::<K, W>(rows.insert(at, row)),
{
    let r = rows.insert(at, row);
    assert forall|i: int, j: int| 0 <= i < j < r.len() implies K::before(
        (#[trigger] r[i]).0,
        (#[trigger] r[j]).0,
    ) by {
        let a = if i < at {
            i
        } else {
            i - 1
        };
        let b = if j < at {
            j
        } else {
            j - 1
        };
        if i != at {
            assert(r[i] == rows[a]);
        }
        if j != at {
            assert(r[j] == rows[b]);
        }
        if i != at && j != at {
            lemma_ascending::<K, W>(rows, a, b);
        }
    }
}

/// Every finite map has a listing.
pub proof fn lemma_finite_listing<K: TableKey, W>(m: Map<K::V, W>)
    requires
        m.dom().finite(),
    ensures
        lists::<K, W>(listing::<K, W>(m), m),
    decreases m.dom().len(),
{
    if m.dom().len() == 0 {
        let rows: Seq<(K::V, W)> = Seq::empty();
        assert(rows_map(rows) =~= m);
        assert(lists::<K, W>(rows, m));
    } else {
        let k = m.dom().choose();
        let rest = m.remove(k);
        assert(m.dom().contains(k));
        assert(rest.dom() =~= m.dom().remove(k));
        lemma_finite_listing::<K, W>(rest);
        let rows = listing::<K, W>(rest);
        assert forall|i: int| 0 <= i < rows.len() implies (#[trigger] rows[i]).0 != k by {
            lemma_listed::<K, W>(rows, i);
        }
        let at = rank::<K, W>(rows, k, rows.len()) as int;
        lemma_rank::<K, W>(rows, k, rows.len());
        lemma_row_inserted::<K, W>(rows, at, (k, m[k]));
        let r = rows.insert(at, (k, m[k]));
        assert forall|i: int| 0 <= i < r.len() implies m.contains_key((#[trigger] r[i]).0)
            && m[r[i].0] == r[i].1 by {
            if i < at {
                assert(r[i] == rows[i]);
                lemma_listed::<K, W>(rows, i);
            } else if i > at {
                assert(r[i] == rows[i - 1]);
                lemma_listed::<K, W>(rows, i - 1);
            }
        }
        assert forall|x: K::V| #[trigger] m.contains_key(x) implies exists|i: int|
            0 <= i < r.len() && (#[trigger] r[i]).0 == x by {
            if x == k {
                assert(r[at].0 == x);
            } else {
                assert(rows_map(rows).contains_key(x));
                let i = choose|i: int| 0 <= i < rows.len() && (#[trigger] rows[i]).0 == x;
                if i < at {
                    assert(r[i].0 == x);
                } else {
                    assert(r[i + 1].0 == x);
                }
            }
        }
        lemma_lists::<K, W>(r, m);
    }
}

impl<K: TableKey, V: Row> Table<K, V> {
    /// Copies of all rows, in ascending key order.
    pub fn list(&self) -> (r: Vec<(K, V)>)
        ensures
            pair_views(r@) == self.rows(),
            lists::<K, V::V>(pair_views(r@), self@),
    {
        let mut out: Vec<(K, V)> = Vec::new();
        let n = self.len();
        let mut i: usize = 0;
        assert(pair_views(out@) =~= self.rows().take(0));
        while i < n
            invariant
                i <= n,
                n == self.rows().len(),
                pair_views(out@) == self.rows().take(i as int),
            decreases n - i,
        {
            let ghost before = out@;
            out.push((self.key_at(i).duplicate(), self.value_at(i).copy_row()));
            proof {
                assert(pair_views(out@) =~= pair_views(before).push(self.rows()[i as int]));
                assert(self.rows().take(i + 1) =~= self.rows().take(i as int).push(
                    self.rows()[i as int],
                ));
            }
            i += 1;
        }
        assert(self.rows().take(i as int) =~= self.rows());
        out
    }

    /// A copy of the value under `key`.
    pub fn fetch(&self, key: &K) -> (r: Option<V>)
        ensures
            match r {
                Some(v) => self@.contains_key(key@) && self@[key@] == v@,
                None => !self@.contains_key(key@),
            },
    {
        match self.get(key) {
            Some(v) => Some(v.copy_row()),
            None => None,
        }
    }

    /// A copy of the table.
    pub fn copy_table(&self) -> (r: Self)
        ensures
            r@ == self@,
            r.rows() == self.rows(),
    {
        proof {
            use_type_invariant(self);
        }
        let entries = self.list();
        assert(entries@.map_values(|e: (K, V)| (e.0@, e.1@)) == self.rows());
        Table { entries }
    }
}

/// Rows with the same keys and changed values stand for the map with changed
/// values.
pub proof fn lemma_mapped_rows<K: TableKey, W>(
    before: Seq<(K::V, W)>,
    after: Seq<(K::V, W)>,
    f: spec_fn(W) -> W,
)
    requires
        ascending::<K, W>(before),
        after.len() == before.len(),
        forall|i: int|
            0 <= i < before.len() ==> #[trigger] after[i] == (before[i].0, f(before[i].1)),
    ensures
        rows_map(after) == rows_map(before).map_values(f),
{
    assert forall|i: int, j: int| 0 <= i < j < after.len() implies K::before(
        (#[trigger] after[i]).0,
        (#[trigger] after[j]).0,
    ) by {
        lemma_ascending::<K, W>(before, i, j);
    }
    assert forall|k: K::V| #[trigger]
        rows_map(after).contains_key(k) <==> rows_map(before).contains_key(k) by {
        if rows_map(after).contains_key(k) {
            let i = choose|i: int| 0 <= i < after.len() && (#[trigger] after[i]).0 == k;
            assert(before[i].0 == k);
        }
        if rows_map(before).contains_key(k) {
            let i = choose|i: int| 0 <= i < before.len() && (#[trigger] before[i]).0 == k;
            assert(after[i].0 == k);
        }
    }
    assert forall|k: K::V| #[trigger]
        rows_map(after).contains_key(k) implies rows_map(after)[k] == f(rows_map(before)[k]) by {
        let i = choose|i: int| 0 <= i < after.len() && (#[trigger] after[i]).0 == k;
        lemma_listed::<K, W>(after, i);
        lemma_listed::<K, W>(before, i);
    }
    assert(rows_map(after) =~= rows_map(before).map_values(f));
}

/// A listing has one row per key: what is listed is finite, and has as many
/// keys as there are rows.
pub proof fn law_listing_has_a_row_per_key<K: TableKey, W>(rows: Seq<(K::V, W)>, m: Map<K::V, W>)
    requires
        lists::<K, W>(rows, m),
    ensures
        m.dom().finite(),
        rows.len() == m.dom().len(),
        forall|k: K::V| #[trigger]
            m.contains_key(k) <==> exists|i: int| 0 <= i < rows.len() && (#[trigger] rows[i]).0 == k,
        forall|i: int| 0 <= i < rows.len() ==> m[(#[trigger] rows[i]).0] == rows[i].1,
{
    let keys = rows.map_values(|r: (K::V, W)| r.0);
    assert(keys.no_duplicates()) by {
        assert forall|i: int, j: int| 0 <= i < keys.len() && 0 <= j < keys.len() && i
            != j implies keys[i] != keys[j] by {
            if i < j {
                assert(K::before(rows[i].0, rows[j].0));
            } else {
                assert(K::before(rows[j].0, rows[i].0));
            }
            K::lemma_irreflexive(rows[i].0);
        }
    }
    assert forall|i: int| 0 <= i < rows.len() implies m[(#[trigger] rows[i]).0] == rows[i].1 by {
        lemma_listed::<K, W>(rows, i);
    }
    keys.unique_seq_to_set();
    vstd::seq_lib::seq_to_set_is_finite(keys);
    assert forall|k: K::V| #[trigger] m.dom().contains(k) <==> keys.to_set().contains(k) by {
        if m.dom().contains(k) {
            let i = choose|i: int| 0 <= i < rows.len() && (#[trigger] rows[i]).0 == k;
            assert(keys[i] == k);
        }
        if keys.contains(k) {
            let i = choose|i: int| 0 <= i < keys.len() && keys[i] == k;
            assert(rows[i].0 == k);
        }
    }
    assert(m.dom() =~= keys.to_set());
}

/// The rows of `m` whose key begins with `a`, by the rest of the key.
pub open spec fn under<A, B, W>(m: Map<(A, B), W>, a: A) -> Map<B, W> {
    Map::new(|b: B| m.contains_key((a, b)), |b: B| m[(a, b)])
}

/// The rows of `m` whose key begins with `a` and `b`, by the rest of the key.
pub open spec fn under2<A, B, C, W>(m: Map<(A, B, C), W>, a: A, b: B) -> Map<C, W> {
    Map::new(|c: C| m.contains_key((a, b, c)), |c: C| m[(a, b, c)])
}

/// The positions `from` pick rows of a listing, in order.
pub open spec fn picks(from: Seq<int>, limit: int) -> bool {
    &&& forall|p: int| 0 <= p < from.len() ==> 0 <= #[trigger] from[p] < limit
    &&& forall|p: int, q: int| 0 <= p < q < from.len() ==> #[trigger] from[p] < #[trigger] from[q]
}

pub proof fn lemma_picks_push(from: Seq<int>, i: int)
    requires
        picks(from, i),
        0 <= i,
    ensures
        picks(from.push(i), i + 1),
        picks(from, i + 1),
        forall|q: int| from.contains(q) ==> #[trigger] from.push(i).contains(q),
        from.push(i).contains(i),
{
    let t = from.push(i);
    assert forall|p: int| 0 <= p < t.len() implies 0 <= #[trigger] t[p] < i + 1 by {
        if p < from.len() {
            assert(t[p] == from[p]);
        }
    }
    assert forall|q: int| from.contains(q) implies #[trigger] t.contains(q) by {
        let w = choose|w: int| 0 <= w < from.len() && from[w] == q;
        assert(t[w] == q);
    }
    assert(t[from.len() as int] == i);
}

impl<A: TableKey, B: TableKey, V: Row> Table<(A, B), V> {
    /// The rows whose key begins with `first`, in order of the rest.
    pub fn list_under(&self, first: &A) -> (r: Vec<(B, V)>)
        ensures
            lists::<B, V::V>(pair_views(r@), under(self@, first@)),
    {
        let mut out: Vec<(B, V)> = Vec::new();
        let n = self.len();
        let ghost rows = self.rows();
        let ghost mut from: Seq<int> = Seq::empty();
        let mut i: usize = 0;
        while i < n
            invariant
                i <= n,
                n == rows.len(),
                rows == self.rows(),
                picks(from, i as int),
                from.len() == out@.len(),
                forall|p: int|
                    0 <= p < from.len() ==> rows[#[trigger] from[p]] == (
                        (first@, out@[p].0@),
                        out@[p].1@,
                    ),
                forall|q: int| 0 <= q < i && (#[trigger] rows[q]).0.0 == first@ ==> from.contains(q),
            decreases n - i,
        {
            let key = self.key_at(i);
            let matched = match key.0.compare(first) {
                KeyOrder::Equal => true,
                _ => false,
            };
            proof {
                if !matched && rows[i as int].0.0 == first@ {
                    A::lemma_irreflexive(first@);
                }
                lemma_picks_push(from, i as int);
            }
            if matched {
                out.push((key.1.duplicate(), self.value_at(i).copy_row()));
                proof {
                    from = from.push(i as int);
                }
            }
            i += 1;
        }
        proof {
            let o = pair_views(out@);
            let m = under(self@, first@);
            assert forall|p: int, q: int| 0 <= p < q < o.len() implies B::before(
                (#[trigger] o[p]).0,
                (#[trigger] o[q]).0,
            ) by {
                let x = from[p];
                let y = from[q];
                assert(<(A, B) as TableKey>::before(rows[x].0, rows[y].0));
                A::lemma_irreflexive(first@);
            }
            assert forall|p: int| 0 <= p < o.len() implies m.contains_key((#[trigger] o[p]).0)
                && m[o[p].0] == o[p].1 by {
                let x = from[p];
                assert(self@.contains_key(rows[x].0));
            }
            assert forall|k: B::V| #[trigger] m.contains_key(k) implies exists|p: int|
                0 <= p < o.len() && (#[trigger] o[p]).0 == k by {
                assert(self@.contains_key((first@, k)));
                let w = choose|w: int|
                    0 <= w < rows.len() && (#[trigger] rows[w]).0 == (first@, k);
                assert(from.contains(w));
                let p = choose|p: int| 0 <= p < from.len() && from[p] == w;
                assert(o[p].0 == k);
            }
            lemma_lists::<B, V::V>(o, m);
        }
        out
    }
}

impl<A: TableKey, B: TableKey, C: TableKey, V: Row> Table<(A, B, C), V> {
    /// The rows whose key begins with `first` and `second`, in order of the
    /// rest.
    pub fn list_under2(&self, first: &A, second: &B) -> (r: Vec<(C, V)>)
        ensures
            lists::<C, V::V>(pair_views(r@), under2(self@, first@, second@)),
    {
        let mut out: Vec<(C, V)> = Vec::new();
        let n = self.len();
        let ghost rows = self.rows();
        let ghost mut from: Seq<int> = Seq::empty();
        let mut i: usize = 0;
        while i < n
            invariant
                i <= n,
                n == rows.len(),
                rows == self.rows(),
                picks(from, i as int),
                from.len() == out@.len(),
                forall|p: int|
                    0 <= p < from.len() ==> rows[#[trigger] from[p]] == (
                        (first@, second@, out@[p].0@),
                        out@[p].1@,
                    ),
                forall|q: int|
                    0 <= q < i && (#[trigger] rows[q]).0.0 == first@ && rows[q].0.1 == second@
                        ==> from.contains(q),
            decreases n - i,
        {
            let key = self.key_at(i);
            let matched_first = match key.0.compare(first) {
                KeyOrder::Equal => true,
                _ => false,
            };
            let matched_second = match key.1.compare(second) {
                KeyOrder::Equal => true,
                _ => false,
            };
            proof {
                A::lemma_irreflexive(first@);
                B::lemma_irreflexive(second@);
                lemma_picks_push(from, i as int);
            }
            if matched_first && matched_second {
                out.push((key.2.duplicate(), self.value_at(i).copy_row()));
                proof {
                    from = from.push(i as int);
                }
            }
            i += 1;
        }
        proof {
            let o = pair_views(out@);
            let m = under2(self@, first@, second@);
            assert forall|p: int, q: int| 0 <= p < q < o.len() implies C::before(
                (#[trigger] o[p]).0,
                (#[trigger] o[q]).0,
            ) by {
                let x = from[p];
                let y = from[q];
                assert(<(A, B, C) as TableKey>::before(rows[x].0, rows[y].0));
                A::lemma_irreflexive(first@);
                B::lemma_irreflexive(second@);
            }
            assert forall|p: int| 0 <= p < o.len() implies m.contains_key((#[trigger] o[p]).0)
                && m[o[p].0] == o[p].1 by {
                let x = from[p];
                assert(self@.contains_key(rows[x].0));
            }
            assert forall|k: C::V| #[trigger] m.contains_key(k) implies exists|p: int|
                0 <= p < o.len() && (#[trigger] o[p]).0 == k by {
                assert(self@.contains_key((first@, second@, k)));
                let w = choose|w: int|
                    0 <= w < rows.len() && (#[trigger] rows[w]).0 == (first@, second@, k);
                assert(from.contains(w));
                let p = choose|p: int| 0 <= p < from.len() && from[p] == w;
                assert(o[p].0 == k);
            }
            lemma_lists::<C, V::V>(o, m);
        }
        out
    }
}

} // verus!
