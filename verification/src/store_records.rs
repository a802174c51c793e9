//! Structured-record indexes of the local store.
//!
//! The record index holds the latest row of each record, the record history
//! every version of it. A write never replaces a newer latest row, and moving
//! a chunk pointer never touches another version.

use crate::order::same_text;
use crate::outside::{json_check, json_failure, json_reads};
use crate::store::{insert_all, LocalStore, RecordId, RecordVersionId, StoreView};
use crate::table::{lemma_ascending, lists, pair_views, under2, TableKey};
use crate::text::copy_bytes;
use crate::txn_state::{
    RecordIndexEntry, RecordIndexEntryView, StoredRecord, StoredRecordVersion,
    StoredRecordVersionView, StoredRecordView,
};
use crate::types::{storage_error, ErrorKind, XtableResult};
use vstd::prelude::*;
use vstd::utf8::encode_utf8;

verus! {

/// The latest row of a record is replaced by a write at `commit_version`:
/// there is none, or it is not newer.
pub open spec fn replaces_latest(s: StoreView, id: RecordId, commit_version: u64) -> bool {
    s.records.contains_key(id) ==> commit_version >= s.records[id].entry.commit_version
}

/// The store after a record is written with its body.
pub open spec fn with_record_body(
    s: StoreView,
    id: RecordId,
    entry: RecordIndexEntryView,
    body: Seq<char>,
) -> StoreView {
    StoreView {
        records: if replaces_latest(s, id, entry.commit_version) {
            s.records.insert(id, StoredRecordView { entry, body_json: Some(body) })
        } else {
            s.records
        },
        record_versions: s.record_versions.insert(
            (id.0, id.1, id.2, entry.commit_version),
            StoredRecordVersionView { entry, body: encode_utf8(body) },
        ),
        ..s
    }
}

/// A record's entry that points to another chunk.
pub open spec fn repointed(e: RecordIndexEntryView, chunk_id: Seq<char>) -> RecordIndexEntryView {
    RecordIndexEntryView { chunk_id, ..e }
}

/// The latest row of the record is of this very version.
pub open spec fn latest_is(s: StoreView, id: RecordId, commit_version: u64) -> bool {
    s.records.contains_key(id) && s.records[id].entry.commit_version == commit_version
}

/// The store after the chunk pointer of one version of a record is moved.
pub open spec fn with_chunk_pointer(
    s: StoreView,
    id: RecordId,
    commit_version: u64,
    chunk_id: Seq<char>,
) -> StoreView {
    let vid = (id.0, id.1, id.2, commit_version);
    StoreView {
        records: if latest_is(s, id, commit_version) {
            s.records.insert(
                id,
                StoredRecordView {
                    entry: repointed(s.records[id].entry, chunk_id),
                    ..s.records[id]
                },
            )
        } else {
            s.records
        },
        record_versions: if s.record_versions.contains_key(vid) {
            s.record_versions.insert(
                vid,
                StoredRecordVersionView {
                    entry: repointed(s.record_versions[vid].entry, chunk_id),
                    ..s.record_versions[vid]
                },
            )
        } else {
            s.record_versions
        },
        ..s
    }
}

/// `v` is the newest version of the record that is visible at `snapshot`.
pub open spec fn newest_version_at(
    m: Map<RecordVersionId, StoredRecordVersionView>,
    id: RecordId,
    snapshot: u64,
    v: u64,
) -> bool {
    &&& m.contains_key((id.0, id.1, id.2, v))
    &&& v <= snapshot
    &&& forall|w: u64|
        #[trigger] m.contains_key((id.0, id.1, id.2, w)) && w <= snapshot ==> w <= v
}

/// A new version of a record, with its body.
pub type VersionUpdate = ((String, String, String), RecordIndexEntry, Vec<u8>);

/// The rows that version updates write.
pub open spec fn version_rows(s: Seq<VersionUpdate>) -> Seq<
    (RecordVersionId, StoredRecordVersionView),
> {
    s.map_values(
        |u: VersionUpdate|
            (
                (u.0.0@, u.0.1@, u.0.2@, u.1.commit_version),
                StoredRecordVersionView { entry: u.1@, body: u.2@ },
            ),
    )
}

/// The latest row of a record with its body, `null` where it carries none, or
/// why its body cannot be read.
pub open spec fn record_with_body(s: StoreView, id: RecordId) -> Result<
    Option<(RecordIndexEntryView, Seq<char>)>,
    (ErrorKind, Seq<char>),
> {
    if !s.records.contains_key(id) {
        Ok(None)
    } else {
        let row = s.records[id];
        if row.body_json is None || row.body_json->0.len() == 0 {
            Ok(Some((row.entry, "null"@)))
        } else {
            match json_failure(row.body_json->0) {
                Some(m) => Err((ErrorKind::Storage, "json: "@ + m)),
                None => Ok(Some((row.entry, row.body_json->0))),
            }
        }
    }
}

/// Index entries of rows.
pub open spec fn entries_of(m: Map<Seq<char>, StoredRecordView>) -> Map<
    Seq<char>,
    RecordIndexEntryView,
> {
    m.map_values(|r: StoredRecordView| r.entry)
}

impl LocalStore {
    /// Stores the latest row of a record, without a body.
    pub fn put_record_index(
        &mut self,
        space: &str,
        table: &str,
        record_id: &str,
        entry: &RecordIndexEntry,
    )
        ensures
            final(self)@ == (StoreView {
                records: old(self)@.records.insert(
                    (space@, table@, record_id@),
                    StoredRecordView { entry: entry@, body_json: None },
                ),
                ..old(self)@
            }),
    {
        self.records.insert(
            (space.to_owned(), table.to_owned(), record_id.to_owned()),
            StoredRecord { entry: entry.clone(), body_json: None },
        );
    }

    /// The latest index entry of a record.
    pub fn get_record_index(&self, space: &str, table: &str, record_id: &str) -> (r: Option<
        RecordIndexEntry,
    >)
        ensures
            match r {
                Some(e) => self@.records.contains_key((space@, table@, record_id@))
                    && self@.records[(space@, table@, record_id@)].entry == e@,
                None => !self@.records.contains_key((space@, table@, record_id@)),
            },
    {
        match self.records.fetch(&(space.to_owned(), table.to_owned(), record_id.to_owned())) {
            Some(row) => Some(row.entry),
            None => None,
        }
    }

    /// Stores a version of a record with its JSON body, and makes it the
    /// latest row unless that one is newer. Refuses a body that is no JSON
    /// value.
    pub fn put_record_index_with_body(
        &mut self,
        space: &str,
        table: &str,
        record_id: &str,
        entry: &RecordIndexEntry,
        body: &str,
    ) -> (r: XtableResult<()>)
        ensures
            json_reads(body@) ==> r is Ok && final(self)@ == with_record_body(
                old(self)@,
                (space@, table@, record_id@),
                entry@,
                body@,
            ),
            !json_reads(body@) ==> (r matches Err(e) && json_failure(body@) matches Some(m) && e@ == (
                ErrorKind::Storage,
                "json: "@ + m,
            )) && final(self)@ == old(self)@,
    {
        match json_check(body) {
            Ok(()) => {},
            Err(m) => return Err(storage_error("json: ", m.as_str())),
        }
        let replace_latest: bool = match self.get_record_index(space, table, record_id) {
            None => true,
            Some(current) => entry.commit_version >= current.commit_version,
        };
        if replace_latest {
            self.records.insert(
                (space.to_owned(), table.to_owned(), record_id.to_owned()),
                StoredRecord { entry: entry.clone(), body_json: Some(body.to_owned()) },
            );
        }
        self.put_record_version(space, table, record_id, entry, body.as_bytes());
        Ok(())
    }

    /// Stores one historical version of a record. The latest row stays as it
    /// is.
    pub fn put_record_version(
        &mut self,
        space: &str,
        table: &str,
        record_id: &str,
        entry: &RecordIndexEntry,
        body: &[u8],
    )
        ensures
            final(self)@ == (StoreView {
                record_versions: old(self)@.record_versions.insert(
                    (space@, table@, record_id@, entry.commit_version),
                    StoredRecordVersionView { entry: entry@, body: body@ },
                ),
                ..old(self)@
            }),
    {
        self.record_versions.insert(
            (space.to_owned(), table.to_owned(), record_id.to_owned(), entry.commit_version),
            StoredRecordVersion { entry: entry.clone(), body: copy_bytes(body) },
        );
    }

    /// Stores several historical versions.
    pub fn put_record_versions_bulk(&mut self, updates: &Vec<VersionUpdate>)
        ensures
            final(self)@ == (StoreView {
                record_versions: insert_all(
                    old(self)@.record_versions,
                    version_rows(updates@),
                    updates@.len(),
                ),
                ..old(self)@
            }),
    {
        let mut i: usize = 0;
        while i < updates.len()
            invariant
                i <= updates.len(),
                self@ == (StoreView {
                    record_versions: insert_all(
                        old(self)@.record_versions,
                        version_rows(updates@),
                        i as nat,
                    ),
                    ..old(self)@
                }),
            decreases updates.len() - i,
        {
            let u = &updates[i];
            self.put_record_version(
                u.0.0.as_str(),
                u.0.1.as_str(),
                u.0.2.as_str(),
                &u.1,
                u.2.as_slice(),
            );
            i += 1;
        }
    }

    /// The newest version of a record that is visible at `snapshot`.
    pub fn get_record_version_at_snapshot(
        &self,
        space: &str,
        table: &str,
        record_id: &str,
        snapshot: u64,
    ) -> (r: Option<(RecordIndexEntry, Vec<u8>)>)
        ensures
            match r {
                Some((e, b)) => exists|v: u64| #[trigger]
                    newest_version_at(
                        self@.record_versions,
                        (space@, table@, record_id@),
                        snapshot,
                        v,
                    ) && self@.record_versions[(space@, table@, record_id@, v)] == (
                    StoredRecordVersionView { entry: e@, body: b@ }),
                None => forall|v: u64| #[trigger]
                    self@.record_versions.contains_key((space@, table@, record_id@, v)) ==> v
                        > snapshot,
            },
    {
        let n = self.record_versions.len();
        let ghost rows = self.record_versions.rows();
        let ghost m = self.record_versions@;
        let mut best: Option<usize> = None;
        let mut i: usize = 0;
        while i < n
            invariant
                i <= n,
                n == rows.len(),
                rows == self.record_versions.rows(),
                forall|p: int|
                    0 <= p < i && (#[trigger] rows[p]).0.0 == space@ && rows[p].0.1 == table@
                        && rows[p].0.2 == record_id@ && rows[p].0.3 <= snapshot
                        ==> best is Some && p <= best->0,
                best matches Some(b) ==> b < i && rows[b as int].0.0 == space@
                    && rows[b as int].0.1 == table@ && rows[b as int].0.2 == record_id@
                    && rows[b as int].0.3 <= snapshot,
            decreases n - i,
        {
            let key = self.record_versions.key_at(i);
            if key.3 <= snapshot && same_text(key.0.as_str(), space) && same_text(
                key.1.as_str(),
                table,
            ) && same_text(key.2.as_str(), record_id) {
                best = Some(i);
            }
            i += 1;
        }
        match best {
            None => {
                proof {
                    assert forall|v: u64| #[trigger]
                        m.contains_key((space@, table@, record_id@, v)) implies v > snapshot by {
                        let p = choose|p: int|
                            0 <= p < rows.len() && (#[trigger] rows[p]).0 == (
                                space@,
                                table@,
                                record_id@,
                                v,
                            );
                        assert(rows[p].0.3 == v);
                    }
                }
                None
            },
            Some(b) => {
                let row = self.record_versions.value_at(b).clone();
                proof {
                    let id = (space@, table@, record_id@);
                    let v = rows[b as int].0.3;
                    assert(rows[b as int].0 == (id.0, id.1, id.2, v));
                    assert forall|w: u64| #[trigger]
                        m.contains_key((id.0, id.1, id.2, w)) && w <= snapshot implies w <= v by {
                        let p = choose|p: int|
                            0 <= p < rows.len() && (#[trigger] rows[p]).0 == (
                                id.0,
                                id.1,
                                id.2,
                                w,
                            );
                        assert(rows[p].0.3 == w);
                        if p < b {
                            lemma_ascending::<
                                (String, String, String, u64),
                                StoredRecordVersionView,
                            >(rows, p, b as int);
                            crate::order::lemma_text_irreflexive(id.0);
                            crate::order::lemma_text_irreflexive(id.1);
                            crate::order::lemma_text_irreflexive(id.2);
                        }
                    }
                    assert(m.contains_key(rows[b as int].0));
                    assert(m[(id.0, id.1, id.2, v)] == row@);
                    assert(newest_version_at(self@.record_versions, id, snapshot, v));
                    assert(self@.record_versions[(space@, table@, record_id@, v)] == (
                    StoredRecordVersionView { entry: row.entry@, body: row.body@ }));
                }
                Some((row.entry, row.body))
            },
        }
    }

    /// The latest index entry of a record with its JSON body, `null` where
    /// there is none. Fails on a stored body that is no JSON value.
    pub fn get_record_index_with_body(&self, space: &str, table: &str, record_id: &str) -> (r:
        XtableResult<Option<(RecordIndexEntry, String)>>)
        ensures
            match record_with_body(self@, (space@, table@, record_id@)) {
                Err(k) => r matches Err(e) && e@ == k,
                Ok(None) => r matches Ok(o) && o is None,
                Ok(Some((entry, body))) => r matches Ok(Some((e, b))) && e@ == entry && b@ == body,
            },
    {
        match self.records.fetch(&(space.to_owned(), table.to_owned(), record_id.to_owned())) {
            None => Ok(None),
            Some(row) => match row.body_json {
                None => Ok(Some((row.entry, "null".to_owned()))),
                Some(text) => {
                    if text.as_str().is_empty() {
                        return Ok(Some((row.entry, "null".to_owned())));
                    }
                    match json_check(text.as_str()) {
                        Ok(()) => Ok(Some((row.entry, text))),
                        Err(m) => Err(storage_error("json: ", m.as_str())),
                    }
                },
            },
        }
    }

    /// Drops the latest row of a record.
    pub fn delete_record_index(&mut self, space: &str, table: &str, record_id: &str)
        ensures
            final(self)@ == (StoreView {
                records: old(self)@.records.remove((space@, table@, record_id@)),
                ..old(self)@
            }),
    {
        self.records.remove(&(space.to_owned(), table.to_owned(), record_id.to_owned()));
    }

    /// Moves the chunk pointer of a record's latest row; the body stays.
    /// Returns whether there was a row.
    pub fn update_record_index_chunk_id(
        &mut self,
        space: &str,
        table: &str,
        record_id: &str,
        new_chunk_id: &str,
    ) -> (r: bool)
        ensures
            r == old(self)@.records.contains_key((space@, table@, record_id@)),
            final(self)@ == if r {
                let row = old(self)@.records[(space@, table@, record_id@)];
                StoreView {
                    records: old(self)@.records.insert(
                        (space@, table@, record_id@),
                        StoredRecordView { entry: repointed(row.entry, new_chunk_id@), ..row },
                    ),
                    ..old(self)@
                }
            } else {
                old(self)@
            },
    {
        let key = (space.to_owned(), table.to_owned(), record_id.to_owned());
        match self.records.fetch(&key) {
            None => false,
            Some(row) => {
                let mut next = row;
                next.entry.chunk_id = new_chunk_id.to_owned();
                self.records.insert(key, next);
                true
            },
        }
    }

    /// Moves the chunk pointer of one version of a record. The latest row
    /// follows only if it is of this very version. Returns whether anything
    /// changed.
    pub fn update_record_index_chunk_id_for_version(
        &mut self,
        space: &str,
        table: &str,
        record_id: &str,
        commit_version: u64,
        new_chunk_id: &str,
    ) -> (r: bool)
        ensures
            final(self)@ == with_chunk_pointer(
                old(self)@,
                (space@, table@, record_id@),
                commit_version,
                new_chunk_id@,
            ),
            r == (latest_is(old(self)@, (space@, table@, record_id@), commit_version)
                || old(self)@.record_versions.contains_key(
                (space@, table@, record_id@, commit_version),
            )),
    {
        let mut changed: bool = false;
        let latest: bool = match self.get_record_index(space, table, record_id) {
            Some(e) => e.commit_version == commit_version,
            None => false,
        };
        if latest {
            changed = self.update_record_index_chunk_id(space, table, record_id, new_chunk_id);
        }
        let vkey = (space.to_owned(), table.to_owned(), record_id.to_owned(), commit_version);
        match self.record_versions.fetch(&vkey) {
            None => {},
            Some(row) => {
                let mut next = row;
                next.entry.chunk_id = new_chunk_id.to_owned();
                self.record_versions.insert(vkey, next);
                changed = true;
            },
        }
        changed
    }

    /// The latest index entries of a table, in order of their record ids.
    pub fn iter_record_index(&self, space: &str, table: &str) -> (r: Vec<
        (String, RecordIndexEntry),
    >)
        ensures
            lists::<String, RecordIndexEntryView>(
                pair_views(r@),
                entries_of(under2(self@.records, space@, table@)),
            ),
    {
        let rows = self.records.list_under2(&space.to_owned(), &table.to_owned());
        let ghost listed = pair_views(rows@);
        let ghost m = under2(self@.records, space@, table@);
        let mut out: Vec<(String, RecordIndexEntry)> = Vec::new();
        let mut i: usize = 0;
        while i < rows.len()
            invariant
                i <= rows.len(),
                out@.len() == i,
                listed == pair_views(rows@),
                forall|p: int|
                    0 <= p < i ==> (#[trigger] pair_views(out@)[p]) == (
                        listed[p].0,
                        listed[p].1.entry,
                    ),
            decreases rows.len() - i,
        {
            let ghost before = pair_views(out@);
            out.push((rows[i].0.clone(), rows[i].1.entry.clone()));
            assert(pair_views(out@) =~= before.push((listed[i as int].0, listed[i as int].1.entry)));
            i += 1;
        }
        proof {
            let o = pair_views(out@);
            assert forall|p: int, q: int| 0 <= p < q < o.len() implies String::before(
                (#[trigger] o[p]).0,
                (#[trigger] o[q]).0,
            ) by {
                lemma_ascending::<String, StoredRecordView>(listed, p, q);
            }
            assert forall|p: int| 0 <= p < o.len() implies entries_of(m).contains_key(
                (#[trigger] o[p]).0,
            ) && entries_of(m)[o[p].0] == o[p].1 by {
                crate::table::lemma_listed::<String, StoredRecordView>(listed, p);
            }
            assert forall|k: Seq<char>| #[trigger] entries_of(m).contains_key(k) implies exists|
                p: int,
            |
                0 <= p < o.len() && (#[trigger] o[p]).0 == k by {
                assert(crate::table::rows_map(listed).contains_key(k));
                let p = choose|p: int| 0 <= p < listed.len() && (#[trigger] listed[p]).0 == k;
                assert(o[p].0 == k);
            }
            crate::table::lemma_lists::<String, RecordIndexEntryView>(o, entries_of(m));
        }
        out
    }
}

} // verus!
