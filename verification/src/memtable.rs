//! In-memory table of recent writes.
//!
//! Every committed write goes first into the active memtable. When that
//! crosses its size or age limit it becomes immutable and waits for the flush
//! that writes it to a chunk.
//!
//! An entry is invisible until its commit version is assigned; reads see the
//! entries with `commit_version <= snapshot`.

use crate::outside::{
    bytes_from, bytes_held, bytes_share, bytes_to_vec, slots_get, slots_held, slots_insert,
    slots_new, SlotMap,
};
use crate::text::{copy_optional_text, copy_pairs, optional_text, text_pairs};
use crate::types::XtableResult;
use vstd::prelude::*;

verus! {

/// Composite record key: `(space, table, record_id)`.
pub type RecordKey = (String, String, String);

/// Views of a composite record key.
pub type RecordKeyView = (Seq<char>, Seq<char>, Seq<char>);

/// Shard count of the key map.
pub const DEFAULT_SHARD_COUNT: usize = 32;

/// Version of an entry that no reader sees.
pub const INVISIBLE: u64 = u64::MAX;

/// Least size that an entry counts for.
pub const MIN_ENTRY_SIZE: u64 = 64;

/// Body bytes.
#[derive(Debug)]
pub struct RecordValue {
    pub bytes: bytes::Bytes,
}

impl View for RecordValue {
    type V = Seq<u8>;

    open spec fn view(&self) -> Seq<u8> {
        bytes_held(self.bytes)
    }
}

impl RecordValue {
    /// A value of the given bytes.
    pub fn new(bytes: Vec<u8>) -> (r: Self)
        ensures
            r@ == bytes@,
    {
        RecordValue { bytes: bytes_from(bytes) }
    }
}

impl Clone for RecordValue {
    fn clone(&self) -> (r: Self)
        ensures
            r@ == self@,
    {
        RecordValue { bytes: bytes_share(&self.bytes) }
    }
}

/// A single in-memory entry.
#[derive(Debug)]
pub struct MemEntry {
    pub key: RecordKey,
    /// Body bytes.
    pub value: RecordValue,
    /// Version that makes the entry visible; `INVISIBLE` while staged.
    pub commit_version: u64,
    pub txn_id: String,
    /// Delete marker.
    pub deleted: bool,
    pub content_type: Option<String>,
    pub user_meta: Vec<(String, String)>,
    pub schema_version: u32,
    pub wal_seq: u64,
    /// Approximate size, for the flush policy.
    pub size_bytes: u64,
}

/// Mathematical view of a [`MemEntry`].
pub ghost struct MemEntryView {
    pub key: RecordKeyView,
    pub value: Seq<u8>,
    pub commit_version: u64,
    pub txn_id: Seq<char>,
    pub deleted: bool,
    pub content_type: Option<Seq<char>>,
    pub user_meta: Seq<(Seq<char>, Seq<char>)>,
    pub schema_version: u32,
    pub wal_seq: u64,
    pub size_bytes: u64,
}

impl View for MemEntry {
    type V = MemEntryView;

    open spec fn view(&self) -> MemEntryView {
        MemEntryView {
            key: self.key@,
            value: self.value@,
            commit_version: self.commit_version,
            txn_id: self.txn_id@,
            deleted: self.deleted,
            content_type: optional_text(self.content_type),
            user_meta: text_pairs(self.user_meta@),
            schema_version: self.schema_version,
            wal_seq: self.wal_seq,
            size_bytes: self.size_bytes,
        }
    }
}

impl Clone for MemEntry {
    fn clone(&self) -> (r: Self)
        ensures
            r@ == self@,
    {
        MemEntry {
            key: (self.key.0.clone(), self.key.1.clone(), self.key.2.clone()),
            value: self.value.clone(),
            commit_version: self.commit_version,
            txn_id: self.txn_id.clone(),
            deleted: self.deleted,
            content_type: copy_optional_text(&self.content_type),
            user_meta: copy_pairs(&self.user_meta),
            schema_version: self.schema_version,
            wal_seq: self.wal_seq,
            size_bytes: self.size_bytes,
        }
    }
}

/// The entry is committed at or before `snapshot`.
pub open spec fn entry_visible(e: MemEntryView, snapshot: u64) -> bool {
    e.commit_version != INVISIBLE && e.commit_version <= snapshot
}

impl MemEntry {
    /// True if the entry is committed at or before `snapshot`.
    pub fn visible_at(&self, snapshot: u64) -> (r: bool)
        ensures
            r == entry_visible(self@, snapshot),
    {
        self.commit_version != INVISIBLE && self.commit_version <= snapshot
    }

    /// True if the entry is still staged.
    pub fn is_invisible(&self) -> (r: bool)
        ensures
            r == (self@.commit_version == INVISIBLE),
    {
        self.commit_version == INVISIBLE
    }
}

/// Flat form of a [`MemEntry`].
#[derive(Debug)]
pub struct SerializedEntry {
    pub space: String,
    pub table: String,
    pub record_id: String,
    pub body: Vec<u8>,
    pub commit_version: u64,
    pub txn_id: String,
    pub deleted: bool,
    pub content_type: Option<String>,
    pub user_meta: Vec<(String, String)>,
    pub schema_version: u32,
    pub wal_seq: u64,
}

impl SerializedEntry {
    /// The flat entry holds what the memtable entry holds.
    pub open spec fn flattens(&self, e: MemEntryView) -> bool {
        &&& self.space@ == e.key.0
        &&& self.table@ == e.key.1
        &&& self.record_id@ == e.key.2
        &&& self.body@ == e.value
        &&& self.commit_version == e.commit_version
        &&& self.txn_id@ == e.txn_id
        &&& self.deleted == e.deleted
        &&& optional_text(self.content_type) == e.content_type
        &&& text_pairs(self.user_meta@) == e.user_meta
        &&& self.schema_version == e.schema_version
        &&& self.wal_seq == e.wal_seq
    }
}

impl From<&MemEntry> for SerializedEntry {
    fn from(e: &MemEntry) -> (r: Self)
        ensures
            r.flattens(e@),
    {
        SerializedEntry {
            space: e.key.0.clone(),
            table: e.key.1.clone(),
            record_id: e.key.2.clone(),
            body: bytes_to_vec(&e.value.bytes),
            commit_version: e.commit_version,
            txn_id: e.txn_id.clone(),
            deleted: e.deleted,
            content_type: copy_optional_text(&e.content_type),
            user_meta: copy_pairs(&e.user_meta),
            schema_version: e.schema_version,
            wal_seq: e.wal_seq,
        }
    }
}

impl vstd::std_specs::convert::FromSpecImpl<&MemEntry> for SerializedEntry {
    open spec fn obeys_from_spec() -> bool {
        false
    }

    open spec fn from_spec(e: &MemEntry) -> Self {
        arbitrary()
    }
}

/// Limits of the flush pipeline.
#[derive(Debug, Clone, Copy, PartialEq, Eq, Structural)]
pub struct FlushPolicy {
    /// Size at which a memtable is flushed.
    pub memtable_size_bytes: usize,
    /// Age at which a memtable is flushed, in milliseconds.
    pub memtable_age_ms: u64,
    /// Size from which inserts are held back.
    pub soft_limit_bytes: usize,
}

/// 64 MiB, one minute, 51 MiB.
pub open spec fn default_policy() -> FlushPolicy {
    FlushPolicy {
        memtable_size_bytes: 67108864,
        memtable_age_ms: 60000,
        soft_limit_bytes: 53477376,
    }
}

impl Default for FlushPolicy {
    /// 64 MiB, one minute, 51 MiB.
    fn default() -> (r: Self)
        ensures
            r == default_policy(),
    {
        FlushPolicy {
            memtable_size_bytes: 64 * 1024 * 1024,
            memtable_age_ms: 60 * 1000,
            soft_limit_bytes: 51 * 1024 * 1024,
        }
    }
}

/// Mathematical view of a [`MemTable`].
#[verifier::ext_equal]
pub ghost struct MemTableView {
    pub id: u64,
    /// Entries, in the order in which their keys came.
    pub entries: Seq<MemEntryView>,
    pub bytes_estimate: u64,
    pub earliest_seq: u64,
    pub latest_seq: u64,
}

/// Position of the entry with `key`, among the first `n`.
pub open spec fn slot_of(entries: Seq<MemEntryView>, key: RecordKeyView, n: nat) -> Option<int>
    decreases n,
{
    if n == 0 {
        None
    } else if entries[n - 1].key == key {
        Some(n - 1)
    } else {
        slot_of(entries, key, (n - 1) as nat)
    }
}

impl MemTableView {
    /// A memtable without entries.
    pub open spec fn empty(id: u64) -> MemTableView {
        MemTableView {
            id,
            entries: Seq::empty(),
            bytes_estimate: 0,
            earliest_seq: u64::MAX,
            latest_seq: 0,
        }
    }

    /// Position of the entry with `key`.
    pub open spec fn slot(self, key: RecordKeyView) -> Option<int> {
        slot_of(self.entries, key, self.entries.len())
    }

    /// No two entries have the same key.
    pub open spec fn keys_distinct(self) -> bool {
        forall|i: int, j: int|
            0 <= i < j < self.entries.len() ==> (#[trigger] self.entries[i]).key != (
            #[trigger] self.entries[j]).key
    }

    /// The log range of the memtable covers every entry.
    pub open spec fn seqs_cover(self) -> bool {
        forall|i: int|
            0 <= i < self.entries.len() ==> self.earliest_seq <= (
            #[trigger] self.entries[i]).wal_seq <= self.latest_seq
    }

    /// The entry is stored, in place of one with the same key.
    pub open spec fn put(self, e: MemEntryView) -> MemTableView {
        MemTableView {
            entries: match self.slot(e.key) {
                Some(i) => self.entries.update(i, e),
                None => self.entries.push(e),
            },
            bytes_estimate: self.bytes_estimate.wrapping_add(entry_size(e)),
            earliest_seq: if e.wal_seq < self.earliest_seq {
                e.wal_seq
            } else {
                self.earliest_seq
            },
            latest_seq: if e.wal_seq > self.latest_seq {
                e.wal_seq
            } else {
                self.latest_seq
            },
            ..self
        }
    }

    /// A staged entry with `key` becomes visible at `commit_version`.
    pub open spec fn publish(self, key: RecordKeyView, commit_version: u64) -> MemTableView {
        match self.slot(key) {
            Some(i) => if self.entries[i].commit_version == INVISIBLE {
                MemTableView {
                    entries: self.entries.update(
                        i,
                        MemEntryView { commit_version, ..self.entries[i] },
                    ),
                    ..self
                }
            } else {
                self
            },
            None => self,
        }
    }

    /// What a read of `key` at `snapshot` finds.
    pub open spec fn visible(self, key: RecordKeyView, snapshot: u64) -> Option<MemEntryView> {
        match self.slot(key) {
            Some(i) => if entry_visible(self.entries[i], snapshot) {
                Some(self.entries[i])
            } else {
                None
            },
            None => None,
        }
    }

    /// The size or age limit is reached.
    pub open spec fn due(self, policy: FlushPolicy, age_ms: u64) -> bool {
        self.bytes_estimate >= policy.memtable_size_bytes || age_ms >= policy.memtable_age_ms
    }
}

/// Size that an entry counts for.
pub open spec fn entry_size(e: MemEntryView) -> u64 {
    if e.size_bytes < MIN_ENTRY_SIZE {
        MIN_ENTRY_SIZE
    } else {
        e.size_bytes
    }
}

/// Smallest version of the first `n` entries.
pub open spec fn version_low(entries: Seq<MemEntryView>, n: nat) -> u64
    decreases n,
{
    if n == 0 {
        INVISIBLE
    } else {
        let low = version_low(entries, (n - 1) as nat);
        if entries[n - 1].commit_version < low {
            entries[n - 1].commit_version
        } else {
            low
        }
    }
}

/// Largest assigned version of the first `n` entries, 0 if there is none.
pub open spec fn version_high(entries: Seq<MemEntryView>, n: nat) -> u64
    decreases n,
{
    if n == 0 {
        0
    } else {
        let high = version_high(entries, (n - 1) as nat);
        let v = entries[n - 1].commit_version;
        if v != INVISIBLE && v > high {
            v
        } else {
            high
        }
    }
}

/// Some entry is still staged.
pub open spec fn any_staged(entries: Seq<MemEntryView>) -> bool {
    exists|i: int| 0 <= i < entries.len() && (#[trigger] entries[i]).commit_version == INVISIBLE
}

/// One memtable, active or immutable.
pub struct MemTable {
    id: u64,
    index: SlotMap,
    entries: Vec<MemEntry>,
    bytes_estimate: u64,
    earliest_seq: u64,
    latest_seq: u64,
}

/// Views of memtable entries.
pub open spec fn mem_entry_views(s: Seq<MemEntry>) -> Seq<MemEntryView> {
    s.map_values(|e: MemEntry| e@)
}

impl View for MemTable {
    type V = MemTableView;

    closed spec fn view(&self) -> MemTableView {
        MemTableView {
            id: self.id,
            entries: mem_entry_views(self.entries@),
            bytes_estimate: self.bytes_estimate,
            earliest_seq: self.earliest_seq,
            latest_seq: self.latest_seq,
        }
    }
}

/// A slot holds the key, or no entry does.
pub proof fn lemma_slot_of(entries: Seq<MemEntryView>, key: RecordKeyView, n: nat)
    requires
        n <= entries.len(),
    ensures
        match slot_of(entries, key, n) {
            Some(i) => 0 <= i < n && entries[i].key == key,
            None => forall|i: int| 0 <= i < n ==> (#[trigger] entries[i]).key != key,
        },
    decreases n,
{
    if n > 0 && entries[n - 1].key != key {
        lemma_slot_of(entries, key, (n - 1) as nat);
    }
}

/// With distinct keys, a position that holds `key` is its slot.
pub proof fn lemma_slot_unique(t: MemTableView, key: RecordKeyView, i: int)
    requires
        t.keys_distinct(),
        0 <= i < t.entries.len(),
        t.entries[i].key == key,
    ensures
        t.slot(key) == Some(i),
{
    lemma_slot_of(t.entries, key, t.entries.len());
    let j = t.slot(key)->0;
    if j < i || i < j {
        assert(t.entries[j].key == key);
    }
}

impl MemTable {
    /// The key map points to the entry of each key. There is one entry per
    /// key, and the log range covers all of them.
    pub open spec fn wf(&self) -> bool {
        &&& self.indexed()
        &&& self@.keys_distinct()
        &&& self@.seqs_cover()
    }

    /// The key map points to the entry of each key.
    pub closed spec fn indexed(&self) -> bool {
        &&& forall|k: RecordKeyView| #[trigger]
            slots_held(self.index).contains_key(k) ==> slots_held(self.index)[k]
                < self.entries@.len() && self.entries@[slots_held(self.index)[k] as int].key@ == k
        &&& forall|i: int|
            0 <= i < self.entries@.len() ==> slots_held(self.index).contains_key(
                (#[trigger] self.entries@[i]).key@,
            ) && slots_held(self.index)[self.entries@[i].key@] == i
    }

    proof fn lemma_indexed_distinct(self)
        requires
            self.indexed(),
        ensures
            self@.keys_distinct(),
    {
        assert forall|i: int, j: int| 0 <= i < j < self@.entries.len() implies (
        #[trigger] self@.entries[i]).key != (#[trigger] self@.entries[j]).key by {
            assert(self.entries@[i].key@ == self@.entries[i].key);
            assert(self.entries@[j].key@ == self@.entries[j].key);
        }
    }

    /// A memtable without entries.
    pub fn new(id: u64) -> (r: Self)
        ensures
            r.wf(),
            r@ == MemTableView::empty(id),
    {
        proof {
            assert(32usize & 31usize == 0) by (bit_vector);
        }
        let r = MemTable {
            id,
            index: slots_new(DEFAULT_SHARD_COUNT),
            entries: Vec::new(),
            bytes_estimate: 0,
            earliest_seq: u64::MAX,
            latest_seq: 0,
        };
        assert(r@.entries =~= Seq::empty());
        r
    }

    /// Id of the memtable.
    pub fn id(&self) -> (r: u64)
        ensures
            r == self@.id,
    {
        self.id
    }

    /// Position of the entry with `key`.
    fn find(&self, key: &RecordKey) -> (r: Option<usize>)
        requires
            self.wf(),
        ensures
            match r {
                Some(i) => i < self.entries@.len() && self@.slot(key@) == Some(i as int),
                None => self@.slot(key@) is None,
            },
    {
        match slots_get(&self.index, key) {
            Some(i) => {
                proof {
                    assert(self@.entries[i as int].key == key@);
                    lemma_slot_unique(self@, key@, i as int);
                }
                Some(i)
            },
            None => {
                proof {
                    lemma_slot_of(self@.entries, key@, self@.entries.len());
                    if let Some(j) = self@.slot(key@) {
                        assert(self.entries@[j].key@ == key@);
                    }
                }
                None
            },
        }
    }

    /// Stores an entry, in place of one with the same key. Returns the size
    /// that it counts for.
    pub fn put_invisible(&mut self, entry: MemEntry) -> (r: XtableResult<u64>)
        requires
            old(self).wf(),
        ensures
            final(self).wf(),
            final(self)@ == old(self)@.put(entry@),
            r matches Ok(delta) && delta == entry_size(entry@),
    {
        let ghost start = self@;
        let ghost ev = entry@;
        let size_delta: u64 = if entry.size_bytes < MIN_ENTRY_SIZE {
            MIN_ENTRY_SIZE
        } else {
            entry.size_bytes
        };
        self.bytes_estimate = self.bytes_estimate.wrapping_add(size_delta);
        if entry.wal_seq < self.earliest_seq {
            self.earliest_seq = entry.wal_seq;
        }
        if entry.wal_seq > self.latest_seq {
            self.latest_seq = entry.wal_seq;
        }
        let key: RecordKey = (entry.key.0.clone(), entry.key.1.clone(), entry.key.2.clone());
        assert(self@.seqs_cover()) by {
            assert(self@.entries =~= start.entries);
        }
        match self.find(&key) {
            Some(i) => {
                let ghost before = self.entries@;
                self.entries[i] = entry;
                proof {
                    assert(self@.entries =~= start.entries.update(i as int, ev));
                    assert(before[i as int].key@ == ev.key) by {
                        lemma_slot_of(start.entries, ev.key, start.entries.len());
                        assert(start.entries[i as int].key == before[i as int].key@);
                    }
                    assert forall|j: int| 0 <= j < self.entries@.len() implies slots_held(
                        self.index,
                    ).contains_key((#[trigger] self.entries@[j]).key@) && slots_held(
                        self.index,
                    )[self.entries@[j].key@] == j by {
                        assert(self.entries@[j].key@ == before[j].key@);
                    }
                    assert forall|k: RecordKeyView| #[trigger]
                        slots_held(self.index).contains_key(k) implies slots_held(self.index)[k]
                        < self.entries@.len() && self.entries@[slots_held(
                        self.index,
                    )[k] as int].key@ == k by {
                        let j = slots_held(self.index)[k] as int;
                        assert(self.entries@[j].key@ == before[j].key@);
                    }
                }
            },
            None => {
                let n: usize = self.entries.len();
                let ghost before = self.entries@;
                let ghost held = slots_held(self.index);
                proof {
                    lemma_slot_of(start.entries, ev.key, start.entries.len());
                    if held.contains_key(ev.key) {
                        let j = held[ev.key] as int;
                        assert(start.entries[j].key == before[j].key@);
                    }
                }
                slots_insert(&mut self.index, key, n);
                self.entries.push(entry);
                proof {
                    assert(self@.entries =~= start.entries.push(ev));
                    assert forall|j: int| 0 <= j < self.entries@.len() implies slots_held(
                        self.index,
                    ).contains_key((#[trigger] self.entries@[j]).key@) && slots_held(
                        self.index,
                    )[self.entries@[j].key@] == j by {
                        if j < n {
                            assert(self.entries@[j] == before[j]);
                            assert(start.entries[j].key == before[j].key@);
                        }
                    }
                    assert forall|k: RecordKeyView| #[trigger]
                        slots_held(self.index).contains_key(k) implies slots_held(self.index)[k]
                        < self.entries@.len() && self.entries@[slots_held(
                        self.index,
                    )[k] as int].key@ == k by {
                        if k != ev.key {
                            assert(held.contains_key(k));
                            assert(self.entries@[held[k] as int] == before[held[k] as int]);
                        }
                    }
                }
            },
        }
        proof { self.lemma_indexed_distinct(); }
        Ok(size_delta)
    }

    /// Makes a staged entry visible at `commit_version`.
    pub fn publish(&mut self, key: &RecordKey, wal_seq: u64, commit_version: u64)
        requires
            old(self).wf(),
        ensures
            final(self).wf(),
            final(self)@ == old(self)@.publish(key@, commit_version),
    {
        let ghost start = self@;
        match self.find(key) {
            Some(i) => {
                if self.entries[i].is_invisible() {
                    let ghost before = self.entries@;
                    let mut next = self.entries[i].clone();
                    next.commit_version = commit_version;
                    let ghost nv = next@;
                    self.entries[i] = next;
                    proof {
                        assert(start.entries[i as int] == before[i as int]@);
                        assert(self@.entries =~= start.entries.update(i as int, nv));
                        assert forall|j: int| 0 <= j < self.entries@.len() implies slots_held(
                            self.index,
                        ).contains_key((#[trigger] self.entries@[j]).key@) && slots_held(
                            self.index,
                        )[self.entries@[j].key@] == j by {
                            assert(self.entries@[j].key@ == before[j].key@);
                        }
                        assert forall|k: RecordKeyView| #[trigger]
                            slots_held(self.index).contains_key(k) implies slots_held(
                            self.index,
                        )[k] < self.entries@.len() && self.entries@[slots_held(
                            self.index,
                        )[k] as int].key@ == k by {
                            let j = slots_held(self.index)[k] as int;
                            assert(self.entries@[j].key@ == before[j].key@);
                        }
                    }
                } else {
                    assert(start.entries[i as int] == self.entries@[i as int]@);
                }
            },
            None => {},
        }
        proof { self.lemma_indexed_distinct(); }
    }

    /// The entry of `key`, if it is visible at `snapshot`.
    pub fn get_visible(&self, key: &RecordKey, snapshot: u64) -> (r: Option<MemEntry>)
        requires
            self.wf(),
        ensures
            match r {
                Some(e) => self@.visible(key@, snapshot) == Some(e@),
                None => self@.visible(key@, snapshot) is None,
            },
    {
        match self.find(key) {
            Some(i) => {
                assert(self@.entries[i as int] == self.entries@[i as int]@);
                if self.entries[i].visible_at(snapshot) {
                    Some(self.entries[i].clone())
                } else {
                    None
                }
            },
            None => None,
        }
    }

    /// Number of entries.
    pub fn len(&self) -> (n: usize)
        ensures
            n == self@.entries.len(),
    {
        self.entries.len()
    }

    /// Entry at position `i`.
    pub fn entry_at(&self, i: usize) -> (r: &MemEntry)
        requires
            i < self@.entries.len(),
        ensures
            r@ == self@.entries[i as int],
    {
        &self.entries[i]
    }

    /// Approximate size.
    pub fn total_bytes(&self) -> (r: u64)
        ensures
            r == self@.bytes_estimate,
    {
        self.bytes_estimate
    }

    /// Smallest commit version of all entries, `INVISIBLE` if any entry is
    /// still staged.
    pub fn commit_version_min(&self) -> (r: u64)
        ensures
            r == if any_staged(self@.entries) {
                INVISIBLE
            } else {
                version_low(self@.entries, self@.entries.len())
            },
    {
        let ghost es = self@.entries;
        let mut low: u64 = INVISIBLE;
        let mut i: usize = 0;
        while i < self.entries.len()
            invariant
                i <= self.entries.len(),
                es == mem_entry_views(self.entries@),
                es == self@.entries,
                low == version_low(es, i as nat),
                forall|j: int| 0 <= j < i ==> (#[trigger] es[j]).commit_version != INVISIBLE,
            decreases self.entries.len() - i,
        {
            let v = self.entries[i].commit_version;
            assert(es[i as int].commit_version == v);
            if v == INVISIBLE {
                return INVISIBLE;
            }
            if v < low {
                low = v;
            }
            i += 1;
        }
        low
    }

    /// Largest assigned commit version, 0 if there is none.
    pub fn commit_version_max(&self) -> (r: u64)
        ensures
            r == version_high(self@.entries, self@.entries.len()),
    {
        let ghost es = self@.entries;
        let mut high: u64 = 0;
        let mut i: usize = 0;
        while i < self.entries.len()
            invariant
                i <= self.entries.len(),
                es == mem_entry_views(self.entries@),
                high == version_high(es, i as nat),
            decreases self.entries.len() - i,
        {
            let v = self.entries[i].commit_version;
            assert(es[i as int].commit_version == v);
            if v != INVISIBLE && v > high {
                high = v;
            }
            i += 1;
        }
        high
    }

    /// Earliest log sequence, `u64::MAX` if nothing was stored.
    pub fn first_wal_seq(&self) -> (r: u64)
        ensures
            r == self@.earliest_seq,
    {
        self.earliest_seq
    }

    /// Latest log sequence, 0 if nothing was stored.
    pub fn last_wal_seq(&self) -> (r: u64)
        ensures
            r == self@.latest_seq,
    {
        self.latest_seq
    }

    /// Whether the size or age limit is reached.
    pub fn should_flush(&self, policy: &FlushPolicy, age_ms: u64) -> (r: bool)
        ensures
            r == self@.due(*policy, age_ms),
    {
        self.bytes_estimate >= policy.memtable_size_bytes as u64 || age_ms >= policy.memtable_age_ms
    }
}

/// Mathematical view of a [`MemTableSet`].
#[verifier::ext_equal]
pub ghost struct MemTableSetView {
    pub active: MemTableView,
    /// Immutable memtables, oldest first.
    pub flushing: Seq<MemTableView>,
    pub policy: FlushPolicy,
    pub max_immutables: usize,
}

impl MemTableSetView {
    /// The active memtable becomes immutable.
    pub open spec fn rotate(self) -> MemTableSetView {
        MemTableSetView {
            active: MemTableView::empty((self.active.id + 1) as u64),
            flushing: self.flushing.push(self.active),
            ..self
        }
    }

    /// An entry is stored in the active memtable, which rotates when a limit
    /// is reached.
    pub open spec fn put(self, e: MemEntryView, age_ms: u64) -> MemTableSetView {
        let stored = MemTableSetView { active: self.active.put(e), ..self };
        if stored.active.due(self.policy, age_ms) {
            stored.rotate()
        } else {
            stored
        }
    }

    /// A staged entry becomes visible, wherever it is.
    pub open spec fn publish(self, key: RecordKeyView, commit_version: u64) -> MemTableSetView {
        MemTableSetView {
            active: self.active.publish(key, commit_version),
            flushing: self.flushing.map_values(
                |t: MemTableView| t.publish(key, commit_version),
            ),
            ..self
        }
    }
}

/// Views of memtables.
pub open spec fn table_views(s: Seq<MemTable>) -> Seq<MemTableView> {
    s.map_values(|t: MemTable| t@)
}

/// Sum of the sizes of the first `n` memtables.
pub open spec fn size_sum(s: Seq<MemTableView>, n: nat) -> nat
    decreases n,
{
    if n == 0 {
        0
    } else {
        size_sum(s, (n - 1) as nat) + s[n - 1].bytes_estimate as nat
    }
}

/// One active memtable and the immutable ones that wait for their flush.
pub struct MemTableSet {
    pub active: MemTable,
    /// Immutable memtables, oldest first.
    pub flushing: Vec<MemTable>,
    pub policy: FlushPolicy,
    /// Number of immutable memtables from which inserts are held back.
    pub max_immutables: usize,
}

impl View for MemTableSet {
    type V = MemTableSetView;

    open spec fn view(&self) -> MemTableSetView {
        MemTableSetView {
            active: self.active@,
            flushing: table_views(self.flushing@),
            policy: self.policy,
            max_immutables: self.max_immutables,
        }
    }
}

impl MemTableSet {
    /// All memtables are well formed.
    pub open spec fn wf(&self) -> bool {
        &&& self.active.wf()
        &&& forall|i: int| 0 <= i < self.flushing@.len() ==> (#[trigger] self.flushing@[i]).wf()
    }

    /// A set with one active memtable.
    pub fn new(initial: MemTable, policy: FlushPolicy) -> (r: Self)
        requires
            initial.wf(),
        ensures
            r.wf(),
            r@ == (MemTableSetView {
                active: initial@,
                flushing: Seq::empty(),
                policy,
                max_immutables: 4,
            }),
    {
        let r = MemTableSet { active: initial, flushing: Vec::new(), policy, max_immutables: 4 };
        assert(r@.flushing =~= Seq::empty());
        r
    }

    /// Makes the active memtable immutable.
    pub fn rotate(&mut self)
        requires
            old(self).wf(),
            old(self)@.active.id < u64::MAX,
        ensures
            final(self).wf(),
            final(self)@ == old(self)@.rotate(),
    {
        let ghost before = table_views(self.flushing@);
        let mut fresh = MemTable::new(self.active.id() + 1);
        std::mem::swap(&mut fresh, &mut self.active);
        let ghost old_tables = self.flushing@;
        self.flushing.push(fresh);
        proof {
            assert(table_views(self.flushing@) =~= before.push(fresh@));
            assert forall|i: int| 0 <= i < self.flushing@.len() implies (
            #[trigger] self.flushing@[i]).wf() by {
                if i < old_tables.len() {
                    assert(self.flushing@[i] == old_tables[i]);
                }
            }
        }
    }

    /// Stores an entry in the active memtable of the given age, and rotates it
    /// when a limit is reached. Returns the size that the entry counts for.
    pub fn put_invisible(&mut self, entry: MemEntry, age_ms: u64) -> (r: XtableResult<u64>)
        requires
            old(self).wf(),
            old(self)@.active.id < u64::MAX,
        ensures
            final(self).wf(),
            final(self)@ == old(self)@.put(entry@, age_ms),
            r matches Ok(delta) && delta == entry_size(entry@),
    {
        let delta = self.active.put_invisible(entry)?;
        if self.active.should_flush(&self.policy, age_ms) {
            self.rotate();
        }
        Ok(delta)
    }

    /// Makes a staged entry visible, in whichever memtable it is.
    pub fn publish(&mut self, key: &RecordKey, wal_seq: u64, commit_version: u64)
        requires
            old(self).wf(),
        ensures
            final(self).wf(),
            final(self)@ == old(self)@.publish(key@, commit_version),
    {
        let ghost start = self@;
        let ghost f = |t: MemTableView| t.publish(key@, commit_version);
        self.active.publish(key, wal_seq, commit_version);
        let n: usize = self.flushing.len();
        let mut i: usize = 0;
        while i < n
            invariant
                i <= n,
                n == self.flushing@.len(),
                n == start.flushing.len(),
                start == old(self)@,
                f == (|t: MemTableView| t.publish(key@, commit_version)),
                self.wf(),
                self.active@ == start.active.publish(key@, commit_version),
                self.policy == old(self).policy,
                self.max_immutables == old(self).max_immutables,
                forall|j: int| i <= j < n ==> (#[trigger] self.flushing@[j])@ == start.flushing[j],
                forall|j: int| 0 <= j < i ==> (#[trigger] self.flushing@[j])@ == f(
                    start.flushing[j],
                ),
            decreases n - i,
        {
            let ghost before = self.flushing@;
            assert(self.flushing@[i as int].wf());
            assert(self.flushing@[i as int]@ == start.flushing[i as int]);
            self.flushing[i].publish(key, wal_seq, commit_version);
            proof {
                assert forall|j: int| 0 <= j < n implies (#[trigger] self.flushing@[j]).wf() by {
                    if j != i {
                        assert(self.flushing@[j] == before[j]);
                    }
                }
            }
            i += 1;
        }
        assert(self@.flushing =~= start.flushing.map_values(f));
    }

    /// Rotates the active memtable of the given age if a limit is reached.
    /// Returns whether it did.
    pub fn try_rotate_active(&mut self, age_ms: u64) -> (r: bool)
        requires
            old(self).wf(),
            old(self)@.active.id < u64::MAX,
        ensures
            final(self).wf(),
            r == old(self)@.active.due(old(self)@.policy, age_ms),
            final(self)@ == if r {
                old(self)@.rotate()
            } else {
                old(self)@
            },
    {
        if !self.should_rotate_active(age_ms) {
            return false;
        }
        self.rotate();
        true
    }

    /// Whether the active memtable has reached a limit.
    pub fn should_rotate_active(&self, age_ms: u64) -> (r: bool)
        ensures
            r == self@.active.due(self@.policy, age_ms),
    {
        self.active.should_flush(&self.policy, age_ms)
    }

    /// Takes all immutable memtables, oldest first.
    pub fn take_immutables(&mut self) -> (r: Vec<MemTable>)
        requires
            old(self).wf(),
        ensures
            final(self).wf(),
            table_views(r@) == old(self)@.flushing,
            forall|i: int| 0 <= i < r@.len() ==> (#[trigger] r@[i]).wf(),
            final(self)@ == (MemTableSetView { flushing: Seq::empty(), ..old(self)@ }),
    {
        let mut taken: Vec<MemTable> = Vec::new();
        std::mem::swap(&mut taken, &mut self.flushing);
        assert(self@.flushing =~= Seq::empty());
        taken
    }

    /// Puts an immutable memtable back in line.
    pub fn requeue(&mut self, table: MemTable)
        requires
            old(self).wf(),
            table.wf(),
        ensures
            final(self).wf(),
            final(self)@ == (MemTableSetView {
                flushing: old(self)@.flushing.push(table@),
                ..old(self)@
            }),
    {
        let ghost before = self.flushing@;
        self.flushing.push(table);
        proof {
            assert(self@.flushing =~= old(self)@.flushing.push(table@));
            assert forall|i: int| 0 <= i < self.flushing@.len() implies (
            #[trigger] self.flushing@[i]).wf() by {
                if i < before.len() {
                    assert(self.flushing@[i] == before[i]);
                }
            }
        }
    }

    /// Approximate size of the active memtable.
    pub fn active_bytes(&self) -> (r: u64)
        ensures
            r == self@.active.bytes_estimate,
    {
        self.active.total_bytes()
    }

    /// Approximate size of all memtables, at most `u64::MAX`.
    pub fn total_bytes(&self) -> (r: u64)
        ensures
            ({
                let total = self@.active.bytes_estimate + size_sum(
                    self@.flushing,
                    self@.flushing.len(),
                );
                r == if total <= u64::MAX {
                    total
                } else {
                    u64::MAX as int
                }
            }),
    {
        let ghost tv = self@.flushing;
        let mut total: u64 = self.active.total_bytes();
        let mut i: usize = 0;
        while i < self.flushing.len()
            invariant
                i <= self.flushing.len(),
                tv == table_views(self.flushing@),
                ({
                    let sum = self@.active.bytes_estimate + size_sum(tv, i as nat);
                    total == if sum <= u64::MAX {
                        sum
                    } else {
                        u64::MAX as int
                    }
                }),
            decreases self.flushing.len() - i,
        {
            assert(tv[i as int] == self.flushing@[i as int]@);
            total = total.saturating_add(self.flushing[i].total_bytes());
            i += 1;
        }
        total
    }
}

/// An entry that is staged is seen by nobody; once published at a version it
/// is seen exactly by the snapshots at or after that version.
pub proof fn law_publish_decides_visibility(
    t: MemTableView,
    key: RecordKeyView,
    commit_version: u64,
    snapshot: u64,
)
    requires
        t.slot(key) matches Some(i) && t.entries[i].commit_version == INVISIBLE,
        commit_version != INVISIBLE,
    ensures
        t.visible(key, snapshot) is None,
        t.publish(key, commit_version).visible(key, snapshot) is Some <==> commit_version
            <= snapshot,
{
    let i = t.slot(key)->0;
    lemma_slot_of(t.entries, key, t.entries.len());
    let p = t.publish(key, commit_version);
    lemma_slot_of_same_keys(t.entries, p.entries, key, t.entries.len());
}

proof fn lemma_slot_of_same_keys(
    a: Seq<MemEntryView>,
    b: Seq<MemEntryView>,
    key: RecordKeyView,
    n: nat,
)
    requires
        n <= a.len(),
        a.len() == b.len(),
        forall|i: int| 0 <= i < a.len() ==> (#[trigger] b[i]).key == a[i].key,
    ensures
        slot_of(a, key, n) == slot_of(b, key, n),
    decreases n,
{
    if n > 0 {
        assert(b[n - 1].key == a[n - 1].key);
        lemma_slot_of_same_keys(a, b, key, (n - 1) as nat);
    }
}

/// Publishing keeps the keys.
pub proof fn lemma_publish_keeps_keys(t: MemTableView, key: RecordKeyView, commit_version: u64)
    ensures
        t.publish(key, commit_version).entries.len() == t.entries.len(),
        forall|i: int|
            0 <= i < t.entries.len() ==> (#[trigger] t.publish(key, commit_version).entries[i]).key
                == t.entries[i].key,
        t.keys_distinct() ==> t.publish(key, commit_version).keys_distinct(),
{
    let p = t.publish(key, commit_version);
    lemma_slot_of(t.entries, key, t.entries.len());
    if t.keys_distinct() {
        assert forall|i: int, j: int| 0 <= i < j < p.entries.len() implies (
        #[trigger] p.entries[i]).key != (#[trigger] p.entries[j]).key by {
            assert(p.entries[i].key == t.entries[i].key);
            assert(p.entries[j].key == t.entries[j].key);
        }
    }
}

/// Publishing an entry changes nothing for readers of another key.
pub proof fn lemma_publish_keeps_others(
    t: MemTableView,
    other: RecordKeyView,
    commit_version: u64,
    key: RecordKeyView,
    snapshot: u64,
)
    requires
        key != other,
    ensures
        t.publish(other, commit_version).visible(key, snapshot) == t.visible(key, snapshot),
{
    let p = t.publish(other, commit_version);
    lemma_publish_keeps_keys(t, other, commit_version);
    lemma_slot_of(t.entries, key, t.entries.len());
    lemma_slot_of(t.entries, other, t.entries.len());
    lemma_slot_of_same_keys(t.entries, p.entries, key, t.entries.len());
}

/// Storing an entry changes nothing for readers of another key.
pub proof fn lemma_put_keeps_others(
    t: MemTableView,
    e: MemEntryView,
    key: RecordKeyView,
    snapshot: u64,
)
    requires
        key != e.key,
    ensures
        t.put(e).visible(key, snapshot) == t.visible(key, snapshot),
{
    let p = t.put(e);
    let n = t.entries.len();
    lemma_slot_of(t.entries, key, n);
    lemma_slot_of(t.entries, e.key, n);
    match t.slot(e.key) {
        Some(i) => {
            assert forall|j: int| 0 <= j < n implies (#[trigger] p.entries[j]).key
                == t.entries[j].key by {
                if j != i {
                    assert(p.entries[j] == t.entries[j]);
                }
            }
            lemma_slot_of_same_keys(t.entries, p.entries, key, n);
        },
        None => {
            assert(p.entries[n as int] == e);
            assert(p.entries.take(n as int) =~= t.entries);
            lemma_slot_of_prefix(t.entries, p.entries, key, n);
        },
    }
}

proof fn lemma_slot_of_prefix(
    a: Seq<MemEntryView>,
    b: Seq<MemEntryView>,
    key: RecordKeyView,
    n: nat,
)
    requires
        n <= a.len() <= b.len(),
        forall|i: int| 0 <= i < a.len() ==> a[i] == b[i],
    ensures
        slot_of(a, key, n) == slot_of(b, key, n),
    decreases n,
{
    if n > 0 {
        lemma_slot_of_prefix(a, b, key, (n - 1) as nat);
    }
}

/// Publishing never changes an entry that is already visible.
pub proof fn law_publish_keeps_visible_entries(
    t: MemTableView,
    key: RecordKeyView,
    commit_version: u64,
    other: RecordKeyView,
    snapshot: u64,
)
    requires
        t.keys_distinct(),
        t.visible(other, snapshot) is Some,
    ensures
        t.publish(key, commit_version).visible(other, snapshot) == t.visible(other, snapshot),
{
    let p = t.publish(key, commit_version);
    lemma_slot_of(t.entries, key, t.entries.len());
    lemma_slot_of(t.entries, other, t.entries.len());
    lemma_slot_of_same_keys(t.entries, p.entries, other, t.entries.len());
}

/// The log range keeps covering every entry, whatever is stored or published.
pub proof fn law_log_range_covers_entries(
    t: MemTableView,
    e: MemEntryView,
    key: RecordKeyView,
    commit_version: u64,
)
    requires
        t.seqs_cover(),
    ensures
        t.put(e).seqs_cover(),
        t.publish(key, commit_version).seqs_cover(),
{
    lemma_slot_of(t.entries, e.key, t.entries.len());
    lemma_slot_of(t.entries, key, t.entries.len());
    let p = t.put(e);
    assert forall|i: int| 0 <= i < p.entries.len() implies p.earliest_seq <= (
    #[trigger] p.entries[i]).wal_seq <= p.latest_seq by {
        if p.entries[i] != e {
            assert(p.entries[i] == t.entries[i]);
        }
    }
    let q = t.publish(key, commit_version);
    assert forall|i: int| 0 <= i < q.entries.len() implies q.earliest_seq <= (
    #[trigger] q.entries[i]).wal_seq <= q.latest_seq by {
        assert(q.entries[i].wal_seq == t.entries[i].wal_seq);
    }
}

/// A stored entry is what a read of its key finds.
pub proof fn law_put_then_get(t: MemTableView, e: MemEntryView, snapshot: u64)
    requires
        t.keys_distinct(),
        entry_visible(e, snapshot),
    ensures
        t.put(e).keys_distinct(),
        t.put(e).visible(e.key, snapshot) == Some(e),
{
    let p = t.put(e);
    lemma_slot_of(t.entries, e.key, t.entries.len());
    let at = match t.slot(e.key) {
        Some(i) => i,
        None => t.entries.len() as int,
    };
    assert(p.entries[at] == e);
    assert forall|i: int, j: int| 0 <= i < j < p.entries.len() implies (
    #[trigger] p.entries[i]).key != (#[trigger] p.entries[j]).key by {
        if i != at {
            assert(p.entries[i] == t.entries[i]);
        }
        if j != at {
            assert(p.entries[j] == t.entries[j]);
        }
    }
    lemma_slot_unique(p, e.key, at);
}

} // verus!
