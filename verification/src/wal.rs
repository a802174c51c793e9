//! Write-ahead log records.
//!
//! The log carries the lifecycle events of transactions and the flush events
//! of memtables. Its order is the ground truth for crash recovery.

use crate::order::{bytes_before, differs_at, lemma_bytes_total};
use crate::text::{copy_optional_text, copy_texts, optional_text, texts};
use crate::table::Row;
use vstd::prelude::*;

verus! {

/// What the peer of a logged edge did.
#[derive(Debug, Clone, Copy, PartialEq, Eq, Structural)]
pub enum StoredPeerAction {
    Read,
    Wrote,
}

/// An edge as it stands in the log, for audit.
#[derive(Debug, PartialEq, Eq)]
pub struct StoredEdge {
    pub peer: String,
    pub key: String,
    pub peer_action: StoredPeerAction,
    pub version: u64,
}

/// Mathematical view of [`StoredEdge`].
pub ghost struct StoredEdgeView {
    pub peer: Seq<char>,
    pub key: Seq<char>,
    pub peer_action: StoredPeerAction,
    pub version: u64,
}

impl View for StoredEdge {
    type V = StoredEdgeView;

    open spec fn view(&self) -> StoredEdgeView {
        StoredEdgeView {
            peer: self.peer@,
            key: self.key@,
            peer_action: self.peer_action,
            version: self.version,
        }
    }
}

impl Clone for StoredEdge {
    fn clone(&self) -> (r: Self)
        ensures
            r@ == self@,
    {
        StoredEdge {
            peer: self.peer.clone(),
            key: self.key.clone(),
            peer_action: self.peer_action,
            version: self.version,
        }
    }
}

/// Views of a list of logged edges.
pub open spec fn stored_edge_views(s: Seq<StoredEdge>) -> Seq<StoredEdgeView> {
    s.map_values(|e: StoredEdge| e@)
}

/// A copy of a list of logged edges.
pub fn copy_stored_edges(v: &Vec<StoredEdge>) -> (r: Vec<StoredEdge>)
    ensures
        stored_edge_views(r@) == stored_edge_views(v@),
{
    let mut out: Vec<StoredEdge> = Vec::new();
    let mut i: usize = 0;
    while i < v.len()
        invariant
            i <= v.len(),
            stored_edge_views(out@) == stored_edge_views(v@).take(i as int),
        decreases v.len() - i,
    {
        let ghost before = out@;
        out.push(v[i].clone());
        proof {
            assert(stored_edge_views(out@) =~= stored_edge_views(before).push(v@[i as int]@));
            assert(stored_edge_views(v@).take(i as int + 1) =~= stored_edge_views(v@).take(i as int).push(v@[i as int]@));
        }
        i += 1;
    }
    assert(stored_edge_views(v@).take(i as int) =~= stored_edge_views(v@));
    out
}

/// A log record.
#[derive(Debug, PartialEq, Eq)]
pub enum WalRecord {
    /// Transaction started.
    Begin { txn_id: String, snapshot_version: u64, idempotency_key: Option<String> },
    /// A write was staged.
    Stage { txn_id: String, key: String, body_handle: Option<String> },
    /// About to publish versions of these keys.
    Committing { txn_id: String, upload_keys: Vec<String> },
    /// Terminal committed state.
    Committed { txn_id: String, commit_version: u64 },
    /// Terminal result.
    CommitResult { txn_id: String, commit_version: u64, success: bool },
    /// Transaction aborted.
    Aborted { txn_id: String, reason: String },
    /// A write entered the in-memory edge set.
    CahillEdge { txn_id: String, key: String, edges: Vec<StoredEdge> },
    /// Transaction committed together with its memtable publish.
    Commit { txn_id: String, commit_version: u64, write_keys: Vec<String> },
    /// A memtable was flushed to a chunk; the log may be truncated up to
    /// `up_to_seq`.
    MemtableFlushed { chunk_id: String, up_to_seq: u64, up_to_commit_version: u64 },
}

/// Mathematical view of a [`WalRecord`].
pub ghost enum WalRecordView {
    Begin { txn_id: Seq<char>, snapshot_version: u64, idempotency_key: Option<Seq<char>> },
    Stage { txn_id: Seq<char>, key: Seq<char>, body_handle: Option<Seq<char>> },
    Committing { txn_id: Seq<char>, upload_keys: Seq<Seq<char>> },
    Committed { txn_id: Seq<char>, commit_version: u64 },
    CommitResult { txn_id: Seq<char>, commit_version: u64, success: bool },
    Aborted { txn_id: Seq<char>, reason: Seq<char> },
    CahillEdge { txn_id: Seq<char>, key: Seq<char>, edges: Seq<StoredEdgeView> },
    Commit { txn_id: Seq<char>, commit_version: u64, write_keys: Seq<Seq<char>> },
    MemtableFlushed { chunk_id: Seq<char>, up_to_seq: u64, up_to_commit_version: u64 },
}

impl View for WalRecord {
    type V = WalRecordView;

    open spec fn view(&self) -> WalRecordView {
        match self {
            WalRecord::Begin { txn_id, snapshot_version, idempotency_key } => WalRecordView::Begin {
                txn_id: txn_id@,
                snapshot_version: *snapshot_version,
                idempotency_key: optional_text(*idempotency_key),
            },
            WalRecord::Stage { txn_id, key, body_handle } => WalRecordView::Stage {
                txn_id: txn_id@,
                key: key@,
                body_handle: optional_text(*body_handle),
            },
            WalRecord::Committing { txn_id, upload_keys } => WalRecordView::Committing {
                txn_id: txn_id@,
                upload_keys: texts(upload_keys@),
            },
            WalRecord::Committed { txn_id, commit_version } => WalRecordView::Committed {
                txn_id: txn_id@,
                commit_version: *commit_version,
            },
            WalRecord::CommitResult { txn_id, commit_version, success } => WalRecordView::CommitResult {
                txn_id: txn_id@,
                commit_version: *commit_version,
                success: *success,
            },
            WalRecord::Aborted { txn_id, reason } => WalRecordView::Aborted {
                txn_id: txn_id@,
                reason: reason@,
            },
            WalRecord::CahillEdge { txn_id, key, edges } => WalRecordView::CahillEdge {
                txn_id: txn_id@,
                key: key@,
                edges: stored_edge_views(edges@),
            },
            WalRecord::Commit { txn_id, commit_version, write_keys } => WalRecordView::Commit {
                txn_id: txn_id@,
                commit_version: *commit_version,
                write_keys: texts(write_keys@),
            },
            WalRecord::MemtableFlushed { chunk_id, up_to_seq, up_to_commit_version } => WalRecordView::MemtableFlushed {
                chunk_id: chunk_id@,
                up_to_seq: *up_to_seq,
                up_to_commit_version: *up_to_commit_version,
            },
        }
    }
}

impl Clone for WalRecord {
    fn clone(&self) -> (r: Self)
        ensures
            r@ == self@,
    {
        match self {
            WalRecord::Begin { txn_id, snapshot_version, idempotency_key } => WalRecord::Begin {
                txn_id: txn_id.clone(),
                snapshot_version: *snapshot_version,
                idempotency_key: copy_optional_text(idempotency_key),
            },
            WalRecord::Stage { txn_id, key, body_handle } => WalRecord::Stage {
                txn_id: txn_id.clone(),
                key: key.clone(),
                body_handle: copy_optional_text(body_handle),
            },
            WalRecord::Committing { txn_id, upload_keys } => WalRecord::Committing {
                txn_id: txn_id.clone(),
                upload_keys: copy_texts(upload_keys),
            },
            WalRecord::Committed { txn_id, commit_version } => WalRecord::Committed {
                txn_id: txn_id.clone(),
                commit_version: *commit_version,
            },
            WalRecord::CommitResult { txn_id, commit_version, success } => WalRecord::CommitResult {
                txn_id: txn_id.clone(),
                commit_version: *commit_version,
                success: *success,
            },
            WalRecord::Aborted { txn_id, reason } => WalRecord::Aborted {
                txn_id: txn_id.clone(),
                reason: reason.clone(),
            },
            WalRecord::CahillEdge { txn_id, key, edges } => WalRecord::CahillEdge {
                txn_id: txn_id.clone(),
                key: key.clone(),
                edges: copy_stored_edges(edges),
            },
            WalRecord::Commit { txn_id, commit_version, write_keys } => WalRecord::Commit {
                txn_id: txn_id.clone(),
                commit_version: *commit_version,
                write_keys: copy_texts(write_keys),
            },
            WalRecord::MemtableFlushed { chunk_id, up_to_seq, up_to_commit_version } => WalRecord::MemtableFlushed {
                chunk_id: chunk_id.clone(),
                up_to_seq: *up_to_seq,
                up_to_commit_version: *up_to_commit_version,
            },
        }
    }
}

/// The transaction that a record speaks of; `None` for memtable events.
pub open spec fn record_txn(r: WalRecordView) -> Option<Seq<char>> {
    match r {
        WalRecordView::Begin { txn_id, .. } => Some(txn_id),
        WalRecordView::Stage { txn_id, .. } => Some(txn_id),
        WalRecordView::Committing { txn_id, .. } => Some(txn_id),
        WalRecordView::Committed { txn_id, .. } => Some(txn_id),
        WalRecordView::CommitResult { txn_id, .. } => Some(txn_id),
        WalRecordView::Aborted { txn_id, .. } => Some(txn_id),
        WalRecordView::CahillEdge { txn_id, .. } => Some(txn_id),
        WalRecordView::Commit { txn_id, .. } => Some(txn_id),
        WalRecordView::MemtableFlushed { .. } => None,
    }
}

/// The record ends its transaction.
pub open spec fn record_is_terminal(r: WalRecordView) -> bool {
    r is Committed || r is CommitResult || r is Aborted || r is Commit
}

impl WalRecord {
    /// The transaction that the record speaks of.
    pub fn txn_id(&self) -> (r: Option<&str>)
        ensures
            match r {
                Some(t) => record_txn(self@) == Some(t@),
                None => record_txn(self@) is None,
            },
    {
        match self {
            WalRecord::Begin { txn_id, .. } => Some(txn_id.as_str()),
            WalRecord::Stage { txn_id, .. } => Some(txn_id.as_str()),
            WalRecord::Committing { txn_id, .. } => Some(txn_id.as_str()),
            WalRecord::Committed { txn_id, .. } => Some(txn_id.as_str()),
            WalRecord::CommitResult { txn_id, .. } => Some(txn_id.as_str()),
            WalRecord::Aborted { txn_id, .. } => Some(txn_id.as_str()),
            WalRecord::CahillEdge { txn_id, .. } => Some(txn_id.as_str()),
            WalRecord::Commit { txn_id, .. } => Some(txn_id.as_str()),
            WalRecord::MemtableFlushed { .. } => None,
        }
    }

    /// The chunk that the record speaks of.
    pub fn chunk_id(&self) -> (r: Option<&str>)
        ensures
            match r {
                Some(c) => self@ is MemtableFlushed && self@->MemtableFlushed_chunk_id == c@,
                None => !(self@ is MemtableFlushed),
            },
    {
        match self {
            WalRecord::MemtableFlushed { chunk_id, .. } => Some(chunk_id.as_str()),
            _ => None,
        }
    }

    pub fn is_terminal(&self) -> (r: bool)
        ensures
            r == record_is_terminal(self@),
    {
        match self {
            WalRecord::Committed { .. } => true,
            WalRecord::CommitResult { .. } => true,
            WalRecord::Aborted { .. } => true,
            WalRecord::Commit { .. } => true,
            _ => false,
        }
    }
}

impl Row for WalRecord {
    fn copy_row(&self) -> (r: Self) {
        self.clone()
    }
}

/// The number that eight bytes stand for, the first one the highest.
pub open spec fn decode_seq(b: Seq<u8>) -> int {
    b[0] * 0x100_0000_0000_0000 + b[1] * 0x1_0000_0000_0000 + b[2] * 0x100_0000_0000 + b[3]
        * 0x1_0000_0000 + b[4] * 0x100_0000 + b[5] * 0x1_0000 + b[6] * 0x100 + b[7]
}

/// Key of a log sequence number: eight bytes, the highest one first.
pub fn encode_seq(n: u64) -> (r: [u8; 8])
    ensures
        decode_seq(r@) == n,
{
    let q1: u64 = n / 256;
    let q2: u64 = q1 / 256;
    let q3: u64 = q2 / 256;
    let q4: u64 = q3 / 256;
    let q5: u64 = q4 / 256;
    let q6: u64 = q5 / 256;
    let q7: u64 = q6 / 256;
    let b0: u8 = q7 as u8;
    let b1: u8 = (q6 % 256) as u8;
    let b2: u8 = (q5 % 256) as u8;
    let b3: u8 = (q4 % 256) as u8;
    let b4: u8 = (q3 % 256) as u8;
    let b5: u8 = (q2 % 256) as u8;
    let b6: u8 = (q1 % 256) as u8;
    let b7: u8 = (n % 256) as u8;
    [b0, b1, b2, b3, b4, b5, b6, b7]
}

/// Keys of the log sort as bytes the way their numbers sort, and no two
/// numbers share a key.
pub proof fn law_log_keys_keep_the_order(a: Seq<u8>, b: Seq<u8>)
    requires
        a.len() == 8,
        b.len() == 8,
    ensures
        bytes_before(a, b) <==> decode_seq(a) < decode_seq(b),
        decode_seq(a) == decode_seq(b) ==> a == b,
{
    lemma_bytes_total(a, b);
    if bytes_before(a, b) {
        let k = choose|k: int| differs_at(a, b, k);
        assert(differs_at(a, b, k));
        lemma_seq_order(a, b, k);
    }
    if bytes_before(b, a) {
        let k = choose|k: int| differs_at(b, a, k);
        assert(differs_at(b, a, k));
        lemma_seq_order(b, a, k);
    }
}

proof fn lemma_seq_order(a: Seq<u8>, b: Seq<u8>, k: int)
    requires
        a.len() == 8,
        b.len() == 8,
        0 <= k < 8,
        forall|i: int| 0 <= i < k ==> a[i] == b[i],
        a[k] < b[k],
    ensures
        decode_seq(a) < decode_seq(b),
{
    assert(k > 0 ==> a[0] == b[0]);
    assert(k > 1 ==> a[1] == b[1]);
    assert(k > 2 ==> a[2] == b[2]);
    assert(k > 3 ==> a[3] == b[3]);
    assert(k > 4 ==> a[4] == b[4]);
    assert(k > 5 ==> a[5] == b[5]);
    assert(k > 6 ==> a[6] == b[6]);
}

} // verus!
