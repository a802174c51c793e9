//! Retention of record history.

use crate::order::{lemma_text_irreflexive, lemma_text_transitive, text_before};
use crate::store::RecordVersionId;
use crate::table::{ascending, lemma_ascending, TableKey};
use crate::txn_state::StoredRecordVersionView;
use vstd::prelude::*;

verus! {

/// A newer version of the same record is already visible at `min`.
pub open spec fn superseded(
    m: Map<RecordVersionId, StoredRecordVersionView>,
    k: RecordVersionId,
    min: u64,
) -> bool {
    exists|v: u64| k.3 < v <= min && #[trigger] m.contains_key((k.0, k.1, k.2, v))
}

/// Record history after pruning: what no reader at or after `min` can see is
/// gone.
pub open spec fn pruned_history(m: Map<RecordVersionId, StoredRecordVersionView>, min: u64) -> Map<
    RecordVersionId,
    StoredRecordVersionView,
> {
    Map::new(
        |k: RecordVersionId| m.contains_key(k) && !superseded(m, k, min),
        |k: RecordVersionId| m[k],
    )
}

/// In a listing of record history, a version is superseded just when the next
/// row is a version of the same record that is visible at the threshold.
pub proof fn lemma_superseded(
    m: Map<RecordVersionId, StoredRecordVersionView>,
    rows: Seq<(RecordVersionId, StoredRecordVersionView)>,
    i: int,
    min: u64,
)
    requires
        0 <= i < rows.len(),
        ascending::<(String, String, String, u64), StoredRecordVersionView>(rows),
        forall|p: int| 0 <= p < rows.len() ==> m.contains_key((#[trigger] rows[p]).0),
        forall|k: RecordVersionId| #[trigger]
            m.contains_key(k) ==> exists|p: int| 0 <= p < rows.len() && (#[trigger] rows[p]).0 == k,
    ensures
        superseded(m, rows[i].0, min) <==> (i + 1 < rows.len() && rows[i + 1].0.3 <= min
            && rows[i + 1].0.0 == rows[i].0.0 && rows[i + 1].0.1 == rows[i].0.1
            && rows[i + 1].0.2 == rows[i].0.2),
{
    let k = rows[i].0;
    if i + 1 < rows.len() {
        let n = rows[i + 1].0;
        lemma_version_order(rows, i, i + 1);
        if n.0 == k.0 && n.1 == k.1 && n.2 == k.2 && n.3 <= min {
            lemma_text_irreflexive(k.0);
            lemma_text_irreflexive(k.1);
            lemma_text_irreflexive(k.2);
            assert(n == (k.0, k.1, k.2, n.3));
            assert(m.contains_key((k.0, k.1, k.2, n.3)));
        }
    }
    if superseded(m, k, min) {
        let v = choose|v: u64| k.3 < v <= min && #[trigger] m.contains_key((k.0, k.1, k.2, v));
        let kv = (k.0, k.1, k.2, v);
        let p = choose|p: int| 0 <= p < rows.len() && (#[trigger] rows[p]).0 == kv;
        lemma_text_irreflexive(k.0);
        lemma_text_irreflexive(k.1);
        lemma_text_irreflexive(k.2);
        if p < i {
            lemma_version_order(rows, p, i);
        }
        assert(p > i);
        if p > i + 1 {
            let n = rows[i + 1].0;
            lemma_version_order(rows, i, i + 1);
            lemma_version_order(rows, i + 1, p);
            if text_before(k.0, n.0) && text_before(n.0, k.0) {
                lemma_text_transitive(k.0, n.0, k.0);
            }
            if text_before(k.1, n.1) && text_before(n.1, k.1) {
                lemma_text_transitive(k.1, n.1, k.1);
            }
            if text_before(k.2, n.2) && text_before(n.2, k.2) {
                lemma_text_transitive(k.2, n.2, k.2);
            }
        }
    }
}

/// The order of two rows of record history, spelled out.
proof fn lemma_version_order(
    rows: Seq<(RecordVersionId, StoredRecordVersionView)>,
    i: int,
    j: int,
)
    requires
        ascending::<(String, String, String, u64), StoredRecordVersionView>(rows),
        0 <= i < j < rows.len(),
    ensures
        ({
            let a = rows[i].0;
            let b = rows[j].0;
            text_before(a.0, b.0) || (a.0 == b.0 && (text_before(a.1, b.1) || (a.1 == b.1 && (
            text_before(a.2, b.2) || (a.2 == b.2 && a.3 < b.3)))))
        }),
{
    lemma_ascending::<(String, String, String, u64), StoredRecordVersionView>(rows, i, j);
    let a = rows[i].0;
    let b = rows[j].0;
    assert(text_before(a.0, b.0) || (a.0 == b.0 && <(String, String, u64) as TableKey>::before(
        (a.1, a.2, a.3),
        (b.1, b.2, b.3),
    )));
}

} // verus!
