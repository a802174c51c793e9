//! Byte order of keys.
//!
//! Tables keep their rows in the byte-lexicographic order of their keys, and
//! text compares by its UTF-8 bytes.

use vstd::prelude::*;
use vstd::string::*;
use vstd::utf8::*;

verus! {

/// How one key stands to another.
#[derive(Debug, Clone, Copy, PartialEq, Eq, Structural)]
pub enum KeyOrder {
    Less,
    Equal,
    Greater,
}

/// `a` and `b` agree before position `k`, and at `k` the sequence `a` either
/// ends or holds the smaller byte.
pub open spec fn differs_at(a: Seq<u8>, b: Seq<u8>, k: int) -> bool {
    &&& 0 <= k <= a.len()
    &&& k < b.len()
    &&& forall|i: int| 0 <= i < k ==> #[trigger] a[i] == b[i]
    &&& (k == a.len() || a[k] < b[k])
}

/// Strict lexicographic order on byte sequences.
pub open spec fn bytes_before(a: Seq<u8>, b: Seq<u8>) -> bool {
    exists|k: int| differs_at(a, b, k)
}

/// Strict order on text: that of its UTF-8 bytes.
pub open spec fn text_before(a: Seq<char>, b: Seq<char>) -> bool {
    bytes_before(encode_utf8(a), encode_utf8(b))
}

pub proof fn lemma_bytes_irreflexive(a: Seq<u8>)
    ensures
        !bytes_before(a, a),
{
}

pub proof fn lemma_bytes_transitive(a: Seq<u8>, b: Seq<u8>, c: Seq<u8>)
    requires
        bytes_before(a, b),
        bytes_before(b, c),
    ensures
        bytes_before(a, c),
{
    let i = choose|k: int| differs_at(a, b, k);
    let j = choose|k: int| differs_at(b, c, k);
    let m = if i <= j { i } else { j };
    assert forall|p: int| 0 <= p < m implies #[trigger] a[p] == c[p] by {
        assert(a[p] == b[p]);
        assert(b[p] == c[p]);
    }
    if j < i {
        assert(a[j] == b[j]);
    } else if i < j {
        assert(b[i] == c[i]);
    }
    assert(differs_at(a, c, m));
}

/// The first position from `from` on at which `a` and `b` part, or the length
/// of the shorter one.
spec fn common_prefix(a: Seq<u8>, b: Seq<u8>, from: int) -> int
    decreases a.len() - from,
{
    if 0 <= from < a.len() && from < b.len() && a[from] == b[from] {
        common_prefix(a, b, from + 1)
    } else {
        from
    }
}

proof fn lemma_common_prefix(a: Seq<u8>, b: Seq<u8>, from: int)
    requires
        0 <= from <= a.len(),
        from <= b.len(),
        forall|i: int| 0 <= i < from ==> #[trigger] a[i] == b[i],
    ensures
        ({
            let k = common_prefix(a, b, from);
            &&& from <= k <= a.len()
            &&& k <= b.len()
            &&& forall|i: int| 0 <= i < k ==> #[trigger] a[i] == b[i]
            &&& k < a.len() && k < b.len() ==> a[k] != b[k]
        }),
    decreases a.len() - from,
{
    if from < a.len() && from < b.len() && a[from] == b[from] {
        lemma_common_prefix(a, b, from + 1);
    }
}

pub proof fn lemma_bytes_total(a: Seq<u8>, b: Seq<u8>)
    ensures
        bytes_before(a, b) || a == b || bytes_before(b, a),
{
    lemma_common_prefix(a, b, 0);
    let k = common_prefix(a, b, 0);
    if k == a.len() && k == b.len() {
        assert(a =~= b);
    } else if k < b.len() && (k == a.len() || a[k] < b[k]) {
        assert(differs_at(a, b, k));
    } else {
        assert forall|i: int| 0 <= i < k implies #[trigger] b[i] == a[i] by {
            assert(a[i] == b[i]);
        }
        assert(differs_at(b, a, k));
    }
}

/// Two texts with the same UTF-8 bytes are the same text.
pub proof fn lemma_utf8_injective(a: Seq<char>, b: Seq<char>)
    requires
        encode_utf8(a) == encode_utf8(b),
    ensures
        a == b,
{
    encode_utf8_decode_utf8(a);
    encode_utf8_decode_utf8(b);
}

pub proof fn lemma_text_irreflexive(a: Seq<char>)
    ensures
        !text_before(a, a),
{
    lemma_bytes_irreflexive(encode_utf8(a));
}

pub proof fn lemma_text_transitive(a: Seq<char>, b: Seq<char>, c: Seq<char>)
    requires
        text_before(a, b),
        text_before(b, c),
    ensures
        text_before(a, c),
{
    lemma_bytes_transitive(encode_utf8(a), encode_utf8(b), encode_utf8(c));
}

pub proof fn lemma_text_total(a: Seq<char>, b: Seq<char>)
    ensures
        text_before(a, b) || a == b || text_before(b, a),
{
    lemma_bytes_total(encode_utf8(a), encode_utf8(b));
    if encode_utf8(a) == encode_utf8(b) {
        lemma_utf8_injective(a, b);
    }
}

/// Compares two byte slices lexicographically.
pub fn compare_bytes(a: &[u8], b: &[u8]) -> (r: KeyOrder)
    ensures
        match r {
            KeyOrder::Less => bytes_before(a@, b@),
            KeyOrder::Equal => a@ == b@,
            KeyOrder::Greater => bytes_before(b@, a@),
        },
{
    let mut k: usize = 0;
    while k < a.len() && k < b.len() && a[k] == b[k]
        invariant
            k <= a.len(),
            k <= b.len(),
            forall|i: int| 0 <= i < k ==> #[trigger] a@[i] == b@[i],
        decreases a.len() - k,
    {
        k += 1;
    }
    proof {
        assert forall|i: int| 0 <= i < k implies #[trigger] b@[i] == a@[i] by {
            assert(a@[i] == b@[i]);
        }
    }
    if k == a.len() && k == b.len() {
        assert(a@ =~= b@);
        KeyOrder::Equal
    } else if k == a.len() {
        assert(differs_at(a@, b@, k as int));
        KeyOrder::Less
    } else if k == b.len() {
        assert(differs_at(b@, a@, k as int));
        KeyOrder::Greater
    } else if a[k] < b[k] {
        assert(differs_at(a@, b@, k as int));
        KeyOrder::Less
    } else {
        assert(differs_at(b@, a@, k as int));
        KeyOrder::Greater
    }
}

/// Compares two texts by their UTF-8 bytes.
pub fn compare_text(a: &str, b: &str) -> (r: KeyOrder)
    ensures
        match r {
            KeyOrder::Less => text_before(a@, b@),
            KeyOrder::Equal => a@ == b@,
            KeyOrder::Greater => text_before(b@, a@),
        },
{
    let r = compare_bytes(a.as_bytes(), b.as_bytes());
    proof {
        if r is Equal {
            lemma_utf8_injective(a@, b@);
        }
    }
    r
}

/// Whether two texts are the same.
pub fn same_text(a: &str, b: &str) -> (r: bool)
    ensures
        r == (a@ == b@),
{
    match compare_text(a, b) {
        KeyOrder::Equal => true,
        KeyOrder::Less => {
            proof {
                if a@ == b@ {
                    lemma_text_irreflexive(a@);
                }
            }
            false
        },
        KeyOrder::Greater => {
            proof {
                if a@ == b@ {
                    lemma_text_irreflexive(a@);
                }
            }
            false
        },
    }
}

/// Whether two byte slices hold the same bytes.
pub fn same_bytes(a: &[u8], b: &[u8]) -> (r: bool)
    ensures
        r == (a@ == b@),
{
    match compare_bytes(a, b) {
        KeyOrder::Equal => true,
        KeyOrder::Less => {
            proof {
                if a@ == b@ {
                    lemma_bytes_irreflexive(a@);
                }
            }
            false
        },
        KeyOrder::Greater => {
            proof {
                if a@ == b@ {
                    lemma_bytes_irreflexive(a@);
                }
            }
            false
        },
    }
}

} // verus!
