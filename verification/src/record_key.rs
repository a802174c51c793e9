//! Keys of structured data.
//!
//! Records live under `_xtable/{space}/{table}/{record_id}`, schemas under
//! `_xtable/{space}/_schema/{name}/v{N}.json`.

use crate::memtable::{RecordKey, RecordKeyView};
use crate::order::same_text;
use crate::text::join3;
use vstd::prelude::*;
use vstd::string::*;

verus! {

/// Prefix of all structured keys.
pub const KEY_PREFIX: &'static str = "_xtable/";

/// Suffix of documents.
pub const DOCUMENT_SUFFIX: &'static str = ".json";

/// First position of `/` at or after `from`.
pub open spec fn slash_from(s: Seq<char>, from: int) -> Option<int>
    decreases s.len() - from,
{
    if 0 <= from < s.len() {
        if s[from] == '/' {
            Some(from)
        } else {
            slash_from(s, from + 1)
        }
    } else {
        None
    }
}

/// `s` without `suffix`, where it ends in it.
pub open spec fn without_suffix(s: Seq<char>, suffix: Seq<char>) -> Seq<char> {
    if s.len() >= suffix.len() && s.skip(s.len() - suffix.len()) == suffix {
        s.take(s.len() - suffix.len())
    } else {
        s
    }
}

/// Space, table and record id of a structured key. The table ends at the
/// second slash behind the prefix; the id is all that follows, without a
/// `.json` at its end.
pub open spec fn parsed_key(key: Seq<char>) -> Option<RecordKeyView> {
    let p = KEY_PREFIX@.len() as int;
    if key.len() < p || key.take(p) != KEY_PREFIX@ {
        None
    } else {
        match slash_from(key, p) {
            None => None,
            Some(a) => match slash_from(key, a + 1) {
                None => None,
                Some(b) => Some(
                    (
                        key.subrange(p, a),
                        key.subrange(a + 1, b),
                        without_suffix(key.skip(b + 1), DOCUMENT_SUFFIX@),
                    ),
                ),
            },
        }
    }
}

/// Key of a structured record.
pub open spec fn record_key_text(space: Seq<char>, table: Seq<char>, id: Seq<char>) -> Seq<char> {
    KEY_PREFIX@ + space + "/"@ + table + "/"@ + id
}

/// Key under which a write enters the memtable. Keys that are not structured
/// keep an empty space and table.
pub open spec fn memtable_key(key: Seq<char>) -> RecordKeyView {
    match parsed_key(key) {
        Some(k) => k,
        None => (Seq::empty(), Seq::empty(), key),
    }
}

pub fn find_slash(s: &str, n: usize, from: usize) -> (r: Option<usize>)
    requires
        n == s@.len(),
        from <= n,
    ensures
        match r {
            Some(i) => slash_from(s@, from as int) == Some(i as int) && from <= i < n,
            None => slash_from(s@, from as int) is None,
        },
{
    let mut i: usize = from;
    while i < n
        invariant
            n == s@.len(),
            from <= i <= n,
            slash_from(s@, from as int) == slash_from(s@, i as int),
        decreases n - i,
    {
        if s.get_char(i) == '/' {
            return Some(i);
        }
        i += 1;
    }
    None
}

/// `s` without `suffix`, where it ends in it.
pub fn trim_suffix(s: &str, suffix: &str) -> (r: String)
    ensures
        r@ == without_suffix(s@, suffix@),
{
    let n = s.unicode_len();
    let m = suffix.unicode_len();
    if n >= m {
        let tail = s.substring_char(n - m, n);
        assert(tail@ =~= s@.skip(n - m));
        if same_text(tail, suffix) {
            let head = s.substring_char(0, n - m);
            assert(head@ =~= s@.take(n - m));
            return head.to_owned();
        }
    }
    s.to_owned()
}

/// Parses a structured key into space, table and record id. Returns `None`
/// for a key of another shape.
pub fn parse_record_key(backend_key: &str) -> (r: Option<RecordKey>)
    ensures
        match r {
            Some(k) => parsed_key(backend_key@) == Some(k@),
            None => parsed_key(backend_key@) is None,
        },
{
    let n = backend_key.unicode_len();
    let p = KEY_PREFIX.unicode_len();
    if n < p {
        return None;
    }
    let head = backend_key.substring_char(0, p);
    assert(head@ =~= backend_key@.take(p as int));
    if !same_text(head, KEY_PREFIX) {
        return None;
    }
    let a = match find_slash(backend_key, n, p) {
        Some(a) => a,
        None => return None,
    };
    let b = match find_slash(backend_key, n, a + 1) {
        Some(b) => b,
        None => return None,
    };
    let rest = backend_key.substring_char(b + 1, n);
    assert(rest@ =~= backend_key@.skip(b + 1));
    let key: RecordKey = (
        backend_key.substring_char(p, a).to_owned(),
        backend_key.substring_char(a + 1, b).to_owned(),
        trim_suffix(rest, DOCUMENT_SUFFIX),
    );
    Some(key)
}

/// Key under which a write enters the memtable.
pub fn key_in_memtable(backend_key: &str) -> (r: RecordKey)
    ensures
        r@ == memtable_key(backend_key@),
{
    match parse_record_key(backend_key) {
        Some(k) => k,
        None => {
            let r: RecordKey = (String::new(), String::new(), backend_key.to_owned());
            assert(r.0@ =~= Seq::<char>::empty() && r.1@ =~= Seq::<char>::empty());
            r
        },
    }
}

/// Key of a structured record.
pub fn record_key(space: &str, table: &str, record_id: &str) -> (r: String)
    ensures
        r@ == record_key_text(space@, table@, record_id@),
{
    let head = join3(KEY_PREFIX, space, "/");
    let mid = join3(head.as_str(), table, "/");
    let mut out = mid;
    out.append(record_id);
    out
}

proof fn lemma_slash_from(s: Seq<char>, from: int, at: int)
    requires
        0 <= from <= at < s.len(),
        s[at] == '/',
        forall|i: int| from <= i < at ==> #[trigger] s[i] != '/',
    ensures
        slash_from(s, from) == Some(at),
    decreases at - from,
{
    if from < at {
        lemma_slash_from(s, from + 1, at);
    }
}

/// Parsing the document key of a record gives back its space, table and id.
/// Space and table hold no slash.
pub proof fn law_record_key_parses_back(space: Seq<char>, table: Seq<char>, id: Seq<char>)
    requires
        !space.contains('/'),
        !table.contains('/'),
    ensures
        parsed_key(record_key_text(space, table, id) + DOCUMENT_SUFFIX@) == Some(
            (space, table, id),
        ),
        without_suffix(id, DOCUMENT_SUFFIX@) == id ==> parsed_key(
            record_key_text(space, table, id),
        ) == Some((space, table, id)),
{
    let bare = record_key_text(space, table, id);
    lemma_key_parts(bare, space, table, id);
    let doc = bare + DOCUMENT_SUFFIX@;
    assert(doc =~= record_key_text(space, table, id + DOCUMENT_SUFFIX@));
    lemma_key_parts(doc, space, table, id + DOCUMENT_SUFFIX@);
    let t = id + DOCUMENT_SUFFIX@;
    assert(t.skip(t.len() - DOCUMENT_SUFFIX@.len()) =~= DOCUMENT_SUFFIX@);
    assert(t.take(t.len() - DOCUMENT_SUFFIX@.len()) =~= id);
}

proof fn lemma_key_parts(key: Seq<char>, space: Seq<char>, table: Seq<char>, id: Seq<char>)
    requires
        key == record_key_text(space, table, id),
        !space.contains('/'),
        !table.contains('/'),
    ensures
        parsed_key(key) == Some((space, table, without_suffix(id, DOCUMENT_SUFFIX@))),
{
    reveal_strlit("/");
    let p = KEY_PREFIX@.len() as int;
    let a = p + space.len();
    let b = a + 1 + table.len();
    assert(key.take(p) =~= KEY_PREFIX@);
    assert forall|i: int| p <= i < a implies #[trigger] key[i] != '/' by {
        assert(key[i] == space[i - p]);
    }
    lemma_slash_from(key, p, a);
    assert forall|i: int| a + 1 <= i < b implies #[trigger] key[i] != '/' by {
        assert(key[i] == table[i - a - 1]);
    }
    lemma_slash_from(key, a + 1, b);
    assert(key.subrange(p, a) =~= space);
    assert(key.subrange(a + 1, b) =~= table);
    assert(key.skip(b + 1) =~= id);
}

} // verus!
