//! Text helpers: decimal numbers, concatenation, copying, case and white space.

use crate::order::{
    compare_text, lemma_text_irreflexive, lemma_text_total, lemma_text_transitive, same_text,
    text_before, KeyOrder,
};
use vstd::prelude::*;
use vstd::string::*;

verus! {

/// The character of a decimal digit.
pub open spec fn digit_char(d: nat) -> char {
    (('0' as u32) + d) as char
}

/// Decimal notation of `n`, without leading zeros.
pub open spec fn decimal(n: nat) -> Seq<char>
    decreases n,
{
    if n < 10 {
        seq![digit_char(n)]
    } else {
        decimal(n / 10).push(digit_char(n % 10))
    }
}

/// Views of the texts of a list.
pub open spec fn texts(s: Seq<String>) -> Seq<Seq<char>> {
    s.map_values(|t: String| t@)
}

/// Views of the pairs of texts of a list.
pub open spec fn text_pairs(s: Seq<(String, String)>) -> Seq<(Seq<char>, Seq<char>)> {
    s.map_values(|p: (String, String)| (p.0@, p.1@))
}

/// View of an optional text.
pub open spec fn optional_text(o: Option<String>) -> Option<Seq<char>> {
    match o {
        Some(t) => Some(t@),
        None => None,
    }
}

/// View of optional bytes.
pub open spec fn optional_bytes(o: Option<Vec<u8>>) -> Option<Seq<u8>> {
    match o {
        Some(b) => Some(b@),
        None => None,
    }
}

/// One decimal digit as text.
fn digit_text(d: u64) -> (r: &'static str)
    requires
        d < 10,
    ensures
        r@ == seq![digit_char(d as nat)],
{
    proof {
        reveal_strlit("0");
        reveal_strlit("1");
        reveal_strlit("2");
        reveal_strlit("3");
        reveal_strlit("4");
        reveal_strlit("5");
        reveal_strlit("6");
        reveal_strlit("7");
        reveal_strlit("8");
        reveal_strlit("9");
    }
    let r = if d == 0 {
        "0"
    } else if d == 1 {
        "1"
    } else if d == 2 {
        "2"
    } else if d == 3 {
        "3"
    } else if d == 4 {
        "4"
    } else if d == 5 {
        "5"
    } else if d == 6 {
        "6"
    } else if d == 7 {
        "7"
    } else if d == 8 {
        "8"
    } else {
        "9"
    };
    assert(r@ =~= seq![digit_char(d as nat)]);
    r
}

/// Decimal notation of `n`.
pub fn decimal_text(n: u64) -> (r: String)
    ensures
        r@ == decimal(n as nat),
    decreases n,
{
    if n < 10 {
        digit_text(n).to_owned()
    } else {
        let mut head = decimal_text(n / 10);
        head.append(digit_text(n % 10));
        assert(head@ =~= decimal(n as nat / 10).push(digit_char(n as nat % 10)));
        head
    }
}

/// `a` followed by `b`.
pub fn join2(a: &str, b: &str) -> (r: String)
    ensures
        r@ == a@ + b@,
{
    let mut s = a.to_owned();
    s.append(b);
    s
}

/// `a`, `b` and `c` in a row.
pub fn join3(a: &str, b: &str, c: &str) -> (r: String)
    ensures
        r@ == a@ + b@ + c@,
{
    let mut s = a.to_owned();
    s.append(b);
    s.append(c);
    s
}

/// A copy of a list of texts.
pub fn copy_texts(v: &Vec<String>) -> (r: Vec<String>)
    ensures
        r@ == v@,
{
    let mut out: Vec<String> = Vec::new();
    let mut i: usize = 0;
    while i < v.len()
        invariant
            i <= v.len(),
            out@ == v@.take(i as int),
        decreases v.len() - i,
    {
        out.push(v[i].clone());
        assert(v@.take(i as int + 1) =~= v@.take(i as int).push(v@[i as int]));
        i += 1;
    }
    assert(v@.take(i as int) =~= v@);
    out
}

/// A copy of a list of pairs of texts.
pub fn copy_pairs(v: &Vec<(String, String)>) -> (r: Vec<(String, String)>)
    ensures
        r@ == v@,
{
    let mut out: Vec<(String, String)> = Vec::new();
    let mut i: usize = 0;
    while i < v.len()
        invariant
            i <= v.len(),
            out@ == v@.take(i as int),
        decreases v.len() - i,
    {
        out.push((v[i].0.clone(), v[i].1.clone()));
        assert(v@.take(i as int + 1) =~= v@.take(i as int).push(v@[i as int]));
        i += 1;
    }
    assert(v@.take(i as int) =~= v@);
    out
}

/// A copy of a byte slice.
pub fn copy_bytes(v: &[u8]) -> (r: Vec<u8>)
    ensures
        r@ == v@,
{
    let mut out: Vec<u8> = Vec::new();
    out.extend_from_slice(v);
    assert(out@ =~= v@);
    out
}

/// A copy of an optional text.
pub fn copy_optional_text(o: &Option<String>) -> (r: Option<String>)
    ensures
        r == *o,
{
    match o {
        Some(t) => Some(t.clone()),
        None => None,
    }
}

/// A copy of optional bytes.
pub fn copy_optional_bytes(o: &Option<Vec<u8>>) -> (r: Option<Vec<u8>>)
    ensures
        optional_bytes(r) == optional_bytes(*o),
{
    match o {
        Some(b) => Some(copy_bytes(b.as_slice())),
        None => None,
    }
}

/// Whether `t` is in the list.
pub fn holds_text(v: &Vec<String>, t: &str) -> (r: bool)
    ensures
        r == texts(v@).contains(t@),
{
    let ghost list = texts(v@);
    let mut i: usize = 0;
    while i < v.len()
        invariant
            i <= v.len(),
            list == texts(v@),
            forall|j: int| 0 <= j < i ==> #[trigger] list[j] != t@,
        decreases v.len() - i,
    {
        assert(list[i as int] == v@[i as int]@);
        if same_text(v[i].as_str(), t) {
            return true;
        }
        i += 1;
    }
    false
}

/// `a` sorts before `b` or equals it.
pub open spec fn text_leq() -> spec_fn(Seq<char>, Seq<char>) -> bool {
    |a: Seq<char>, b: Seq<char>| a == b || text_before(a, b)
}

/// Texts in ascending byte order.
pub open spec fn sorted_texts(s: Seq<Seq<char>>) -> Seq<Seq<char>> {
    s.sort_by(text_leq())
}

/// Byte order is total.
pub proof fn lemma_text_leq()
    ensures
        vstd::relations::total_ordering(text_leq()),
{
    let leq = text_leq();
    assert forall|a: Seq<char>, b: Seq<char>| #[trigger] leq(a, b) && #[trigger] leq(b, a) implies a
        == b by {
        if a != b {
            lemma_text_transitive(a, b, a);
            lemma_text_irreflexive(a);
        }
    }
    assert forall|a: Seq<char>, b: Seq<char>, c: Seq<char>| #[trigger]
        leq(a, b) && #[trigger] leq(b, c) implies leq(a, c) by {
        if a != b && b != c {
            lemma_text_transitive(a, b, c);
        }
    }
    assert forall|a: Seq<char>, b: Seq<char>| #[trigger] leq(a, b) || #[trigger] leq(b, a) by {
        lemma_text_total(a, b);
    }
}

/// The texts in ascending byte order, by insertion.
pub fn sort_texts(v: &Vec<String>) -> (r: Vec<String>)
    ensures
        texts(r@) == sorted_texts(texts(v@)),
{
    let ghost leq = text_leq();
    let ghost all = texts(v@);
    let mut out: Vec<String> = Vec::new();
    let mut i: usize = 0;
    proof {
        lemma_text_leq();
        assert(texts(out@) =~= all.take(0));
    }
    while i < v.len()
        invariant
            i <= v.len(),
            leq == text_leq(),
            vstd::relations::total_ordering(leq),
            all == texts(v@),
            vstd::relations::sorted_by(texts(out@), leq),
            texts(out@).to_multiset() == all.take(i as int).to_multiset(),
        decreases v.len() - i,
    {
        let item = v[i].clone();
        let mut k: usize = out.len();
        let ghost before = texts(out@);
        let ghost x = item@;
        let mut searching: bool = true;
        while searching
            invariant
                k <= out.len(),
                leq == text_leq(),
                vstd::relations::total_ordering(leq),
                before == texts(out@),
                x == item@,
                vstd::relations::sorted_by(before, leq),
                forall|j: int| k <= j < before.len() ==> leq(x, #[trigger] before[j]),
                !searching ==> forall|j: int| 0 <= j < k ==> leq(#[trigger] before[j], x),
            decreases k + if searching { 1int } else { 0int },
        {
            if k == 0 {
                searching = false;
            } else {
                assert(before[k - 1] == out@[k - 1]@);
                match compare_text(item.as_str(), out[k - 1].as_str()) {
                    KeyOrder::Less => {
                        k -= 1;
                    },
                    _ => {
                        searching = false;
                        assert(leq(before[k - 1], x));
                        assert forall|j: int| 0 <= j < k implies leq(#[trigger] before[j], x) by {
                            if j < k - 1 {
                                assert(leq(before[j], before[k - 1]));
                            }
                        }
                    },
                }
            }
        }
        out.insert(k, item);
        proof {
            let after = texts(out@);
            assert(after =~= before.insert(k as int, x));
            assert forall|a: int, b: int| 0 <= a < b < after.len() implies leq(
                #[trigger] after[a],
                #[trigger] after[b],
            ) by {
                if a < k && b < k {
                    assert(leq(before[a], before[b]));
                } else if a < k && b == k {
                    assert(leq(before[a], x));
                } else if a < k {
                    assert(leq(before[a], before[b - 1]));
                } else if a == k {
                    assert(leq(x, before[b - 1]));
                } else {
                    assert(leq(before[a - 1], before[b - 1]));
                }
            }
            before.insert_ensures(k as int, x);
            vstd::seq_lib::to_multiset_insert(before, k as int, x);
            assert(all.take(i + 1) =~= all.take(i as int).push(x));
            all.take(i as int).to_multiset_ensures();
        }
        i += 1;
    }
    proof {
        assert(all.take(i as int) =~= all);
        all.lemma_sort_by_ensures(leq);
        vstd::seq_lib::lemma_sorted_unique(texts(out@), all.sort_by(leq), leq);
    }
    out
}

/// The lower-case form of an ASCII letter; any other character as it is.
pub open spec fn lower_char(c: char) -> char {
    if 'A' <= c <= 'Z' {
        (c as u32 + 32) as char
    } else {
        c
    }
}

/// The text with its ASCII letters in lower case.
pub open spec fn lower_text(t: Seq<char>) -> Seq<char> {
    t.map_values(|c: char| lower_char(c))
}

/// The character has the Unicode property `White_Space`.
pub open spec fn is_white_space(c: char) -> bool {
    let n = c as u32;
    ||| 0x9 <= n <= 0xD
    ||| n == 0x20 || n == 0x85 || n == 0xA0 || n == 0x1680
    ||| 0x2000 <= n <= 0x200A
    ||| n == 0x2028 || n == 0x2029 || n == 0x202F || n == 0x205F || n == 0x3000
}

/// The text without the white space at its start.
pub open spec fn trimmed_start(t: Seq<char>) -> Seq<char>
    decreases t.len(),
{
    if t.len() > 0 && is_white_space(t[0]) {
        trimmed_start(t.skip(1))
    } else {
        t
    }
}

/// The text without the white space at its end.
pub open spec fn trimmed_end(t: Seq<char>) -> Seq<char>
    decreases t.len(),
{
    if t.len() > 0 && is_white_space(t.last()) {
        trimmed_end(t.drop_last())
    } else {
        t
    }
}

/// The text without the white space at its ends.
pub open spec fn trimmed(t: Seq<char>) -> Seq<char> {
    trimmed_end(trimmed_start(t))
}

/// The lower-case letter of an upper-case one, as text.
fn lower_letter(c: char) -> (r: &'static str)
    requires
        'A' <= c <= 'Z',
    ensures
        r@ == seq![lower_char(c)],
{
    let letters = "abcdefghijklmnopqrstuvwxyz";
    let k: usize = (c as u32 - 65) as usize;
    proof {
        reveal_strlit("abcdefghijklmnopqrstuvwxyz");
        lemma_letter(k as int);
    }
    let r = letters.substring_char(k, k + 1);
    assert(r@ =~= seq![lower_char(c)]);
    r
}

proof fn lemma_letter(k: int)
    requires
        0 <= k < 26,
    ensures
        "abcdefghijklmnopqrstuvwxyz"@.len() == 26,
        "abcdefghijklmnopqrstuvwxyz"@[k] == (97 + k) as char,
{
    reveal_strlit("abcdefghijklmnopqrstuvwxyz");
    assert(k == 0 || k == 1 || k == 2 || k == 3 || k == 4 || k == 5 || k == 6 || k == 7 || k == 8
        || k == 9 || k == 10 || k == 11 || k == 12 || k == 13 || k == 14 || k == 15 || k == 16
        || k == 17 || k == 18 || k == 19 || k == 20 || k == 21 || k == 22 || k == 23 || k == 24
        || k == 25);
}

/// The text with its ASCII letters in lower case and all else unchanged.
pub fn to_lower(t: &str) -> (r: String)
    ensures
        r@ == lower_text(t@),
{
    let n = t.unicode_len();
    let mut out = String::new();
    let mut i: usize = 0;
    assert(out@ =~= lower_text(t@).take(0));
    while i < n
        invariant
            i <= n,
            n == t@.len(),
            out@ == lower_text(t@).take(i as int),
        decreases n - i,
    {
        let c = t.get_char(i);
        if 'A' <= c && c <= 'Z' {
            out.append(lower_letter(c));
        } else {
            out.append(t.substring_char(i, i + 1));
        }
        assert(out@ =~= lower_text(t@).take(i + 1));
        i += 1;
    }
    assert(lower_text(t@).take(i as int) =~= lower_text(t@));
    out
}

/// Whether a character is white space.
fn white_space(c: char) -> (r: bool)
    ensures
        r == is_white_space(c),
{
    let n: u32 = c as u32;
    (0x9 <= n && n <= 0xD) || n == 0x20 || n == 0x85 || n == 0xA0 || n == 0x1680 || (0x2000 <= n
        && n <= 0x200A) || n == 0x2028 || n == 0x2029 || n == 0x202F || n == 0x205F || n == 0x3000
}

/// The text without the Unicode white space at its ends.
pub fn trim_text(t: &str) -> (r: String)
    ensures
        r@ == trimmed(t@),
{
    let n = t.unicode_len();
    let mut start: usize = 0;
    assert(t@.skip(0) =~= t@);
    while start < n && white_space(t.get_char(start))
        invariant
            start <= n,
            n == t@.len(),
            trimmed_start(t@) == trimmed_start(t@.skip(start as int)),
        decreases n - start,
    {
        assert(t@.skip(start as int).skip(1) =~= t@.skip(start + 1));
        start += 1;
    }
    let ghost front = t@.skip(start as int);
    assert(trimmed_start(t@) == front);
    let mut end: usize = n;
    assert(front.take(n - start) =~= front);
    while start < end && white_space(t.get_char(end - 1))
        invariant
            start <= end <= n,
            n == t@.len(),
            front == t@.skip(start as int),
            trimmed_end(front) == trimmed_end(front.take(end - start)),
        decreases end - start,
    {
        assert(front.take(end - start).drop_last() =~= front.take(end - 1 - start));
        end -= 1;
    }
    let part = t.substring_char(start, end);
    assert(part@ =~= front.take(end - start));
    part.to_owned()
}

} // verus!
