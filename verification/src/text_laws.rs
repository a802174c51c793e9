//! Laws of texts: numbers, case and white space.

use crate::telemetry::{digits_value, is_digit, parsed_u64};
use crate::text::{
    decimal, digit_char, is_white_space, lower_text, trimmed, trimmed_end, trimmed_start,
};
use vstd::prelude::*;

verus! {

/// Appending a digit to a number in decimal makes it ten times as large, and
/// larger by the digit.
proof fn lemma_digits_push(t: Seq<char>, from: int, c: char)
    requires
        0 <= from <= t.len(),
    ensures
        digits_value(t.push(c), from, t.len() as int + 1) == digits_value(t, from, t.len() as int)
            * 10 + (c as nat - '0' as nat) as nat,
{
    lemma_digits_prefix(t, t.push(c), from, t.len() as int);
    assert(t.push(c)[t.len() as int] == c);
}

proof fn lemma_digits_prefix(a: Seq<char>, b: Seq<char>, from: int, n: int)
    requires
        0 <= from,
        n <= a.len() <= b.len(),
        forall|i: int| 0 <= i < a.len() ==> a[i] == b[i],
    ensures
        digits_value(a, from, n) == digits_value(b, from, n),
    decreases n - from,
{
    if n > from {
        lemma_digits_prefix(a, b, from, n - 1);
    }
}

/// A number in decimal has digits only, no leading zero but for zero itself,
/// and its digits give the number back.
pub proof fn law_decimal_is_exact(n: nat)
    ensures
        decimal(n).len() > 0,
        forall|i: int| 0 <= i < decimal(n).len() ==> '0' <= #[trigger] decimal(n)[i] <= '9',
        n > 0 ==> decimal(n)[0] != '0',
        n < 10 ==> decimal(n).len() == 1,
        digits_value(decimal(n), 0, decimal(n).len() as int) == n,
    decreases n,
{
    if n < 10 {
        let d = decimal(n);
        assert(d[0] == digit_char(n));
        reveal_with_fuel(digits_value, 2);
    } else {
        law_decimal_is_exact(n / 10);
        let t = decimal(n / 10);
        let c = digit_char(n % 10);
        assert(decimal(n) == t.push(c));
        lemma_digits_push(t, 0, c);
        assert(decimal(n)[0] == t[0]);
    }
}

/// Different numbers have different decimals.
pub proof fn law_decimals_differ(a: nat, b: nat)
    requires
        a != b,
    ensures
        decimal(a) != decimal(b),
{
    law_decimal_is_exact(a);
    law_decimal_is_exact(b);
}

/// A number that was written in decimal is read back.
pub proof fn law_number_is_read_back(n: u64)
    ensures
        parsed_u64(decimal(n as nat)) == Some(n),
{
    law_decimal_is_exact(n as nat);
    let t = decimal(n as nat);
    assert(t[0] != '+');
    assert forall|i: int| 0 <= i < t.len() implies is_digit(#[trigger] t[i]) by {
        assert('0' <= t[i] <= '9');
    }
}

/// A text is a number exactly if it is digits only, one at least, behind one
/// plus sign at most, and the number is not too large. One more digit makes the
/// number ten times as large, and larger by the digit.
pub proof fn law_number_is_digits(t: Seq<char>, c: char)
    ensures
        parsed_u64(t) is Some ==> t.len() > 0 && '0' <= t.last() <= '9' && (forall|i: int|
            1 <= i < t.len() ==> '0' <= #[trigger] t[i] <= '9') && (t[0] == '+' || '0' <= t[0]
            <= '9'),
        parsed_u64(t) is Some && '0' <= c <= '9' && parsed_u64(t)->0 * 10 + (c as int - '0' as int)
            <= u64::MAX ==> (parsed_u64(t.push(c)) matches Some(m) && m == parsed_u64(t)->0 * 10 + (
        c as int - '0' as int)),
        parsed_u64(t) is Some && !('0' <= c <= '9') ==> parsed_u64(t.push(c)) is None,
{
    let from = if t.len() > 0 && t[0] == '+' {
        1int
    } else {
        0int
    };
    let u = t.push(c);
    if parsed_u64(t) is Some {
        assert(is_digit(t[t.len() - 1]));
        assert forall|i: int| 1 <= i < t.len() implies '0' <= #[trigger] t[i] <= '9' by {
            assert(is_digit(t[i]));
        }
        if from == 0 {
            assert(is_digit(t[0]));
        }
        assert(u[0] == t[0]);
        assert(u[t.len() as int] == c);
        lemma_digits_push(t, from, c);
        if '0' <= c <= '9' {
            assert forall|i: int| from <= i < u.len() implies is_digit(#[trigger] u[i]) by {
                if i < t.len() {
                    assert(u[i] == t[i]);
                    assert(is_digit(t[i]));
                }
            }
        } else {
            assert(!is_digit(u[t.len() as int]));
        }
    }
}

/// Lowering a text replaces its ASCII capitals, one for one, and nothing else.
/// Doing it twice changes nothing more.
pub proof fn law_lower_text_replaces_capitals(t: Seq<char>)
    ensures
        lower_text(t).len() == t.len(),
        forall|i: int|
            0 <= i < t.len() ==> #[trigger] lower_text(t)[i] == if 'A' <= t[i] <= 'Z' {
                (t[i] as u32 + 32) as char
            } else {
                t[i]
            },
        lower_text(lower_text(t)) == lower_text(t),
{
    assert(lower_text(lower_text(t)) =~= lower_text(t));
}

/// The text is white space only.
pub open spec fn blank(t: Seq<char>) -> bool {
    forall|i: int| 0 <= i < t.len() ==> is_white_space(#[trigger] t[i])
}

proof fn lemma_trimmed_start(t: Seq<char>)
    ensures
        exists|n: int|
            0 <= n <= t.len() && trimmed_start(t) == #[trigger] t.skip(n) && blank(t.take(n)),
        trimmed_start(t).len() > 0 ==> !is_white_space(trimmed_start(t)[0]),
    decreases t.len(),
{
    if t.len() > 0 && is_white_space(t[0]) {
        let rest = t.skip(1);
        lemma_trimmed_start(rest);
        let n = choose|n: int|
            0 <= n <= rest.len() && trimmed_start(rest) == #[trigger] rest.skip(n) && blank(
                rest.take(n),
            );
        assert(rest.skip(n) =~= t.skip(n + 1));
        assert forall|i: int| 0 <= i < n + 1 implies is_white_space(#[trigger] t.take(n + 1)[i]) by {
            if i > 0 {
                assert(rest.take(n)[i - 1] == t[i]);
            }
        }
        assert(blank(t.take(n + 1)));
    } else {
        assert(t.skip(0) =~= t);
        assert(blank(t.take(0)));
    }
}

proof fn lemma_trimmed_end(t: Seq<char>)
    ensures
        exists|n: int|
            0 <= n <= t.len() && trimmed_end(t) == #[trigger] t.take(n) && blank(t.skip(n)),
        trimmed_end(t).len() > 0 ==> !is_white_space(trimmed_end(t).last()),
    decreases t.len(),
{
    if t.len() > 0 && is_white_space(t.last()) {
        let rest = t.drop_last();
        lemma_trimmed_end(rest);
        let n = choose|n: int|
            0 <= n <= rest.len() && trimmed_end(rest) == #[trigger] rest.take(n) && blank(
                rest.skip(n),
            );
        assert(rest.take(n) =~= t.take(n));
        assert forall|i: int| 0 <= i < t.len() - n implies is_white_space(
            #[trigger] t.skip(n)[i],
        ) by {
            if i < rest.len() - n {
                assert(rest.skip(n)[i] == t.skip(n)[i]);
            } else {
                assert(t.skip(n)[i] == t.last());
            }
        }
        assert(blank(t.skip(n)));
    } else {
        assert(t.take(t.len() as int) =~= t);
        assert(blank(t.skip(t.len() as int)));
    }
}

/// Trimming takes white space off both ends, and nothing else.
pub proof fn law_trim_takes_white_space_off_the_ends(t: Seq<char>)
    ensures
        exists|a: int, b: int|
            0 <= a <= b <= t.len() && trimmed(t) == #[trigger] t.subrange(a, b) && blank(t.take(a))
                && blank(t.skip(b)),
        trimmed(t).len() > 0 ==> !is_white_space(trimmed(t)[0]) && !is_white_space(
            trimmed(t).last(),
        ),
{
    lemma_trimmed_start(t);
    let u = trimmed_start(t);
    lemma_trimmed_end(u);
    let a = choose|n: int| 0 <= n <= t.len() && u == #[trigger] t.skip(n) && blank(t.take(n));
    let m = choose|n: int|
        0 <= n <= u.len() && trimmed_end(u) == #[trigger] u.take(n) && blank(u.skip(n));
    assert(u.take(m) =~= t.subrange(a, a + m));
    assert(u.skip(m) =~= t.skip(a + m));
    if trimmed(t).len() > 0 {
        assert(trimmed(t)[0] == u[0]);
    }
}

} // verus!
