//! Laws of texts: what searching, trimming, folding and reading numbers give.

use vstd::prelude::*;

use crate::text;

verus! {

/// Whitespace is what Unicode calls so, by code point.
pub proof fn whitespace_by_code_point(c: char)
    ensures
        text::whitespace(c) <==> {
            let u = c as int;
            9 <= u <= 13 || u == 32 || u == 0x85 || u == 0xa0 || u == 0x1680 || 0x2000 <= u
                <= 0x200a || u == 0x2028 || u == 0x2029 || u == 0x202f || u == 0x205f || u == 0x3000
        },
{
}

/// A character is found where it first stands, and only if it stands somewhere.
pub proof fn characters_are_found_where_they_first_stand(s: Seq<char>, c: char)
    ensures
        match text::find_char(s, c) {
            Some(i) => 0 <= i < s.len() && s[i] == c && forall|j: int|
                0 <= j < i ==> #[trigger] s[j] != c,
            None => forall|j: int| 0 <= j < s.len() ==> #[trigger] s[j] != c,
        },
    decreases s.len(),
{
    if s.len() > 0 {
        let rest = s.drop_first();
        characters_are_found_where_they_first_stand(rest, c);
        assert forall|j: int| 0 < j < s.len() implies #[trigger] s[j] == rest[j - 1] by {}
    }
}

/// A character is found from the end where it last stands, and only if it stands somewhere.
pub proof fn characters_are_found_where_they_last_stand(s: Seq<char>, c: char)
    ensures
        match text::rfind_char(s, c) {
            Some(i) => 0 <= i < s.len() && s[i] == c && forall|j: int|
                i < j < s.len() ==> #[trigger] s[j] != c,
            None => forall|j: int| 0 <= j < s.len() ==> #[trigger] s[j] != c,
        },
    decreases s.len(),
{
    if s.len() > 0 {
        let init = s.drop_last();
        characters_are_found_where_they_last_stand(init, c);
        assert forall|j: int| 0 <= j < s.len() - 1 implies #[trigger] s[j] == init[j] by {}
    }
}

/// Whether a pattern stands at a position of a text.
pub open spec fn stands_at(s: Seq<char>, pattern: Seq<char>, i: int) -> bool {
    &&& 0 <= i
    &&& i + pattern.len() <= s.len()
    &&& s.subrange(i, i + pattern.len()) == pattern
}

/// A pattern is found where it first stands, and only if it stands somewhere.
pub proof fn patterns_are_found_where_they_first_stand(s: Seq<char>, pattern: Seq<char>)
    ensures
        match text::find(s, pattern) {
            Some(i) => stands_at(s, pattern, i) && forall|j: int|
                0 <= j < i ==> !#[trigger] stands_at(s, pattern, j),
            None => forall|j: int| !#[trigger] stands_at(s, pattern, j),
        },
    decreases s.len(),
{
    assert(pattern.is_prefix_of(s) <==> stands_at(s, pattern, 0));
    if s.len() > 0 && !pattern.is_prefix_of(s) {
        let rest = s.drop_first();
        patterns_are_found_where_they_first_stand(rest, pattern);
        assert forall|j: int| j > 0 implies (#[trigger] stands_at(s, pattern, j) <==> stands_at(
            rest,
            pattern,
            j - 1,
        )) by {
            if j + pattern.len() <= s.len() {
                assert(s.subrange(j, j + pattern.len()) =~= rest.subrange(
                    j - 1,
                    j - 1 + pattern.len(),
                ));
            }
        }
        if let Some(i) = text::find(rest, pattern) {
            assert(stands_at(s, pattern, i + 1));
        }
    }
}

/// A pattern that stands after a text, and nowhere before, is found there.
pub proof fn first_patterns_are_found(s: Seq<char>, pattern: Seq<char>, rest: Seq<char>)
    requires
        forall|j: int|
            0 <= j < s.len() ==> !#[trigger] stands_at(s + pattern + rest, pattern, j),
    ensures
        text::find(s + pattern + rest, pattern) == Some(s.len() as int),
{
    lemma_stands_between(s, pattern, rest);
    lemma_found_at(s + pattern + rest, pattern, s.len() as int);
}

proof fn lemma_stands_between(s: Seq<char>, pattern: Seq<char>, rest: Seq<char>)
    ensures
        stands_at(s + pattern + rest, pattern, s.len() as int),
{
    let n = s.len() as int;
    assert((s + pattern + rest).subrange(n, n + pattern.len()) =~= pattern);
}

proof fn lemma_found_at(whole: Seq<char>, pattern: Seq<char>, at: int)
    requires
        stands_at(whole, pattern, at),
        forall|j: int| 0 <= j < at ==> !#[trigger] stands_at(whole, pattern, j),
    ensures
        text::find(whole, pattern) == Some(at),
{
    patterns_are_found_where_they_first_stand(whole, pattern);
    match text::find(whole, pattern) {
        Some(i) => {
            assert(stands_at(whole, pattern, i));
        },
        None => {
            assert(!stands_at(whole, pattern, at));
        },
    }
}

/// Whether `t` is what lies in `s` between positions, with whitespace alone outside them and
/// none at its own ends.
pub open spec fn lies_between_whitespace(s: Seq<char>, t: Seq<char>, a: int, b: int) -> bool {
    &&& 0 <= a <= b <= s.len()
    &&& t == s.subrange(a, b)
    &&& forall|i: int| 0 <= i < a || b <= i < s.len() ==> text::whitespace(#[trigger] s[i])
    &&& a < b ==> !text::whitespace(s[a]) && !text::whitespace(s[b - 1])
}

proof fn lemma_trim_start(s: Seq<char>) -> (a: int)
    ensures
        0 <= a <= s.len(),
        text::trim_start(s) == s.skip(a),
        forall|i: int| 0 <= i < a ==> text::whitespace(#[trigger] s[i]),
        a < s.len() ==> !text::whitespace(s[a]),
    decreases s.len(),
{
    if s.len() > 0 && text::whitespace(s[0]) {
        let rest = s.drop_first();
        let a = lemma_trim_start(rest);
        assert(rest.skip(a) =~= s.skip(a + 1));
        assert forall|i: int| 0 <= i < a + 1 implies text::whitespace(#[trigger] s[i]) by {
            if i > 0 {
                assert(text::whitespace(rest[i - 1]));
            }
        }
        a + 1
    } else {
        assert(s.skip(0) =~= s);
        0
    }
}

proof fn lemma_trim_end(s: Seq<char>) -> (b: int)
    ensures
        0 <= b <= s.len(),
        text::trim_end(s) == s.take(b),
        forall|i: int| b <= i < s.len() ==> text::whitespace(#[trigger] s[i]),
        b > 0 ==> !text::whitespace(s[b - 1]),
    decreases s.len(),
{
    if s.len() > 0 && text::whitespace(s.last()) {
        let init = s.drop_last();
        let b = lemma_trim_end(init);
        assert(init.take(b) =~= s.take(b));
        assert forall|i: int| b <= i < s.len() implies text::whitespace(#[trigger] s[i]) by {
            if i < s.len() - 1 {
                assert(text::whitespace(init[i]));
            }
        }
        b
    } else {
        assert(s.take(s.len() as int) =~= s);
        s.len() as int
    }
}

/// Trimming takes away whitespace at the ends, all of it, and nothing else.
pub proof fn trimming_takes_whitespace_at_the_ends(s: Seq<char>)
    ensures
        exists|a: int, b: int| lies_between_whitespace(s, text::trim(s), a, b),
{
    let a = lemma_trim_start(s);
    let middle = s.skip(a);
    let b = lemma_trim_end(middle);
    assert(text::trim(s) =~= s.subrange(a, a + b));
    assert forall|i: int| 0 <= i < a || a + b <= i < s.len() implies text::whitespace(
        #[trigger] s[i],
    ) by {
        if i >= a + b {
            assert(middle[i - a] == s[i]);
        }
    }
    if b > 0 {
        assert(middle[0] == s[a]);
        assert(middle[b - 1] == s[a + b - 1]);
    }
    assert(lies_between_whitespace(s, text::trim(s), a, a + b));
}

/// What lies between whitespace, and begins and ends with none, is what trimming leaves.
pub proof fn trimming_leaves_what_is_visible(before: Seq<char>, s: Seq<char>, after: Seq<char>)
    requires
        forall|i: int| 0 <= i < before.len() ==> text::whitespace(#[trigger] before[i]),
        forall|i: int| 0 <= i < after.len() ==> text::whitespace(#[trigger] after[i]),
        s.len() > 0 ==> !text::whitespace(s[0]) && !text::whitespace(s[s.len() - 1]),
    ensures
        text::trim(before + s + after) == s,
{
    let whole = before + s + after;
    trimming_takes_whitespace_at_the_ends(whole);
    let (a, b) = choose|a: int, b: int| lies_between_whitespace(whole, text::trim(whole), a, b);
    let n = before.len() as int;
    let m = n + s.len();
    assert forall|i: int| 0 <= i < n || m <= i < whole.len() implies text::whitespace(
        #[trigger] whole[i],
    ) by {
        if i < n {
            assert(whole[i] == before[i]);
        } else {
            assert(whole[i] == after[i - m]);
        }
    }
    if s.len() > 0 {
        assert(whole[n] == s[0]);
        assert(whole[m - 1] == s[s.len() - 1]);
        assert(a == n && b == m);
        assert(whole.subrange(n, m) =~= s);
    } else {
        if a < b {
            assert(text::whitespace(whole[a]));
        }
        assert(text::trim(whole) =~= s);
    }
}

/// A text is blank if trimming leaves nothing of it.
pub proof fn blank_texts_are_trimmed_to_nothing(s: Seq<char>)
    ensures
        text::blank(s) <==> text::trim(s).len() == 0,
        text::blank(s) <==> forall|i: int| 0 <= i < s.len() ==> text::whitespace(#[trigger] s[i]),
{
    trimming_takes_whitespace_at_the_ends(s);
    let (a, b) = choose|a: int, b: int| lies_between_whitespace(s, text::trim(s), a, b);
    if text::blank(s) && a < b {
        assert(text::whitespace(s[a]));
    }
    if a == b {
        assert forall|i: int| 0 <= i < s.len() implies text::whitespace(#[trigger] s[i]) by {}
    }
}

/// Copies of a character at the end of a text are taken away, all of them, and nothing else.
pub proof fn trailing_copies_are_taken_away(s: Seq<char>, c: char)
    ensures
        text::trim_end_char(s, c).len() <= s.len(),
        text::trim_end_char(s, c) == s.take(text::trim_end_char(s, c).len() as int),
        forall|i: int| text::trim_end_char(s, c).len() <= i < s.len() ==> #[trigger] s[i] == c,
        text::trim_end_char(s, c).len() > 0 ==> s[text::trim_end_char(s, c).len() - 1] != c,
    decreases s.len(),
{
    if s.len() > 0 && s.last() == c {
        let init = s.drop_last();
        trailing_copies_are_taken_away(init, c);
        let n = text::trim_end_char(s, c).len() as int;
        assert(init.take(n) =~= s.take(n));
        assert forall|i: int| n <= i < s.len() implies #[trigger] s[i] == c by {
            if i < s.len() - 1 {
                assert(init[i] == c);
            }
        }
    } else {
        assert(s.take(s.len() as int) =~= s);
    }
}

/// Folding to lower case moves the 26 capitals of ASCII up by 32, and changes nothing else.
pub proof fn capitals_are_folded(s: Seq<char>)
    ensures
        text::lowercase(s).len() == s.len(),
        forall|i: int|
            0 <= i < s.len() ==> (#[trigger] text::lowercase(s)[i]) as int == if 65 <= s[i] as int
                <= 90 {
                s[i] as int + 32
            } else {
                s[i] as int
            },
        text::lowercase(text::lowercase(s)) == text::lowercase(s),
{
    let folded = text::lowercase(s);
    assert forall|i: int| 0 <= i < s.len() implies (#[trigger] folded[i]) as int == if 65
        <= s[i] as int <= 90 {
        s[i] as int + 32
    } else {
        s[i] as int
    } by {
        assert(folded[i] == text::lower(s[i]));
    }
    assert(text::lowercase(folded) =~= folded) by {
        assert forall|i: int| 0 <= i < s.len() implies text::lowercase(folded)[i] == folded[i] by {
            assert(folded[i] == text::lower(s[i]));
        }
    }
}

/// Whether every character is a decimal digit, by code point.
pub open spec fn decimal_digits(s: Seq<char>) -> bool {
    forall|i: int| 0 <= i < s.len() ==> 48 <= (#[trigger] s[i]) as int <= 57
}

/// A number is written with its last digit last, and without a zero in front.
pub proof fn decimal_digits_follow_division(n: nat)
    ensures
        text::decimal(n).len() > 0,
        decimal_digits(text::decimal(n)),
        text::decimal(n).last() as int == 48 + n % 10,
        n >= 10 ==> text::decimal(n).drop_last() == text::decimal(n / 10),
        n < 10 ==> text::decimal(n).len() == 1,
        n > 0 ==> text::decimal(n)[0] as int != 48,
    decreases n,
{
    if n >= 10 {
        decimal_digits_follow_division(n / 10);
        let init = text::decimal(n / 10);
        let s = text::decimal(n);
        assert(s.drop_last() =~= init);
        assert(s[0] == init[0]);
        assert forall|i: int| 0 <= i < s.len() implies 48 <= (#[trigger] s[i]) as int <= 57 by {
            if i < init.len() {
                assert(s[i] == init[i]);
            }
        }
    }
}

/// Different numbers are written differently.
pub proof fn decimals_tell_numbers_apart(n: nat, m: nat)
    requires
        text::decimal(n) == text::decimal(m),
    ensures
        n == m,
    decreases n,
{
    decimal_digits_follow_division(n);
    decimal_digits_follow_division(m);
    let s = text::decimal(n);
    assert(48 + n % 10 == 48 + m % 10);
    if n >= 10 && m >= 10 {
        decimals_tell_numbers_apart(n / 10, m / 10);
    } else if n >= 10 {
        decimal_digits_follow_division(n / 10);
    } else if m >= 10 {
        decimal_digits_follow_division(m / 10);
    }
}

/// Every further digit of a number multiplies it by ten and is added to it.
pub proof fn digits_are_worth_their_place(s: Seq<char>, c: char)
    requires
        48 <= c as int <= 57,
    ensures
        text::digits_value(Seq::empty()) == 0,
        text::digits_value(s.push(c)) == 10 * text::digits_value(s) + (c as int - 48),
{
    assert(s.push(c).drop_last() =~= s);
}

/// A port number is read from one or more digits, with a plus sign in front or none, that
/// denote a number below 65536; from all such, and from nothing else.
pub proof fn port_numbers_are_digits_below_the_limit(s: Seq<char>)
    ensures
        ({
            let signed = s.len() > 0 && s[0] == '+';
            let digits = if signed {
                s.skip(1)
            } else {
                s
            };
            &&& text::port_number(s) is Some <==> digits.len() > 0 && decimal_digits(digits)
                && text::digits_value(digits) < 65536
            &&& text::port_number(s) matches Some(port) ==> port == text::digits_value(digits)
        }),
{
    let signed = s.len() > 0 && s[0] == '+';
    let digits = if signed {
        s.skip(1)
    } else {
        s
    };
    assert(signed ==> s.drop_first() =~= s.skip(1));
    assert(text::all_digits(digits) <==> decimal_digits(digits)) by {
        if text::all_digits(digits) {
            assert forall|i: int| 0 <= i < digits.len() implies 48 <= (#[trigger] digits[i]) as int
                <= 57 by {}
        }
        if decimal_digits(digits) {
            assert forall|i: int| 0 <= i < digits.len() implies '0' <= #[trigger] digits[i]
                <= '9' by {}
        }
    }
    if decimal_digits(digits) {
        lemma_digits_value_nonnegative(digits);
    }
}

proof fn lemma_digits_value_nonnegative(s: Seq<char>)
    requires
        decimal_digits(s),
    ensures
        text::digits_value(s) >= 0,
    decreases s.len(),
{
    if s.len() > 0 {
        assert(48 <= s[s.len() - 1] as int);
        assert forall|i: int| 0 <= i < s.drop_last().len() implies 48 <= (
        #[trigger] s.drop_last()[i]) as int <= 57 by {
            assert(s.drop_last()[i] == s[i]);
        }
        lemma_digits_value_nonnegative(s.drop_last());
    }
}

} // verus!
