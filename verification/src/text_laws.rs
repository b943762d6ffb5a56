//! The operations on text, in terms of the characters that go in and come out.

use crate::edit_laws::all_space;
use crate::text::{
    all_digits, begins, decimal, decimal_int, digits_value, ends, first_of, has_control, is_digit,
    is_space, last_of, lemma_decimal, lemma_first_of_at, lemma_last_of, lemma_last_of_at,
    lemma_trim_end_at, lemma_trim_start_at, lines_of, lower, occurs, occurs_at, replaced, split_on,
    trim, unsigned_of, word_len, words,
};
use vstd::prelude::*;

verus! {

/// Whether none of `s` is whitespace.
pub open spec fn no_space(s: Seq<char>) -> bool {
    forall|i: int| 0 <= i < s.len() ==> !is_space(#[trigger] s[i])
}

/// Of the ASCII characters, blanks, tabs and line ends are whitespace; of the others, those with the
/// property `White_Space`.
pub proof fn law_which_characters_are_space(c: char)
    ensures
        c == ' ' || c == '\t' || c == '\n' || c == '\r' || c == '\u{b}' || c == '\u{c}' ==> is_space(
            c,
        ),
        c as int <= 127 && is_space(c) ==> 9 <= c as int <= 13 || c == ' ',
        c as int > 127 ==> (is_space(c) <==> c == '\u{85}' || c == '\u{a0}' || c == '\u{1680}'
            || '\u{2000}' <= c <= '\u{200a}' || c == '\u{2028}' || c == '\u{2029}' || c
            == '\u{202f}' || c == '\u{205f}' || c == '\u{3000}'),
{
}

/// Trimming takes away the whitespace at both ends, and nothing else.
pub proof fn law_trimming(a: Seq<char>, s: Seq<char>, b: Seq<char>)
    requires
        all_space(a),
        all_space(b),
        s.len() > 0 ==> !is_space(s[0]) && !is_space(s[s.len() - 1]),
    ensures
        trim(a + s + b) == s,
{
    let all = a + s + b;
    if s.len() == 0 {
        assert(all =~= a + b);
        assert forall|i: int| 0 <= i < all.len() implies is_space(#[trigger] all[i]) by {
            if i < a.len() {
                assert(all[i] == a[i]);
            } else {
                assert(all[i] == b[i - a.len()]);
            }
        }
        lemma_trim_start_at(all, all.len() as int);
        assert(all.skip(all.len() as int) =~= seq![]);
        assert(trim(all) =~= s);
    } else {
        let n = a.len() as int;
        let m = s.len() as int;
        assert forall|i: int| 0 <= i < n implies is_space(#[trigger] all[i]) by {
            assert(all[i] == a[i]);
        }
        assert(all[n] == s[0]);
        lemma_trim_start_at(all, n);
        let rest = all.skip(n);
        assert(rest =~= s + b);
        assert forall|i: int| m <= i < rest.len() implies is_space(#[trigger] rest[i]) by {
            assert(rest[i] == b[i - m]);
        }
        assert(rest[m - 1] == s[m - 1]);
        lemma_trim_end_at(rest, m);
        assert(rest.take(m) =~= s);
    }
}

/// Only the letters from `A` to `Z` change when a text is made small: each becomes the letter 32
/// places behind it.
pub proof fn law_small_letters(s: Seq<char>)
    ensures
        lower(s).len() == s.len(),
        forall|i: int|
            0 <= i < s.len() ==> (#[trigger] lower(s)[i]) as int == if 65 <= s[i] as int <= 90 {
                s[i] as int + 32
            } else {
                s[i] as int
            },
{
}

/// A text holds another exactly if it is made of something, that text, and something; it begins or
/// ends with it exactly if one of the two is missing.
pub proof fn law_holding_another_text(s: Seq<char>, p: Seq<char>)
    ensures
        occurs(s, p) <==> exists|a: Seq<char>, b: Seq<char>| s == #[trigger] (a + p + b),
        begins(s, p) <==> exists|b: Seq<char>| s == #[trigger] (p + b),
        ends(s, p) <==> exists|a: Seq<char>| s == #[trigger] (a + p),
{
    if occurs(s, p) {
        let i = choose|i: int| occurs_at(s, p, i);
        assert(s =~= s.take(i) + p + s.skip(i + p.len()));
    }
    if exists|a: Seq<char>, b: Seq<char>| s == #[trigger] (a + p + b) {
        let (a, b) = choose|a: Seq<char>, b: Seq<char>| s == #[trigger] (a + p + b);
        assert(s.subrange(a.len() as int, (a.len() + p.len()) as int) =~= p);
        assert(occurs_at(s, p, a.len() as int));
    }
    if begins(s, p) {
        assert(s =~= p + s.skip(p.len() as int));
    }
    if exists|b: Seq<char>| s == #[trigger] (p + b) {
        assert(s.take(p.len() as int) =~= p);
    }
    if ends(s, p) {
        assert(s =~= s.take(s.len() - p.len()) + p);
    }
    if exists|a: Seq<char>| s == #[trigger] (a + p) {
        assert(s.skip(s.len() - p.len()) =~= p);
    }
}

/// The first place of a character stands behind all that are not it; the last one before them.
pub proof fn law_first_and_last_place(a: Seq<char>, c: char, b: Seq<char>)
    ensures
        !a.contains(c) ==> first_of(a + seq![c] + b, c) == a.len(),
        !a.contains(c) ==> first_of(a, c) == a.len(),
        !b.contains(c) ==> last_of(a + seq![c] + b, c) == Some(a.len() as int),
        !a.contains(c) ==> last_of(a, c) is None,
{
    let s = a + seq![c] + b;
    let n = a.len() as int;
    assert(s[n] == c);
    if !a.contains(c) {
        assert forall|i: int| 0 <= i < n implies #[trigger] s[i] != c by {
            assert(s[i] == a[i]);
        }
        assert forall|i: int| 0 <= i < n implies #[trigger] a[i] != c by {}
        lemma_first_of_at(s, c, n);
        lemma_first_of_at(a, c, n);
        lemma_last_of(a, c);
    }
    if !b.contains(c) {
        assert forall|i: int| n < i < s.len() implies #[trigger] s[i] != c by {
            assert(s[i] == b[i - n - 1]);
        }
        lemma_last_of_at(s, c, n);
    }
}

/// A text is cut at every place of a character: a piece without it, then the pieces of the rest.
pub proof fn law_cutting_at_a_character(a: Seq<char>, c: char, b: Seq<char>)
    requires
        !a.contains(c),
    ensures
        split_on(a, c) == seq![a],
        split_on(a + seq![c] + b, c) == seq![a] + split_on(b, c),
{
    let s = a + seq![c] + b;
    law_first_and_last_place(a, c, b);
    assert(s.take(a.len() as int) =~= a);
    assert(s.skip((a.len() + 1) as int) =~= b);
}

proof fn lemma_word_len_at(s: Seq<char>, n: int)
    requires
        0 <= n <= s.len(),
        forall|i: int| 0 <= i < n ==> !is_space(#[trigger] s[i]),
        n < s.len() ==> is_space(s[n]),
    ensures
        word_len(s) == n,
    decreases n,
{
    if n > 0 {
        assert(!is_space(s[0]));
        let t = s.drop_first();
        assert forall|i: int| 0 <= i < n - 1 implies !is_space(#[trigger] t[i]) by {
            assert(t[i] == s[i + 1]);
        }
        lemma_word_len_at(t, n - 1);
    }
}

/// The words of a text are what whitespace parts: whitespace holds none, and a text that begins with
/// a word has that word first, then the words behind the whitespace that follows.
pub proof fn law_words(a: Seq<char>, w: Seq<char>, rest: Seq<char>)
    requires
        all_space(a),
        no_space(w),
        rest.len() > 0 ==> is_space(rest[0]),
    ensures
        words(a) == Seq::<Seq<char>>::empty(),
        w.len() > 0 ==> words(a + w + rest) == seq![w] + words(rest),
{
    lemma_trim_start_at(a, a.len() as int);
    assert(a.skip(a.len() as int) =~= seq![]);
    assert(words(a) =~= seq![]);
    if w.len() > 0 {
        let s = a + w + rest;
        let n = a.len() as int;
        assert forall|i: int| 0 <= i < n implies is_space(#[trigger] s[i]) by {
            assert(s[i] == a[i]);
        }
        assert(s[n] == w[0]);
        lemma_trim_start_at(s, n);
        let t = s.skip(n);
        let m = w.len() as int;
        assert(t =~= w + rest);
        assert forall|i: int| 0 <= i < m implies !is_space(#[trigger] t[i]) by {
            assert(t[i] == w[i]);
        }
        if m < t.len() {
            assert(t[m] == rest[0]);
        }
        lemma_word_len_at(t, m);
        assert(t.take(m) =~= w);
        assert(t.skip(m) =~= rest);
    }
}

/// Where a text begins with what is replaced, the new text stands first and the rest follows; where
/// it does not, its first character stays; and what does not occur is not replaced.
pub proof fn law_replacing(s: Seq<char>, from: Seq<char>, to: Seq<char>, c: char)
    requires
        from.len() > 0,
    ensures
        replaced(from + s, from, to) == to + replaced(s, from, to),
        !begins(seq![c] + s, from) ==> replaced(seq![c] + s, from, to) == seq![c] + replaced(
            s,
            from,
            to,
        ),
        !occurs(s, from) ==> replaced(s, from, to) == s,
{
    let x = from + s;
    assert(x.subrange(0, from.len() as int) =~= from);
    assert(occurs_at(x, from, 0));
    assert(x.skip(from.len() as int) =~= s);
    let y = seq![c] + s;
    assert(y.drop_first() =~= s);
    if occurs_at(y, from, 0) {
        assert(y.take(from.len() as int) =~= y.subrange(0, from.len() as int));
    }
    lemma_nothing_replaced(s, from, to);
}

proof fn lemma_nothing_replaced(s: Seq<char>, from: Seq<char>, to: Seq<char>)
    ensures
        !occurs(s, from) ==> replaced(s, from, to) == s,
    decreases s.len(),
{
    if !occurs(s, from) && s.len() > 0 {
        let t = s.drop_first();
        if occurs(t, from) {
            let i = choose|i: int| occurs_at(t, from, i);
            assert(s.subrange(i + 1, i + 1 + from.len()) =~= t.subrange(i, i + from.len()));
            assert(occurs_at(s, from, i + 1));
        }
        assert(!occurs_at(s, from, 0));
        lemma_nothing_replaced(t, from, to);
        assert(seq![s[0]] + t =~= s);
    }
}

/// A line ends with a line feed, before which a carriage return is dropped, or with the text; an
/// empty text has no lines.
pub proof fn law_lines_of_a_text(line: Seq<char>, rest: Seq<char>)
    requires
        !line.contains('\n'),
    ensures
        line.len() > 0 && line.last() != '\r' || line.len() == 0 ==> lines_of(
            line + seq!['\n'] + rest,
        ) == seq![line] + lines_of(rest),
        lines_of(line + seq!['\r', '\n'] + rest) == seq![line] + lines_of(rest),
        line.len() > 0 ==> lines_of(line) == seq![line],
        lines_of(seq![]) == Seq::<Seq<char>>::empty(),
{
    let s = line + seq!['\n'] + rest;
    law_first_and_last_place(line, '\n', rest);
    assert(s.take(line.len() as int) =~= line);
    assert(s.skip((line.len() + 1) as int) =~= rest);
    let long = line + seq!['\r'];
    let t = line + seq!['\r', '\n'] + rest;
    assert(t =~= long + seq!['\n'] + rest);
    assert(!long.contains('\n')) by {
        if long.contains('\n') {
            let i = choose|i: int| 0 <= i < long.len() && long[i] == '\n';
            if i < line.len() {
                assert(line[i] == '\n');
            }
        }
    }
    law_first_and_last_place(long, '\n', rest);
    assert(t.take(long.len() as int) =~= long);
    assert(t.skip((long.len() + 1) as int) =~= rest);
    assert(long.drop_last() =~= line);
    assert(lines_of(seq![]) =~= seq![]);
}

/// Digits stand for numbers as people write them: one more digit behind them makes ten times the
/// number and that digit.
pub proof fn law_digits_stand_for_numbers(s: Seq<char>, c: char)
    ensures
        digits_value(seq![]) == 0,
        '0' <= c <= '9' ==> digits_value(s.push(c)) == 10 * digits_value(s) + (c as int - 48),
        all_digits(s) <==> forall|i: int|
            0 <= i < s.len() ==> 48 <= (#[trigger] s[i]) as int <= 57,
{
    assert(s.push(c).drop_last() =~= s);
    if all_digits(s) {
        assert forall|i: int| 0 <= i < s.len() implies 48 <= (#[trigger] s[i]) as int <= 57 by {
            assert(is_digit(s[i]));
        }
    }
    if forall|i: int| 0 <= i < s.len() ==> 48 <= (#[trigger] s[i]) as int <= 57 {
        assert forall|i: int| 0 <= i < s.len() implies is_digit(#[trigger] s[i]) by {}
    }
}

/// A number in decimal is digits that stand for it, without a zero before others; a negative number
/// has a `-` before them.
pub proof fn law_numbers_in_decimal(n: nat)
    ensures
        decimal(n).len() > 0,
        all_digits(decimal(n)),
        digits_value(decimal(n)) == n,
        decimal(n).len() > 1 ==> decimal(n)[0] != '0',
        decimal_int(n as int) == decimal(n),
        n > 0 ==> decimal_int(-(n as int)) == "-"@ + decimal(n),
{
    reveal_strlit("-");
    lemma_decimal(n);
    lemma_no_leading_zero(n);
    assert(seq!['-'] =~= "-"@);
}

proof fn lemma_no_leading_zero(n: nat)
    ensures
        n > 0 ==> decimal(n)[0] != '0',
    decreases n,
{
    if n >= 10 {
        lemma_no_leading_zero(n / 10);
        lemma_decimal(n / 10);
        assert(decimal(n)[0] == decimal(n / 10)[0]);
    }
}

/// Digits are read as the number that they stand for, with or without a `+` before them, up to the
/// greatest number that is allowed; anything else is no number.
pub proof fn law_reading_numbers(d: Seq<char>, max: nat, s: Seq<char>)
    ensures
        d.len() > 0 && all_digits(d) && digits_value(d) <= max ==> unsigned_of(d, max) == Some(
            digits_value(d),
        ) && unsigned_of("+"@ + d, max) == Some(digits_value(d)),
        d.len() > 0 && all_digits(d) && digits_value(d) > max ==> unsigned_of(d, max) is None
            && unsigned_of("+"@ + d, max) is None,
        unsigned_of(s, max) is Some ==> exists|t: Seq<char>|
            t.len() > 0 && #[trigger] all_digits(t) && (s == t || s == "+"@ + t),
{
    reveal_strlit("+");
    let p = "+"@ + d;
    assert(p.drop_first() =~= d);
    if d.len() > 0 && all_digits(d) {
        assert(is_digit(d[0]));
    }
    if unsigned_of(s, max) is Some {
        if s.len() > 0 && s[0] == '+' {
            let t = s.drop_first();
            assert(s =~= "+"@ + t);
            assert(all_digits(t));
        } else {
            assert(all_digits(s));
        }
    }
}

/// Control characters are those up to 31, and 127.
pub proof fn law_control_characters(s: Seq<char>)
    ensures
        has_control(s) <==> exists|i: int|
            0 <= i < s.len() && ((#[trigger] s[i]) as int <= 31 || s[i] as int == 127),
{
}

} // verus!
