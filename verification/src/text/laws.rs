//! What holds of splitting, joining, replacing and rendering, for every text.

use super::edit::{
    decimal, digit, find, lemma_find, lemma_find_none, lines, lines_from, lower, lowercase, parts,
    parts_from, replace, without_cr,
};
use super::{is_control, is_whitespace, lemma_word_end, spans_from, word_end, words};
use vstd::prelude::*;

verus! {

// -------------------------------------------------------------------------- characters

/// White space are the tab, the line ends, the spaces of every width and the separators of
/// lines and paragraphs.
pub proof fn law_white_space(c: char)
    ensures
        is_whitespace(c) <==> c == ' ' || '\t' <= c <= '\r' || c == '\u{85}' || c == '\u{a0}' || c
            == '\u{1680}' || '\u{2000}' <= c <= '\u{200a}' || c == '\u{2028}' || c == '\u{2029}'
            || c == '\u{202f}' || c == '\u{205f}' || c == '\u{3000}',
{
}

/// Control characters are those before the space, and those from the delete sign up to the
/// space that does not break.
pub proof fn law_control(c: char)
    ensures
        is_control(c) <==> c < ' ' || '\u{7f}' <= c < '\u{a0}',
{
}

/// Lower-casing changes the ASCII capitals only, each to the letter of the same place in
/// the alphabet, and leaves nothing to change.
pub proof fn law_lowercase(s: Seq<char>, i: int)
    requires
        0 <= i < s.len(),
    ensures
        lowercase(s).len() == s.len(),
        'A' <= s[i] <= 'Z' ==> lowercase(s)[i] as u32 - 'a' as u32 == s[i] as u32 - 'A' as u32,
        !('A' <= s[i] <= 'Z') ==> lowercase(s)[i] == s[i],
        lowercase(lowercase(s)) == lowercase(s),
{
    assert forall|c: char| lower(#[trigger] lower(c)) == lower(c) by {
        lemma_lower(c);
    }
    lemma_lower(s[i]);
    assert(lowercase(lowercase(s)) =~= lowercase(s));
}

/// A capital becomes a small letter.
proof fn lemma_lower(c: char)
    ensures
        'A' <= c <= 'Z' ==> 'a' <= lower(c) <= 'z' && lower(c) as u32 == c as u32 + 32,
{
}

// ------------------------------------------------------------------------------- words

/// The words of `s` from `i` on.
spec fn words_from(s: Seq<char>, i: int) -> Seq<Seq<char>> {
    Seq::new(
        spans_from(s, i).len(),
        |k: int| s.subrange(spans_from(s, i)[k].0, spans_from(s, i)[k].1),
    )
}

/// The words of a part that white space ends, and then those behind it.
proof fn lemma_words_split(s: Seq<char>, e: int, i: int)
    requires
        0 <= i <= e < s.len(),
        is_whitespace(s[e]),
    ensures
        words_from(s, i) == words_from(s.take(e), i) + words_from(s, e + 1),
    decreases e - i,
{
    let t = s.take(e);
    if i < e {
        assert(t[i] == s[i]);
        if is_whitespace(s[i]) {
            lemma_words_split(s, e, i + 1);
            assert(words_from(s, i) =~= words_from(s, i + 1));
            assert(words_from(t, i) =~= words_from(t, i + 1));
        } else {
            lemma_word_end(s, i);
            lemma_word_end(t, i);
            let a = word_end(s, i);
            let b = word_end(t, i);
            if a < b {
                assert(t[a] == s[a]);
            }
            if b < a {
                assert(b < e ==> t[b] == s[b]);
            }
            assert(a == b);
            lemma_words_split(s, e, a);
            assert(s.subrange(i, a) =~= t.subrange(i, a));
            assert(words_from(s, i) =~= seq![s.subrange(i, a)] + words_from(s, a));
            assert(words_from(t, i) =~= seq![t.subrange(i, a)] + words_from(t, a));
            assert(words_from(s, i) =~= words_from(t, i) + words_from(s, e + 1));
        }
    } else {
        assert(spans_from(s, e) == spans_from(s, e + 1));
        assert(words_from(t, e) =~= Seq::empty());
        assert(words_from(s, e) =~= words_from(t, e) + words_from(s, e + 1));
    }
}

/// The words of a text behind others.
proof fn lemma_words_behind(s: Seq<char>, n: int, i: int)
    requires
        0 <= n <= i <= s.len(),
    ensures
        words_from(s.skip(n), i - n) == words_from(s, i),
        word_end(s.skip(n), i - n) == word_end(s, i) - n,
    decreases s.len() - i,
{
    let t = s.skip(n);
    if i < s.len() {
        assert(t[i - n] == s[i]);
        lemma_words_behind(s, n, i + 1);
        if is_whitespace(s[i]) {
            assert(words_from(t, i - n) =~= words_from(t, i + 1 - n));
            assert(words_from(s, i) =~= words_from(s, i + 1));
        } else {
            lemma_word_end(s, i);
            let e = word_end(s, i);
            lemma_words_behind(s, n, e);
            assert(t.subrange(i - n, e - n) =~= s.subrange(i, e));
            assert(words_from(t, i - n) =~= seq![t.subrange(i - n, e - n)] + words_from(t, e - n));
            assert(words_from(s, i) =~= seq![s.subrange(i, e)] + words_from(s, e));
        }
    } else {
        assert(words_from(t, i - n) =~= words_from(s, i));
    }
}

/// White space comes between words, and nothing else does: what stands on its two sides has
/// words of its own, and a text without any white space is one word.
pub proof fn law_white_space_separates_words(a: Seq<char>, c: char, b: Seq<char>)
    requires
        is_whitespace(c),
    ensures
        words(a + seq![c] + b) == words(a) + words(b),
        words(Seq::empty()) == Seq::<Seq<char>>::empty(),
        a.len() > 0 && (forall|k: int| 0 <= k < a.len() ==> !is_whitespace(#[trigger] a[k]))
            ==> words(a) == seq![a],
{
    let s = a + seq![c] + b;
    let e = a.len() as int;
    assert(s[e] == c);
    assert(s.take(e) =~= a);
    assert(s.skip(e + 1) =~= b);
    lemma_words_split(s, e, 0);
    lemma_words_behind(s, e + 1, e + 1);
    assert(words_from(s, 0) =~= words(s));
    assert(words_from(a, 0) =~= words(a));
    assert(words_from(b, 0) =~= words(b));
    assert(words(Seq::empty()) =~= Seq::<Seq<char>>::empty());
    if a.len() > 0 && (forall|k: int| 0 <= k < a.len() ==> !is_whitespace(#[trigger] a[k])) {
        lemma_word_end(a, 0);
        assert(word_end(a, 0) == e);
        assert(spans_from(a, e) =~= Seq::empty());
        assert(spans_from(a, 0) =~= seq![(0int, e)]);
        assert(a.subrange(0, e) =~= a);
        assert(words(a) =~= seq![a]);
    }
}

// ------------------------------------------------------------------------------- parts

/// The parts of a text with a separator are those before it and those behind it.
proof fn lemma_parts_split(s: Seq<char>, c: char, e: int, i: int)
    requires
        0 <= i <= e < s.len(),
        s[e] == c,
    ensures
        parts_from(s, c, i) == parts_from(s.take(e), c, i) + parts_from(s, c, e + 1),
    decreases e - i,
{
    let t = s.take(e);
    lemma_find(s, c, i);
    lemma_find(t, c, i);
    let a = find(s, c, i);
    let b = find(t, c, i);
    if a < b {
        assert(t[a] == s[a]);
    }
    if b < a && b < e {
        assert(t[b] == s[b]);
    }
    assert(a == b);
    if a < e {
        lemma_parts_split(s, c, e, a + 1);
        assert(s.subrange(i, a) =~= t.subrange(i, a));
        assert(parts_from(s, c, i) =~= parts_from(t, c, i) + parts_from(s, c, e + 1));
    } else {
        assert(s.subrange(i, a) =~= t.subrange(i, t.len() as int));
        assert(parts_from(s, c, i) =~= parts_from(t, c, i) + parts_from(s, c, e + 1));
    }
}

/// The parts of a text behind others.
proof fn lemma_parts_behind(s: Seq<char>, c: char, n: int, i: int)
    requires
        0 <= n <= i <= s.len(),
    ensures
        parts_from(s.skip(n), c, i - n) == parts_from(s, c, i),
        find(s.skip(n), c, i - n) == find(s, c, i) - n,
    decreases s.len() - i,
{
    let t = s.skip(n);
    if i < s.len() {
        assert(t[i - n] == s[i]);
        lemma_parts_behind(s, c, n, i + 1);
    }
    lemma_find(s, c, i);
    let e = find(s, c, i);
    if e < s.len() {
        lemma_parts_behind(s, c, n, e + 1);
        assert(t.subrange(i - n, e - n) =~= s.subrange(i, e));
    } else {
        assert(t.subrange(i - n, t.len() as int) =~= s.subrange(i, s.len() as int));
    }
}

/// A separator comes between parts, and nothing else does: what stands on its two sides has
/// parts of its own, and a text without the separator is one part.
pub proof fn law_a_separator_separates_parts(a: Seq<char>, c: char, b: Seq<char>)
    ensures
        parts(a + seq![c] + b, c) == parts(a, c) + parts(b, c),
        (forall|k: int| 0 <= k < a.len() ==> #[trigger] a[k] != c) ==> parts(a, c) == seq![a],
{
    let s = a + seq![c] + b;
    let e = a.len() as int;
    assert(s[e] == c);
    assert(s.take(e) =~= a);
    assert(s.skip(e + 1) =~= b);
    lemma_parts_split(s, c, e, 0);
    lemma_parts_behind(s, c, e + 1, e + 1);
    if forall|k: int| 0 <= k < a.len() ==> #[trigger] a[k] != c {
        lemma_find_none(a, c, 0);
        assert(a.subrange(0, e) =~= a);
        assert(parts(a, c) =~= seq![a]);
    }
}

// ------------------------------------------------------------------------------- lines

/// The lines of a text behind others.
proof fn lemma_lines_behind(s: Seq<char>, n: int, i: int)
    requires
        0 <= n <= i <= s.len(),
    ensures
        lines_from(s.skip(n), i - n) == lines_from(s, i),
    decreases s.len() - i,
{
    let t = s.skip(n);
    if i < s.len() {
        lemma_parts_behind(s, '\n', n, i);
        lemma_find(s, '\n', i);
        let e = find(s, '\n', i);
        if e < s.len() {
            lemma_lines_behind(s, n, e + 1);
            assert(t.subrange(i - n, e - n) =~= s.subrange(i, e));
        } else {
            assert(t.subrange(i - n, t.len() as int) =~= s.subrange(i, s.len() as int));
        }
    }
}

/// A line ends with a line feed, or with a carriage return and a line feed, neither of
/// which belongs to it, and the last one may end with the text.
pub proof fn law_line_feeds_end_lines(line: Seq<char>, rest: Seq<char>)
    requires
        forall|k: int| 0 <= k < line.len() ==> #[trigger] line[k] != '\n' && line[k] != '\r',
    ensures
        lines(line + seq!['\n'] + rest) == seq![line] + lines(rest),
        lines(line + seq!['\r', '\n'] + rest) == seq![line] + lines(rest),
        line.len() > 0 ==> lines(line) == seq![line],
        lines(Seq::empty()) == Seq::<Seq<char>>::empty(),
{
    let n = line.len() as int;
    let s = line + seq!['\n'] + rest;
    lemma_find(s, '\n', 0);
    assert(s[n] == '\n');
    assert forall|k: int| 0 <= k < n implies #[trigger] s[k] != '\n' by {
        assert(line[k] != '\n');
    }
    assert(find(s, '\n', 0) == n);
    assert(s.subrange(0, n) =~= line);
    assert(s.skip(n + 1) =~= rest);
    lemma_lines_behind(s, n + 1, n + 1);
    assert(without_cr(line) == line);
    let t = line + seq!['\r', '\n'] + rest;
    lemma_find(t, '\n', 0);
    assert(t[n + 1] == '\n');
    assert(t[n] == '\r');
    assert forall|k: int| 0 <= k < n + 1 implies #[trigger] t[k] != '\n' by {
        if k < n {
            assert(line[k] != '\n');
        }
    }
    assert(find(t, '\n', 0) == n + 1);
    assert(without_cr(t.subrange(0, n + 1)) =~= line);
    assert(t.skip(n + 2) =~= rest);
    lemma_lines_behind(t, n + 2, n + 2);
    if n > 0 {
        lemma_find_none(line, '\n', 0);
        assert(line.subrange(0, n) =~= line);
        assert(lines(line) =~= seq![line]);
    }
}

// --------------------------------------------------------------------------- replacing

/// Replacing changes what is looked for, and nothing else: a text that holds nothing of it
/// stays, and where it stands, what is put in comes in its place, and the rest is searched
/// in its turn.
pub proof fn law_replacing_puts_in(a: Seq<char>, pat: Seq<char>, with: Seq<char>, b: Seq<char>)
    requires
        pat.len() > 0,
        forall|k: int| 0 <= k < a.len() ==> #[trigger] a[k] != pat[0],
    ensures
        replace(a, pat, with) == a,
        replace(a + pat + b, pat, with) == a + with + replace(b, pat, with),
    decreases a.len(),
{
    let s = a + pat + b;
    if a.len() == 0 {
        assert(s =~= pat + b);
        assert(s.take(pat.len() as int) =~= pat);
        assert(s.subrange(0, pat.len() as int) =~= pat);
        assert(s.skip(pat.len() as int) =~= b);
        assert(replace(s, pat, with) =~= a + with + replace(b, pat, with));
        assert(replace(a, pat, with) =~= a);
    } else {
        let rest = a.skip(1);
        assert forall|k: int| 0 <= k < rest.len() implies #[trigger] rest[k] != pat[0] by {
            assert(rest[k] == a[k + 1]);
        }
        law_replacing_puts_in(rest, pat, with, b);
        assert(a[0] != pat[0]);
        assert(s[0] == a[0]);
        assert(s.skip(1) =~= rest + pat + b);
        assert(!pat.is_prefix_of(s)) by {
            if pat.is_prefix_of(s) {
                assert(s.subrange(0, pat.len() as int)[0] == pat[0]);
            }
        }
        assert(!pat.is_prefix_of(a)) by {
            if pat.is_prefix_of(a) {
                assert(a.subrange(0, pat.len() as int)[0] == pat[0]);
            }
        }
        assert(replace(s, pat, with) =~= a + with + replace(b, pat, with));
        assert(replace(a, pat, with) =~= a);
    }
}

// ----------------------------------------------------------------------------- numbers

/// The number that is written in decimal as `s`.
pub open spec fn number_of(s: Seq<char>) -> int
    decreases s.len(),
{
    if s.len() == 0 {
        0
    } else {
        10 * number_of(s.drop_last()) + (s.last() as u32 - '0' as u32)
    }
}

/// A number in decimal can be read again: it holds digits only, no zero in front, and its
/// value is the number.
pub proof fn law_decimal(n: nat)
    ensures
        number_of(decimal(n)) == n,
        decimal(n).len() > 0,
        forall|k: int| 0 <= k < decimal(n).len() ==> '0' <= #[trigger] decimal(n)[k] <= '9',
        n > 0 ==> decimal(n)[0] != '0',
    decreases n,
{
    assert forall|d: nat| d < 10 implies '0' <= #[trigger] digit(d) <= '9' && digit(d) as u32
        - '0' as u32 == d && (d > 0 ==> digit(d) != '0') by {
        lemma_digit(d);
    }
    if n < 10 {
        reveal_with_fuel(number_of, 2);
        assert(decimal(n).drop_last() =~= Seq::empty());
        lemma_digit(n);
    } else {
        law_decimal(n / 10);
        lemma_digit(n % 10);
        assert(decimal(n).drop_last() =~= decimal(n / 10));
    }
}

/// The digits of the numbers up to nine.
proof fn lemma_digit(d: nat)
    requires
        d < 10,
    ensures
        '0' <= digit(d) <= '9',
        digit(d) as u32 - '0' as u32 == d,
        d > 0 ==> digit(d) != '0',
{
}

} // verus!
