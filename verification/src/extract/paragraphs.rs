//! Grouping the lines of a page into paragraphs.
//!
//! An empty line ends a paragraph. A line that ends in a hyphen is joined to the next one
//! without a space. A line that ends in closing punctuation, or that is short beside the
//! others of the page, ends a paragraph. Other lines are joined with a space.

use crate::text::{
    chars_of, collapse, collapse_spaces, concat, is_whitespace, join, lemma_concat_add,
    lemma_concat_front, lemma_rows_push, lemma_solid_add, lemma_spans, push_chars, rows, solid,
    spans_from, strings_of, strs, words,
};
use vstd::prelude::*;

verus! {

/// Whether a line that ends in `c` ends a paragraph.
pub open spec fn is_closer(c: char) -> bool {
    ||| c == '.'
    ||| c == '!'
    ||| c == '?'
    ||| c == ':'
    ||| c == ';'
    ||| c == '»'
    ||| c == '"'
    ||| c == '”'
    ||| c == ')'
    ||| c == '…'
}

/// Decides [`is_closer`].
fn char_is_closer(c: char) -> (r: bool)
    ensures
        r == is_closer(c),
{
    c == '.' || c == '!' || c == '?' || c == ':' || c == ';' || c == '»' || c == '"' || c == '”'
        || c == ')' || c == '…'
}

/// The lines `v` with one space between words.
pub open spec fn cleaned(v: Seq<Seq<char>>) -> Seq<Seq<char>> {
    Seq::new(v.len(), |i: int| collapse(v[i]))
}

// ------------------------------------------------------------------------- short lines

/// The lengths of the lines `v` that are not empty.
pub open spec fn lengths(v: Seq<Seq<char>>) -> Seq<usize>
    decreases v.len(),
{
    if v.len() == 0 {
        Seq::empty()
    } else if v.last().len() == 0 {
        lengths(v.drop_last())
    } else {
        lengths(v.drop_last()).push(v.last().len() as usize)
    }
}

/// The order of lengths.
pub open spec fn up() -> spec_fn(usize, usize) -> bool {
    |a: usize, b: usize| a <= b
}

/// The median of `v`: the middle one in order, and of two the higher.
pub open spec fn median(v: Seq<usize>) -> usize {
    v.sort_by(up())[v.len() as int / 2]
}

/// Lines with fewer characters than this are short: six tenths of the median length of
/// the lines that are not empty, rounded, but at least 25 and at most 50.
pub open spec fn short_limit(v: Seq<Seq<char>>) -> int {
    let lens = lengths(v);
    if lens.len() == 0 {
        40
    } else {
        let n = (6 * median(lens) + 5) / 10;
        if n < 25 {
            25
        } else if n > 50 {
            50
        } else {
            n
        }
    }
}

/// Puts `x` in its place among the sorted numbers `v`.
fn insert_up(v: &mut Vec<usize>, x: usize)
    requires
        forall|i: int, j: int| 0 <= i < j < old(v)@.len() ==> old(v)@[i] <= old(v)@[j],
    ensures
        forall|i: int, j: int| 0 <= i < j < final(v)@.len() ==> final(v)@[i] <= final(v)@[j],
        final(v)@.to_multiset() == old(v)@.to_multiset().insert(x),
{
    let ghost before = v@;
    let mut i: usize = 0;
    while i < v.len() && v[i] <= x
        invariant
            0 <= i <= v@.len(),
            before == v@,
            forall|k: int| 0 <= k < i ==> #[trigger] v@[k] <= x,
        decreases v@.len() - i,
    {
        i = i + 1;
    }
    v.insert(i, x);
    proof {
        before.insert_ensures(i as int, x);
        broadcast use vstd::seq_lib::group_to_multiset_ensures;

        assert(v@.remove(i as int) =~= before);
    }
}

/// The numbers `v` in order.
fn sort_up(v: &Vec<usize>) -> (r: Vec<usize>)
    ensures
        r@ == v@.sort_by(up()),
        r@.len() == v@.len(),
{
    let mut out: Vec<usize> = Vec::new();
    let mut i: usize = 0;
    assert(out@ =~= v@.take(0));
    while i < v.len()
        invariant
            0 <= i <= v@.len(),
            forall|a: int, b: int| 0 <= a < b < out@.len() ==> out@[a] <= out@[b],
            out@.to_multiset() =~= v@.take(i as int).to_multiset(),
        decreases v@.len() - i,
    {
        proof {
            assert(v@.take(i + 1) =~= v@.take(i as int).push(v@[i as int]));
            broadcast use vstd::seq_lib::group_to_multiset_ensures;

        }
        insert_up(&mut out, v[i]);
        i = i + 1;
    }
    proof {
        assert(v@.take(i as int) =~= v@);
        v@.lemma_sort_by_ensures(up());
        let s = v@.sort_by(up());
        assert(vstd::relations::sorted_by(out@, up()));
        vstd::seq_lib::lemma_sorted_unique(out@, s, up());
        broadcast use vstd::seq_lib::group_to_multiset_ensures;

        assert(out@.len() == out@.to_multiset().len());
        assert(v@.len() == v@.to_multiset().len());
    }
    out
}

/// Lines with fewer characters than this are short.
fn short_threshold(lines: &Vec<Vec<char>>) -> (r: usize)
    ensures
        r == short_limit(rows(lines@)),
{
    let mut lens: Vec<usize> = Vec::new();
    let mut i: usize = 0;
    while i < lines.len()
        invariant
            0 <= i <= lines@.len(),
            lens@ =~= lengths(rows(lines@).take(i as int)),
        decreases lines@.len() - i,
    {
        let ghost next = rows(lines@).take(i + 1);
        assert(next.drop_last() =~= rows(lines@).take(i as int));
        assert(next.last() == lines@[i as int]@);
        let n: usize = lines[i].len();
        if n > 0 {
            lens.push(n);
        }
        i = i + 1;
    }
    assert(rows(lines@).take(i as int) =~= rows(lines@));
    if lens.len() == 0 {
        return 40;
    }
    let sorted: Vec<usize> = sort_up(&lens);
    let m: usize = sorted[sorted.len() / 2];
    if m >= 84 {
        return 50;
    }
    let n: usize = (6 * m + 5) / 10;
    if n < 25 {
        25
    } else if n > 50 {
        50
    } else {
        n
    }
}

// -------------------------------------------------------------------------- paragraphs

/// Whether a line that ends like `s` was broken within a word.
pub open spec fn hyphenated(s: Seq<char>) -> bool {
    s.len() > 0 && s.last() == '-' && !(s.len() > 1 && s[s.len() - 2] == ' ')
}

/// The lines `v` as one text: with a space between them, or without one and without
/// the hyphen where a line was broken within a word.
pub open spec fn mended(v: Seq<Seq<char>>) -> Seq<char>
    decreases v.len(),
{
    if v.len() == 0 {
        Seq::empty()
    } else if v.len() == 1 {
        v[0]
    } else {
        let before = mended(v.drop_last());
        if hyphenated(before) {
            before.drop_last() + v.last()
        } else {
            before.push(' ') + v.last()
        }
    }
}

/// Whether `line`, which the paragraph `text` goes up to, ends it: with closing
/// punctuation, or by being short, unless it was broken within a word.
pub open spec fn closes(text: Seq<char>, line: Seq<char>, limit: int) -> bool {
    is_closer(line.last()) || line.len() < limit && !hyphenated(text)
}

/// Where the paragraph that starts with line `start` and goes up to line `i` ends: behind
/// the first line that ends it, before an empty line, or with the page.
pub open spec fn paragraph_end(lines: Seq<Seq<char>>, limit: int, start: int, i: int) -> int
    decreases lines.len() - i,
{
    if 0 <= start <= i && i + 1 < lines.len() && !closes(
        mended(lines.subrange(start, i + 1)),
        lines[i],
        limit,
    ) && lines[i + 1].len() > 0 {
        paragraph_end(lines, limit, start, i + 1)
    } else {
        i + 1
    }
}

/// A paragraph has at least one line, and holds no empty one.
pub proof fn lemma_paragraph_end(lines: Seq<Seq<char>>, limit: int, start: int, i: int)
    requires
        0 <= start <= i < lines.len(),
    ensures
        i < paragraph_end(lines, limit, start, i) <= lines.len(),
        forall|k: int|
            i < k < paragraph_end(lines, limit, start, i) ==> (#[trigger] lines[k]).len() > 0,
    decreases lines.len() - i,
{
    if i + 1 < lines.len() && !closes(mended(lines.subrange(start, i + 1)), lines[i], limit)
        && lines[i + 1].len() > 0 {
        lemma_paragraph_end(lines, limit, start, i + 1);
    }
}

/// The paragraphs of `lines` from line `i` on.
pub open spec fn paragraphs_from(lines: Seq<Seq<char>>, limit: int, i: int) -> Seq<Seq<char>>
    decreases lines.len() - i,
{
    if 0 <= i < lines.len() {
        if lines[i].len() == 0 {
            paragraphs_from(lines, limit, i + 1)
        } else {
            proof {
                lemma_paragraph_end(lines, limit, i, i);
            }
            let e = paragraph_end(lines, limit, i, i);
            seq![mended(lines.subrange(i, e))] + paragraphs_from(lines, limit, e)
        }
    } else {
        Seq::empty()
    }
}

/// The paragraphs of a page with these lines.
pub open spec fn paragraphs(lines: Seq<Seq<char>>) -> Seq<Seq<char>> {
    let v = cleaned(lines);
    paragraphs_from(v, short_limit(v), 0)
}

/// Whether a line that ends like `s` was broken within a word.
fn is_hyphenated(s: &[char]) -> (r: bool)
    ensures
        r == hyphenated(s@),
{
    let n: usize = s.len();
    n > 0 && s[n - 1] == '-' && !(n > 1 && s[n - 2] == ' ')
}

/// Appends `line` to the text `acc` of the lines before it.
fn mend(acc: &mut Vec<char>, line: &[char])
    ensures
        final(acc)@ == if hyphenated(old(acc)@) {
            old(acc)@.drop_last() + line@
        } else {
            old(acc)@.push(' ') + line@
        },
{
    if is_hyphenated(acc.as_slice()) {
        let _hyphen: Option<char> = acc.pop();
    } else {
        acc.push(' ');
    }
    push_chars(acc, line);
}

/// Whether `line`, which the paragraph `text` goes up to, ends it.
fn line_closes(text: &[char], line: &[char], limit: usize) -> (r: bool)
    requires
        line@.len() > 0,
    ensures
        r == closes(text@, line@, limit as int),
{
    char_is_closer(line[line.len() - 1]) || (line.len() < limit && !is_hyphenated(text))
}

/// Groups lines into paragraphs.
pub(crate) fn group_rows(lines: &Vec<Vec<char>>) -> (r: Vec<Vec<char>>)
    ensures
        rows(r@) == paragraphs(rows(lines@)),
{
    let mut v: Vec<Vec<char>> = Vec::new();
    let mut i: usize = 0;
    while i < lines.len()
        invariant
            0 <= i <= lines@.len(),
            rows(v@) =~= cleaned(rows(lines@)).take(i as int),
        decreases lines@.len() - i,
    {
        let t: Vec<char> = collapse_spaces(lines[i].as_slice());
        assert(rows(lines@)[i as int] == lines@[i as int]@);
        proof {
            lemma_rows_push(v@, t);
        }
        v.push(t);
        i = i + 1;
    }
    let ghost all = cleaned(rows(lines@));
    assert(rows(v@) =~= all);
    let limit: usize = short_threshold(&v);
    let mut out: Vec<Vec<char>> = Vec::new();
    let mut i: usize = 0;
    while i < v.len()
        invariant
            0 <= i <= v@.len(),
            rows(v@) == all,
            rows(out@) + paragraphs_from(all, limit as int, i as int) =~= paragraphs_from(
                all,
                limit as int,
                0,
            ),
        decreases v@.len() - i,
    {
        assert(all[i as int] == v@[i as int]@);
        if v[i].len() == 0 {
            i = i + 1;
        } else {
            let mut acc: Vec<char> = Vec::new();
            push_chars(&mut acc, v[i].as_slice());
            let mut e: usize = i + 1;
            assert(all.subrange(i as int, e as int) =~= seq![all[i as int]]);
            while e < v.len() && !line_closes(acc.as_slice(), v[e - 1].as_slice(), limit)
                && v[e].len() > 0
                invariant
                    0 <= i < e <= v@.len(),
                    rows(v@) == all,
                    all[i as int].len() > 0,
                    forall|k: int| i <= k < e ==> (#[trigger] all[k]).len() > 0,
                    forall|k: int| 0 <= k < v@.len() ==> (#[trigger] all[k]) == v@[k]@,
                    acc@ == mended(all.subrange(i as int, e as int)),
                    paragraph_end(all, limit as int, i as int, e - 1) == paragraph_end(
                        all,
                        limit as int,
                        i as int,
                        i as int,
                    ),
                decreases v@.len() - e,
            {
                let ghost run = all.subrange(i as int, e + 1);
                assert(all[e as int] == v@[e as int]@);
                assert(all[e - 1] == v@[e - 1]@);
                assert(run.drop_last() =~= all.subrange(i as int, e as int));
                assert(run.last() == all[e as int]);
                mend(&mut acc, v[e].as_slice());
                e = e + 1;
            }
            proof {
                assert(all[e - 1] == v@[e - 1]@);
                lemma_rows_push(out@, acc);
                if e < v@.len() {
                    assert(all[e as int] == v@[e as int]@);
                }
            }
            out.push(acc);
            i = e;
        }
    }
    out
}

/// The contents of a list of texts.
pub open spec fn texts(v: Seq<&str>) -> Seq<Seq<char>> {
    Seq::new(v.len(), |i: int| v[i]@)
}

/// Groups the lines of a page into paragraphs.
pub fn group_lines(lines: &[&str]) -> (r: Vec<String>)
    ensures
        strs(r@) == paragraphs(texts(lines@)),
{
    let mut v: Vec<Vec<char>> = Vec::new();
    let mut i: usize = 0;
    while i < lines.len()
        invariant
            0 <= i <= lines@.len(),
            rows(v@) =~= texts(lines@).take(i as int),
        decreases lines@.len() - i,
    {
        let t: Vec<char> = chars_of(lines[i]);
        proof {
            lemma_rows_push(v@, t);
        }
        v.push(t);
        i = i + 1;
    }
    assert(rows(v@) =~= texts(lines@));
    strings_of(&group_rows(&v))
}

// ------------------------------------------------------------------------------- laws

/// Whether `s` is not empty and neither begins nor ends with white space.
pub open spec fn tight(s: Seq<char>) -> bool {
    s.len() > 0 && !is_whitespace(s[0]) && !is_whitespace(s.last())
}

/// Words with a space between them make a tight text.
proof fn lemma_join_tight(ws: Seq<Seq<char>>)
    requires
        ws.len() > 0,
        forall|k: int| 0 <= k < ws.len() ==> tight(#[trigger] ws[k]),
    ensures
        tight(join(ws, seq![' '])),
    decreases ws.len(),
{
    if ws.len() > 1 {
        let init = ws.drop_last();
        assert forall|k: int| 0 <= k < init.len() implies tight(#[trigger] init[k]) by {
            assert(init[k] == ws[k]);
        }
        lemma_join_tight(init);
        let s = join(init, seq![' ']);
        let t = join(ws, seq![' ']);
        assert(tight(ws[ws.len() - 1]));
        assert(t[0] == s[0]);
        assert(t.last() == ws.last().last());
    }
}

/// A line without superfluous spaces is empty or tight.
proof fn lemma_collapse_tight(s: Seq<char>)
    ensures
        collapse(s).len() > 0 ==> tight(collapse(s)),
{
    let ws = words(s);
    if ws.len() > 0 {
        lemma_spans(s, 0);
        assert forall|k: int| 0 <= k < ws.len() implies tight(#[trigger] ws[k]) by {
            let sp = spans_from(s, 0)[k];
            crate::text::lemma_word_end(s, sp.0);
            assert(ws[k][0] == s[sp.0]);
            assert(ws[k].last() == s[sp.1 - 1]);
        }
        lemma_join_tight(ws);
    }
}

/// Tight lines are mended to a tight text.
proof fn lemma_mended_tight(v: Seq<Seq<char>>)
    requires
        v.len() > 0,
        forall|k: int| 0 <= k < v.len() ==> tight(#[trigger] v[k]),
    ensures
        tight(mended(v)),
    decreases v.len(),
{
    if v.len() > 1 {
        let init = v.drop_last();
        assert forall|k: int| 0 <= k < init.len() implies tight(#[trigger] init[k]) by {
            assert(init[k] == v[k]);
        }
        lemma_mended_tight(init);
        let before = mended(init);
        let all = mended(v);
        assert(tight(v[v.len() - 1]));
        assert(all.last() == v.last().last());
        if hyphenated(before) {
            if before.len() == 1 {
                assert(all =~= v.last());
            } else {
                assert(all[0] == before[0]);
            }
        } else {
            assert(all[0] == before[0]);
        }
    }
}

/// The paragraphs from line `i` on are tight.
proof fn lemma_paragraphs_tight(lines: Seq<Seq<char>>, limit: int, i: int)
    requires
        0 <= i <= lines.len(),
        forall|k: int|
            0 <= k < lines.len() && (#[trigger] lines[k]).len() > 0 ==> tight(lines[k]),
    ensures
        forall|k: int|
            0 <= k < paragraphs_from(lines, limit, i).len() ==> tight(
                #[trigger] paragraphs_from(lines, limit, i)[k],
            ),
    decreases lines.len() - i,
{
    if i < lines.len() {
        if lines[i].len() == 0 {
            lemma_paragraphs_tight(lines, limit, i + 1);
            let all = paragraphs_from(lines, limit, i);
            assert(all == paragraphs_from(lines, limit, i + 1));
            assert forall|k: int| 0 <= k < all.len() implies tight(#[trigger] all[k]) by {
                assert(all[k] == paragraphs_from(lines, limit, i + 1)[k]);
            }
        } else {
            lemma_paragraph_end(lines, limit, i, i);
            let e = paragraph_end(lines, limit, i, i);
            let run = lines.subrange(i, e);
            assert forall|k: int| 0 <= k < run.len() implies tight(#[trigger] run[k]) by {
                assert(run[k] == lines[i + k]);
            }
            lemma_mended_tight(run);
            lemma_paragraphs_tight(lines, limit, e);
            let all = paragraphs_from(lines, limit, i);
            assert forall|k: int| 0 <= k < all.len() implies tight(#[trigger] all[k]) by {
                if k > 0 {
                    assert(all[k] == paragraphs_from(lines, limit, e)[k - 1]);
                }
            }
        }
    }
}

/// No paragraph is empty, and none begins or ends with white space.
pub proof fn law_paragraphs_are_tight(lines: Seq<Seq<char>>, k: int)
    requires
        0 <= k < paragraphs(lines).len(),
    ensures
        tight(paragraphs(lines)[k]),
{
    let v = cleaned(lines);
    assert forall|j: int| 0 <= j < v.len() && (#[trigger] v[j]).len() > 0 implies tight(v[j]) by {
        lemma_collapse_tight(lines[j]);
    }
    lemma_paragraphs_tight(v, short_limit(v), 0);
}

/// A space is left out.
proof fn lemma_solid_space()
    ensures
        solid(seq![' ']) == Seq::<char>::empty(),
{
    reveal(Seq::filter);
    reveal_with_fuel(Seq::filter, 2);
}

/// What is written in words does not depend on the spaces between them.
proof fn lemma_solid_join(ws: Seq<Seq<char>>)
    ensures
        solid(join(ws, seq![' '])) == solid(concat(ws)),
    decreases ws.len(),
{
    if ws.len() == 1 {
        reveal_with_fuel(concat, 2);
        assert(concat(ws) =~= ws[0]);
    } else if ws.len() > 1 {
        lemma_solid_join(ws.drop_last());
        let s = join(ws.drop_last(), seq![' ']);
        lemma_solid_add(s, seq![' ']);
        lemma_solid_add(s + seq![' '], ws.last());
        lemma_solid_add(concat(ws.drop_last()), ws.last());
        lemma_solid_space();
        assert(solid(s) + Seq::<char>::empty() =~= solid(s));
    }
}

/// The words of `s` with these spans.
spec fn span_words(s: Seq<char>, spans: Seq<(int, int)>) -> Seq<Seq<char>> {
    Seq::new(spans.len(), |k: int| s.subrange(spans[k].0, spans[k].1))
}

/// A run without white space is solid.
proof fn lemma_solid_run(s: Seq<char>)
    requires
        forall|k: int| 0 <= k < s.len() ==> !is_whitespace(#[trigger] s[k]),
    ensures
        solid(s) == s,
    decreases s.len(),
{
    reveal(Seq::filter);
    if s.len() > 0 {
        let init = s.drop_last();
        assert forall|k: int| 0 <= k < init.len() implies !is_whitespace(#[trigger] init[k]) by {
            assert(init[k] == s[k]);
        }
        lemma_solid_run(init);
        assert(!is_whitespace(s[s.len() - 1]));
        assert(s =~= init.push(s.last()));
    }
}

/// White space in front is left out.
proof fn lemma_solid_after_space(s: Seq<char>, i: int)
    requires
        0 <= i < s.len(),
        is_whitespace(s[i]),
    ensures
        solid(s.skip(i)) == solid(s.skip(i + 1)),
{
    let one = seq![s[i]];
    assert(s.skip(i) =~= one + s.skip(i + 1));
    lemma_solid_add(one, s.skip(i + 1));
    assert(solid(one) =~= Seq::empty()) by {
        reveal_with_fuel(Seq::filter, 2);
    }
    assert(Seq::<char>::empty() + solid(s.skip(i + 1)) =~= solid(s.skip(i + 1)));
}

/// A word in front is kept.
proof fn lemma_solid_after_word(s: Seq<char>, i: int, e: int)
    requires
        0 <= i <= e <= s.len(),
        forall|k: int| i <= k < e ==> !is_whitespace(#[trigger] s[k]),
    ensures
        solid(s.skip(i)) == s.subrange(i, e) + solid(s.skip(e)),
{
    let w = s.subrange(i, e);
    assert forall|k: int| 0 <= k < w.len() implies !is_whitespace(#[trigger] w[k]) by {
        assert(w[k] == s[i + k]);
    }
    lemma_solid_run(w);
    assert(s.skip(i) =~= w + s.skip(e));
    lemma_solid_add(w, s.skip(e));
}

/// The words of `s` from `i` on hold everything but the white space.
proof fn lemma_concat_words(s: Seq<char>, i: int)
    requires
        0 <= i <= s.len(),
    ensures
        concat(span_words(s, spans_from(s, i))) == solid(s.skip(i)),
    decreases s.len() - i,
{
    let all = span_words(s, spans_from(s, i));
    if i < s.len() {
        if is_whitespace(s[i]) {
            lemma_concat_words(s, i + 1);
            lemma_solid_after_space(s, i);
        } else {
            crate::text::lemma_word_end(s, i);
            let e = crate::text::word_end(s, i);
            lemma_concat_words(s, e);
            lemma_solid_after_word(s, i, e);
            let rest = span_words(s, spans_from(s, e));
            assert(all =~= seq![s.subrange(i, e)] + rest);
            lemma_concat_front(s.subrange(i, e), rest);
        }
    } else {
        assert(s.skip(i) =~= Seq::empty());
        assert(all =~= Seq::empty());
        lemma_solid_run(Seq::empty());
    }
}

/// A line without superfluous spaces holds the characters of the line.
proof fn lemma_solid_collapse(s: Seq<char>)
    ensures
        solid(collapse(s)) == solid(s),
{
    lemma_solid_join(words(s));
    lemma_concat_words(s, 0);
    assert(words(s) =~= span_words(s, spans_from(s, 0)));
    assert(s.skip(0) =~= s);
    let t = solid(s);
    assert forall|k: int| 0 <= k < t.len() implies !is_whitespace(#[trigger] t[k]) by {
        s.lemma_filter_pred(|c: char| !is_whitespace(c), k);
    }
    lemma_solid_run(t);
}

/// Lines without superfluous spaces hold the characters of the lines.
proof fn lemma_solid_cleaned(v: Seq<Seq<char>>)
    ensures
        solid(concat(cleaned(v))) == solid(concat(v)),
    decreases v.len(),
{
    if v.len() > 0 {
        lemma_solid_cleaned(v.drop_last());
        assert(cleaned(v).drop_last() =~= cleaned(v.drop_last()));
        lemma_solid_collapse(v.last());
        lemma_solid_add(concat(v.drop_last()), v.last());
        lemma_solid_add(concat(cleaned(v.drop_last())), collapse(v.last()));
    }
}

/// Lines that were not broken within a word keep all their characters.
proof fn lemma_solid_mended(v: Seq<Seq<char>>)
    requires
        v.len() > 0,
        forall|k: int| 0 <= k < v.len() ==> (#[trigger] v[k]).len() > 0 && v[k].last() != '-',
    ensures
        solid(mended(v)) == solid(concat(v)),
        mended(v).len() > 0,
        mended(v).last() != '-',
    decreases v.len(),
{
    let init = v.drop_last();
    let w = v.last();
    assert(w == v[v.len() - 1]);
    assert(concat(v) == concat(init) + w);
    if v.len() == 1 {
        assert(init =~= Seq::empty());
        assert(concat(init) =~= Seq::empty());
        assert(concat(v) =~= v[0]);
    } else {
        assert forall|k: int| 0 <= k < init.len() implies (#[trigger] init[k]).len() > 0
            && init[k].last() != '-' by {
            assert(init[k] == v[k]);
        }
        lemma_solid_mended(init);
        let s = mended(init);
        let t = s.push(' ') + w;
        assert(mended(v) == t);
        assert(t =~= s + (seq![' '] + w));
        assert(solid(t) == solid(concat(init)) + solid(w)) by {
            lemma_solid_add(s, seq![' '] + w);
            lemma_solid_add(seq![' '], w);
            lemma_solid_space();
            assert(Seq::<char>::empty() + solid(w) =~= solid(w));
        }
        lemma_solid_add(concat(init), w);
        assert(t.last() == w.last());
    }
}

/// The paragraphs from line `i` on hold what the lines from `i` on hold.
proof fn lemma_solid_paragraphs(lines: Seq<Seq<char>>, limit: int, i: int)
    requires
        0 <= i <= lines.len(),
        forall|k: int|
            0 <= k < lines.len() && (#[trigger] lines[k]).len() > 0 ==> lines[k].last() != '-',
    ensures
        solid(concat(paragraphs_from(lines, limit, i))) == solid(concat(lines.skip(i))),
    decreases lines.len() - i,
{
    let rest = lines.skip(i);
    if i < lines.len() {
        if lines[i].len() == 0 {
            lemma_solid_paragraphs(lines, limit, i + 1);
            assert(rest =~= seq![lines[i]] + lines.skip(i + 1));
            lemma_concat_front(lines[i], lines.skip(i + 1));
            assert(concat(rest) =~= concat(lines.skip(i + 1)));
        } else {
            lemma_paragraph_end(lines, limit, i, i);
            let e = paragraph_end(lines, limit, i, i);
            let run = lines.subrange(i, e);
            assert(rest =~= run + lines.skip(e));
            lemma_concat_add(run, lines.skip(e));
            lemma_solid_add(concat(run), concat(lines.skip(e)));
            assert forall|k: int| 0 <= k < run.len() implies (#[trigger] run[k]).len() > 0
                && run[k].last() != '-' by {
                assert(run[k] == lines[i + k]);
            }
            lemma_solid_mended(run);
            lemma_solid_paragraphs(lines, limit, e);
            let later = paragraphs_from(lines, limit, e);
            lemma_concat_front(mended(run), later);
            lemma_solid_add(mended(run), concat(later));
        }
    } else {
        assert(rest =~= Seq::empty());
    }
}

/// Grouping loses no text: where no line ends in a hyphen, the paragraphs hold the
/// characters of the lines, white space aside, all of them and in order.
pub proof fn law_grouping_keeps_text(lines: Seq<Seq<char>>)
    requires
        forall|k: int|
            0 <= k < lines.len() && (#[trigger] cleaned(lines)[k]).len() > 0 ==> cleaned(
                lines,
            )[k].last() != '-',
    ensures
        solid(concat(paragraphs(lines))) == solid(concat(lines)),
{
    let v = cleaned(lines);
    lemma_solid_paragraphs(v, short_limit(v), 0);
    assert(v.skip(0) =~= v);
    lemma_solid_cleaned(lines);
}

/// `s` without white space and without hyphens.
pub open spec fn unhyphened(s: Seq<char>) -> Seq<char> {
    solid(s).filter(|c: char| c != '-')
}

/// White space and hyphens can be left out part by part.
proof fn lemma_unhyphened_add(a: Seq<char>, b: Seq<char>)
    ensures
        unhyphened(a + b) == unhyphened(a) + unhyphened(b),
{
    lemma_solid_add(a, b);
    Seq::filter_distributes_over_add(solid(a), solid(b), |c: char| c != '-');
}

/// A space is left out, and so is a hyphen.
proof fn lemma_unhyphened_joint()
    ensures
        unhyphened(seq![' ']) == Seq::<char>::empty(),
        unhyphened(seq!['-']) == Seq::<char>::empty(),
{
    lemma_solid_space();
    lemma_solid_run(seq!['-']);
    reveal(Seq::filter);
    reveal_with_fuel(Seq::filter, 2);
}

/// Appending a line, with a space or in place of a hyphen, adds what the line holds.
proof fn lemma_unhyphened_appended(s: Seq<char>, w: Seq<char>)
    ensures
        unhyphened(s.push(' ') + w) == unhyphened(s) + unhyphened(w),
        hyphenated(s) ==> unhyphened(s.drop_last() + w) == unhyphened(s) + unhyphened(w),
{
    lemma_unhyphened_joint();
    assert(s.push(' ') =~= s + seq![' ']);
    lemma_unhyphened_add(s, seq![' ']);
    assert(unhyphened(s) + Seq::<char>::empty() =~= unhyphened(s));
    lemma_unhyphened_add(s + seq![' '], w);
    if hyphenated(s) {
        let bare = s.drop_last();
        assert(s =~= bare + seq!['-']);
        lemma_unhyphened_add(bare, seq!['-']);
        assert(unhyphened(bare) + Seq::<char>::empty() =~= unhyphened(bare));
        lemma_unhyphened_add(bare, w);
    }
}

/// Mending lines takes nothing but hyphens from them.
proof fn lemma_unhyphened_mended(v: Seq<Seq<char>>)
    requires
        v.len() > 0,
    ensures
        unhyphened(mended(v)) == unhyphened(concat(v)),
    decreases v.len(),
{
    let init = v.drop_last();
    let w = v.last();
    assert(concat(v) == concat(init) + w);
    if v.len() == 1 {
        assert(init =~= Seq::empty());
        assert(concat(init) =~= Seq::empty());
        assert(concat(v) =~= v[0]);
    } else {
        lemma_unhyphened_mended(init);
        let s = mended(init);
        assert(mended(v) == if hyphenated(s) {
            s.drop_last() + w
        } else {
            s.push(' ') + w
        });
        lemma_unhyphened_appended(s, w);
        lemma_unhyphened_add(concat(init), w);
    }
}

/// The paragraphs from line `i` on hold what the lines from `i` on hold, but for hyphens.
proof fn lemma_unhyphened_paragraphs(lines: Seq<Seq<char>>, limit: int, i: int)
    requires
        0 <= i <= lines.len(),
    ensures
        unhyphened(concat(paragraphs_from(lines, limit, i))) == unhyphened(concat(lines.skip(i))),
    decreases lines.len() - i,
{
    let rest = lines.skip(i);
    if i < lines.len() {
        if lines[i].len() == 0 {
            lemma_unhyphened_paragraphs(lines, limit, i + 1);
            assert(rest =~= seq![lines[i]] + lines.skip(i + 1));
            lemma_concat_front(lines[i], lines.skip(i + 1));
            assert(concat(rest) =~= concat(lines.skip(i + 1)));
        } else {
            lemma_paragraph_end(lines, limit, i, i);
            let e = paragraph_end(lines, limit, i, i);
            let run = lines.subrange(i, e);
            assert(rest =~= run + lines.skip(e));
            lemma_concat_add(run, lines.skip(e));
            lemma_unhyphened_add(concat(run), concat(lines.skip(e)));
            lemma_unhyphened_mended(run);
            lemma_unhyphened_paragraphs(lines, limit, e);
            let later = paragraphs_from(lines, limit, e);
            lemma_concat_front(mended(run), later);
            lemma_unhyphened_add(mended(run), concat(later));
        }
    } else {
        assert(rest =~= Seq::empty());
    }
}

/// Grouping loses nothing but hyphens, whatever the lines are: the paragraphs hold the
/// other characters of the lines, white space aside, all of them and in order.
pub proof fn law_only_hyphens_are_lost(lines: Seq<Seq<char>>)
    ensures
        unhyphened(concat(paragraphs(lines))) == unhyphened(concat(lines)),
{
    let v = cleaned(lines);
    lemma_unhyphened_paragraphs(v, short_limit(v), 0);
    assert(v.skip(0) =~= v);
    lemma_solid_cleaned(lines);
}

/// A word that was broken at the end of a line is always mended: where a paragraph ends
/// in a hyphen, an empty line follows, or nothing. The paragraph is the one that starts
/// with line `start` of the page, and goes up to line `i` at least.
pub proof fn law_broken_words_are_mended(lines: Seq<Seq<char>>, limit: int, start: int, i: int)
    requires
        0 <= start <= i < lines.len(),
        forall|k: int| start <= k <= i ==> (#[trigger] lines[k]).len() > 0,
    ensures
        ({
            let e = paragraph_end(lines, limit, start, i);
            hyphenated(mended(lines.subrange(start, e))) ==> e == lines.len()
                || lines[e].len() == 0
        }),
    decreases lines.len() - i,
{
    let text = mended(lines.subrange(start, i + 1));
    if i + 1 < lines.len() && lines[i + 1].len() > 0 {
        if !closes(text, lines[i], limit) {
            law_broken_words_are_mended(lines, limit, start, i + 1);
        } else {
            lemma_mended_last(lines.subrange(start, i + 1));
        }
    }
}

/// A text ends like its last line.
proof fn lemma_mended_last(v: Seq<Seq<char>>)
    requires
        v.len() > 0,
        v.last().len() > 0,
    ensures
        mended(v).len() > 0,
        mended(v).last() == v.last().last(),
{
}

} // verus!
