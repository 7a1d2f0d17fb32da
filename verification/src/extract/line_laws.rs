//! Where the paragraphs of a page end, and how lines are put together.

use super::paragraphs::{
    cleaned, closes, hyphenated, lemma_paragraph_end, lengths, median, mended, paragraph_end,
    paragraphs, paragraphs_from, short_limit, up,
};
use crate::text::{collapse, join};
use vstd::prelude::*;

verus! {

// ------------------------------------------------------------------------------- lines

/// Whether a line that ends in `c` ends a sentence or a quotation.
pub open spec fn shuts(c: char) -> bool {
    ||| c == '.'
    ||| c == '!'
    ||| c == '?'
    ||| c == ':'
    ||| c == ';'
    ||| c == '»'
    ||| c == '"'
    ||| c == '”'
    ||| c == ')'
    ||| c == '…'
}

/// Whether the line ends within a word: in a hyphen, with no space before it.
pub open spec fn ends_in_word(s: Seq<char>) -> bool {
    s.len() >= 2 && s[s.len() - 1] == '-' && s[s.len() - 2] != ' '
}

/// Whether the line ends with a word: in no hyphen, or in one with a space before it.
pub open spec fn ends_with_word(s: Seq<char>) -> bool {
    s.len() > 0 && (s[s.len() - 1] != '-' || s.len() >= 2 && s[s.len() - 2] == ' ')
}

/// `s` without a hyphen at its end.
pub open spec fn bare(s: Seq<char>) -> Seq<char> {
    if s.len() > 0 && s[s.len() - 1] == '-' {
        s.take(s.len() - 1)
    } else {
        s
    }
}

/// Whether `part` stands in `s`.
pub open spec fn holds(s: Seq<char>, part: Seq<char>) -> bool {
    exists|j: int|
        0 <= j <= j + part.len() <= s.len() && #[trigger] s.subrange(j, j + part.len()) == part
}

/// Two lines as they stand in one paragraph: a word that the first one breaks off goes on
/// with the second, and otherwise a space comes between them.
pub open spec fn put_together(a: Seq<char>, b: Seq<char>) -> Seq<char> {
    if ends_in_word(a) {
        bare(a) + bare(b)
    } else {
        a + seq![' '] + bare(b)
    }
}

/// What stands in the beginning of a text stands in the text.
proof fn lemma_holds_in(s: Seq<char>, t: Seq<char>, part: Seq<char>)
    requires
        holds(s, part),
        s.is_prefix_of(t),
    ensures
        holds(t, part),
{
    let j = choose|j: int|
        0 <= j <= j + part.len() <= s.len() && #[trigger] s.subrange(j, j + part.len()) == part;
    assert(t.subrange(j, j + part.len()) =~= s.subrange(j, j + part.len())) by {
        assert forall|k: int| j <= k < j + part.len() implies s[k] == t[k] by {}
    }
}

/// A text ends with its last line.
proof fn lemma_last_line(v: Seq<Seq<char>>)
    requires
        v.len() > 0,
    ensures
        v.last().is_suffix_of(mended(v)),
{
    if v.len() > 1 {
        let before = mended(v.drop_last());
        assert(v.last() =~= mended(v).skip(mended(v).len() - v.last().len()));
    }
}

/// Whether a text was broken within a word shows in its last line.
proof fn lemma_broken(v: Seq<Seq<char>>)
    requires
        v.len() > 0,
        v.last().len() > 0,
    ensures
        ends_in_word(v.last()) ==> hyphenated(mended(v)),
        ends_with_word(v.last()) ==> !hyphenated(mended(v)),
        hyphenated(mended(v)) ==> !ends_with_word(v.last()),
        !hyphenated(mended(v)) ==> !ends_in_word(v.last()),
{
    lemma_last_line(v);
    let t = mended(v);
    let w = v.last();
    let n = t.len() - w.len();
    assert(t[t.len() - 1] == w[w.len() - 1]);
    if w.len() >= 2 {
        assert(t[t.len() - 2] == w[w.len() - 2]);
    }
}

/// Two lines of a text that follow each other are put together in it.
proof fn lemma_put_together(v: Seq<Seq<char>>, i: int)
    requires
        0 <= i && i + 1 < v.len(),
        forall|k: int| 0 <= k < v.len() ==> (#[trigger] v[k]).len() > 0,
        ends_in_word(v[i]) || ends_with_word(v[i]),
    ensures
        holds(bare(mended(v)), put_together(v[i], v[i + 1])),
    decreases v.len(),
{
    let init = v.drop_last();
    let w = v.last();
    let before = mended(init);
    let t = mended(v);
    assert forall|k: int| 0 <= k < init.len() implies (#[trigger] init[k]).len() > 0 by {
        assert(init[k] == v[k]);
    }
    assert(w == v[v.len() - 1]);
    assert(init.last() == v[v.len() - 2]);
    lemma_last_line(init);
    lemma_last_line(v);
    lemma_broken(init);
    assert(t.last() == w.last());
    if i + 1 == v.len() - 1 {
        let a = v[i];
        let part = put_together(a, w);
        let j = before.len() - a.len();
        assert(before.skip(j) =~= a) by {
            assert(a.is_suffix_of(before));
        }
        assert forall|k: int| 0 <= k < a.len() implies #[trigger] before[j + k] == a[k] by {
            assert(before.skip(j)[k] == before[j + k]);
        }
        if ends_in_word(a) {
            assert(t == before.drop_last() + w);
            assert(bare(t).subrange(j, j + part.len()) =~= part);
        } else {
            assert(t == before.push(' ') + w);
            assert(bare(t).subrange(j, j + part.len()) =~= part);
        }
    } else {
        lemma_put_together(init, i);
        assert(init[i] == v[i] && init[i + 1] == v[i + 1]);
        assert(bare(before).is_prefix_of(bare(t)));
        lemma_holds_in(bare(before), bare(t), put_together(v[i], v[i + 1]));
    }
}

/// Lines that end with words are joined by spaces.
proof fn lemma_mended_join(v: Seq<Seq<char>>)
    requires
        v.len() > 0,
        forall|k: int| 0 <= k < v.len() ==> (#[trigger] v[k]).len() > 0,
        forall|k: int| 0 <= k < v.len() - 1 ==> ends_with_word(#[trigger] v[k]),
    ensures
        mended(v) == join(v, seq![' ']),
    decreases v.len(),
{
    if v.len() > 1 {
        let init = v.drop_last();
        assert forall|k: int| 0 <= k < init.len() implies (#[trigger] init[k]).len() > 0 by {
            assert(init[k] == v[k]);
        }
        assert forall|k: int| 0 <= k < init.len() - 1 implies ends_with_word(
            #[trigger] init[k],
        ) by {
            assert(init[k] == v[k]);
        }
        lemma_mended_join(init);
        assert(init.last() == v[v.len() - 2]);
        lemma_broken(init);
        assert(mended(v) =~= join(v, seq![' ']));
    }
}

// -------------------------------------------------------------------------- paragraphs

/// Whether the line of this text ends its paragraph wherever it stands.
pub open spec fn must_end(line: Seq<char>, limit: int) -> bool {
    shuts(line[line.len() - 1]) || line.len() < limit && ends_with_word(line)
}

/// Whether the line of this text may end its paragraph though a line follows it.
pub open spec fn may_end(line: Seq<char>, limit: int) -> bool {
    shuts(line[line.len() - 1]) || line.len() < limit && !ends_in_word(line)
}

/// Whether the lines `v[a..b]` are one paragraph: none is empty, and no line but the last
/// one ends it. The last one does, or nothing or an empty line follows it.
pub open spec fn one_paragraph(v: Seq<Seq<char>>, limit: int, a: int, b: int) -> bool {
    &&& 0 <= a < b <= v.len()
    &&& forall|i: int| a <= i < b ==> (#[trigger] v[i]).len() > 0
    &&& forall|i: int| a <= i < b - 1 ==> !must_end(#[trigger] v[i], limit)
    &&& b < v.len() && v[b].len() > 0 ==> may_end(v[b - 1], limit)
}

/// Whether line `i` and the next one are put together in `text`.
pub open spec fn goes_on(v: Seq<Seq<char>>, i: int, text: Seq<char>) -> bool {
    ends_in_word(v[i]) || ends_with_word(v[i]) ==> holds(text, put_together(v[i], v[i + 1]))
}

/// Whether `text` is what the lines `v[a..b]` read: two lines that follow each other are
/// put together in it, and lines that end with words are joined by spaces.
pub open spec fn reads(v: Seq<Seq<char>>, a: int, b: int, text: Seq<char>) -> bool {
    &&& forall|i: int| a <= i < b - 1 ==> #[trigger] goes_on(v, i, text)
    &&& (forall|i: int| a <= i < b - 1 ==> ends_with_word(#[trigger] v[i])) ==> text == join(
        v.subrange(a, b),
        seq![' '],
    )
}

/// A paragraph that starts with line `a` and goes up to line `i` at least.
proof fn lemma_one_paragraph(v: Seq<Seq<char>>, limit: int, a: int, i: int)
    requires
        0 <= a <= i < v.len(),
        forall|k: int| a <= k <= i ==> (#[trigger] v[k]).len() > 0,
        forall|k: int| a <= k < i ==> !must_end(#[trigger] v[k], limit),
    ensures
        one_paragraph(v, limit, a, paragraph_end(v, limit, a, i)),
    decreases v.len() - i,
{
    let text = mended(v.subrange(a, i + 1));
    assert(v.subrange(a, i + 1).last() == v[i]);
    lemma_broken(v.subrange(a, i + 1));
    assert(v[i].last() == v[i][v[i].len() - 1]);
    if i + 1 < v.len() && !closes(text, v[i], limit) && v[i + 1].len() > 0 {
        assert(!must_end(v[i], limit));
        lemma_one_paragraph(v, limit, a, i + 1);
    }
}

/// What a paragraph reads.
proof fn lemma_reads(v: Seq<Seq<char>>, a: int, b: int)
    requires
        0 <= a < b <= v.len(),
        forall|i: int| a <= i < b ==> (#[trigger] v[i]).len() > 0,
    ensures
        reads(v, a, b, mended(v.subrange(a, b))),
{
    let run = v.subrange(a, b);
    let text = mended(run);
    assert forall|k: int| 0 <= k < run.len() implies (#[trigger] run[k]).len() > 0 by {
        assert(run[k] == v[a + k]);
    }
    assert forall|i: int| a <= i < b - 1 implies #[trigger] goes_on(v, i, text) by {
        if ends_in_word(v[i]) || ends_with_word(v[i]) {
            assert(run[i - a] == v[i] && run[i - a + 1] == v[i + 1]);
            lemma_put_together(run, i - a);
            assert(bare(text).is_prefix_of(text));
            lemma_holds_in(bare(text), text, put_together(v[i], v[i + 1]));
        }
    }
    if forall|i: int| a <= i < b - 1 ==> ends_with_word(#[trigger] v[i]) {
        assert forall|k: int| 0 <= k < run.len() - 1 implies ends_with_word(#[trigger] run[k]) by {
            assert(run[k] == v[a + k]);
        }
        lemma_mended_join(run);
    }
}

/// Whether line `j` belongs to one of the paragraphs.
pub open spec fn belongs(cut: Seq<(int, int)>, j: int) -> bool {
    exists|k: int| 0 <= k < cut.len() && (#[trigger] cut[k]).0 <= j < cut[k].1
}

/// The lines of the paragraphs from line `i` on.
proof fn lemma_cut(v: Seq<Seq<char>>, limit: int, i: int) -> (cut: Seq<(int, int)>)
    requires
        0 <= i <= v.len(),
    ensures
        cut.len() == paragraphs_from(v, limit, i).len(),
        forall|k: int|
            0 <= k < cut.len() ==> i <= (#[trigger] cut[k]).0 && one_paragraph(
                v,
                limit,
                cut[k].0,
                cut[k].1,
            ) && reads(v, cut[k].0, cut[k].1, paragraphs_from(v, limit, i)[k]),
        forall|k: int, l: int|
            0 <= k < l < cut.len() ==> (#[trigger] cut[k]).1 <= (#[trigger] cut[l]).0,
        forall|j: int| i <= j < v.len() && v[j].len() > 0 ==> #[trigger] belongs(cut, j),
    decreases v.len() - i,
{
    if i < v.len() {
        if v[i].len() == 0 {
            let cut = lemma_cut(v, limit, i + 1);
            assert(paragraphs_from(v, limit, i) == paragraphs_from(v, limit, i + 1));
            cut
        } else {
            lemma_paragraph_end(v, limit, i, i);
            let e = paragraph_end(v, limit, i, i);
            lemma_one_paragraph(v, limit, i, i);
            lemma_reads(v, i, e);
            let later = lemma_cut(v, limit, e);
            let cut = seq![(i, e)] + later;
            let all = paragraphs_from(v, limit, i);
            assert(all =~= seq![mended(v.subrange(i, e))] + paragraphs_from(v, limit, e));
            assert forall|k: int| 0 <= k < cut.len() implies i <= (#[trigger] cut[k]).0
                && one_paragraph(v, limit, cut[k].0, cut[k].1) && reads(
                v,
                cut[k].0,
                cut[k].1,
                all[k],
            ) by {
                if k > 0 {
                    assert(cut[k] == later[k - 1]);
                    assert(all[k] == paragraphs_from(v, limit, e)[k - 1]);
                }
            }
            assert forall|k: int, l: int| 0 <= k < l < cut.len() implies (#[trigger] cut[k]).1 <= (
            #[trigger] cut[l]).0 by {
                assert(cut[l] == later[l - 1]);
                if k > 0 {
                    assert(cut[k] == later[k - 1]);
                }
            }
            assert forall|j: int| i <= j < v.len() && v[j].len() > 0 implies #[trigger] belongs(
                cut,
                j,
            ) by {
                if j < e {
                    assert(cut[0].0 <= j < cut[0].1);
                } else {
                    assert(belongs(later, j));
                    let k = choose|k: int|
                        0 <= k < later.len() && (#[trigger] later[k]).0 <= j < later[k].1;
                    assert(cut[k + 1] == later[k]);
                }
            }
            cut
        }
    } else {
        Seq::empty()
    }
}

/// The lines of a page, with one space between words.
pub open spec fn tidy(lines: Seq<Seq<char>>) -> Seq<Seq<char>> {
    Seq::new(lines.len(), |i: int| collapse(lines[i]))
}

/// Where paragraphs end is pinned. Paragraph `k` is made of the lines from `cut[k].0` up to
/// `cut[k].1`; every line that is not empty belongs to a paragraph, and the paragraphs
/// follow each other. A line goes on in the next one unless an empty line follows, or it
/// ends in one of `. ! ? : ; » " ” ) …`, or it is short and does not break off a word.
/// Lines that go on are put together with a space, or without one and without the hyphen
/// where a word was broken.
pub proof fn law_paragraphs_end_where_their_lines_do(lines: Seq<Seq<char>>) -> (cut: Seq<
    (int, int),
>)
    ensures
        ({
            let v = tidy(lines);
            let limit = short_limit(v);
            &&& cut.len() == paragraphs(lines).len()
            &&& forall|k: int|
                0 <= k < cut.len() ==> one_paragraph(v, limit, (#[trigger] cut[k]).0, cut[k].1)
                    && reads(v, cut[k].0, cut[k].1, paragraphs(lines)[k])
            &&& forall|k: int, l: int|
                0 <= k < l < cut.len() ==> (#[trigger] cut[k]).1 <= (#[trigger] cut[l]).0
            &&& forall|j: int| 0 <= j < v.len() && v[j].len() > 0 ==> #[trigger] belongs(cut, j)
        }),
{
    assert(tidy(lines) =~= cleaned(lines));
    lemma_cut(tidy(lines), short_limit(tidy(lines)), 0)
}

/// Whether the paragraphs `ps` are made of the lines `v` as `cut` says.
spec fn is_cut(v: Seq<Seq<char>>, limit: int, ps: Seq<Seq<char>>, cut: Seq<(int, int)>) -> bool {
    &&& cut.len() == ps.len()
    &&& forall|k: int|
        0 <= k < cut.len() ==> one_paragraph(v, limit, (#[trigger] cut[k]).0, cut[k].1) && reads(
            v,
            cut[k].0,
            cut[k].1,
            ps[k],
        )
    &&& forall|j: int| 0 <= j < v.len() && v[j].len() > 0 ==> #[trigger] belongs(cut, j)
}

/// The paragraph in which line `i` goes on.
proof fn lemma_goes_on(
    v: Seq<Seq<char>>,
    limit: int,
    ps: Seq<Seq<char>>,
    cut: Seq<(int, int)>,
    i: int,
) -> (k: int)
    requires
        is_cut(v, limit, ps, cut),
        0 <= i && i + 1 < v.len(),
        v[i].len() > 0,
        v[i + 1].len() > 0,
        !may_end(v[i], limit),
        ends_in_word(v[i]) || ends_with_word(v[i]),
    ensures
        0 <= k < ps.len(),
        holds(ps[k], put_together(v[i], v[i + 1])),
{
    assert(belongs(cut, i));
    let k = choose|k: int| 0 <= k < cut.len() && (#[trigger] cut[k]).0 <= i < cut[k].1;
    assert(one_paragraph(v, limit, cut[k].0, cut[k].1));
    assert(reads(v, cut[k].0, cut[k].1, ps[k]));
    assert(goes_on(v, i, ps[k]));
    k
}

/// What is short has fewer than 50 characters.
proof fn lemma_limit(v: Seq<Seq<char>>)
    ensures
        25 <= short_limit(v) <= 50,
{
}

/// A line that neither ends in one of `. ! ? : ; » " ” ) …` nor is short is put together
/// with the next one, in one paragraph.
pub proof fn law_lines_go_on(lines: Seq<Seq<char>>, i: int) -> (k: int)
    requires
        0 <= i && i + 1 < lines.len(),
        ({
            let line = collapse(lines[i]);
            &&& line.len() > 0
            &&& !shuts(line[line.len() - 1])
            &&& ends_in_word(line) || ends_with_word(line) && line.len() >= 50
        }),
        collapse(lines[i + 1]).len() > 0,
    ensures
        0 <= k < paragraphs(lines).len(),
        holds(paragraphs(lines)[k], put_together(collapse(lines[i]), collapse(lines[i + 1]))),
{
    let v = tidy(lines);
    let cut = law_paragraphs_end_where_their_lines_do(lines);
    assert(is_cut(v, short_limit(v), paragraphs(lines), cut));
    assert(v[i] == collapse(lines[i]));
    assert(v[i + 1] == collapse(lines[i + 1]));
    lemma_limit(v);
    lemma_goes_on(v, short_limit(v), paragraphs(lines), cut, i)
}

// ------------------------------------------------------------------------- short lines

/// How many of the lines `v` have fewer than `m` characters, empty ones aside.
pub open spec fn shorter(v: Seq<Seq<char>>, m: int) -> nat
    decreases v.len(),
{
    if v.len() == 0 {
        0
    } else {
        shorter(v.drop_last(), m) + if 0 < v.last().len() < m {
            1nat
        } else {
            0
        }
    }
}

/// How many of the lines `v` are not empty.
pub open spec fn filled(v: Seq<Seq<char>>) -> nat
    decreases v.len(),
{
    if v.len() == 0 {
        0
    } else {
        filled(v.drop_last()) + if v.last().len() > 0 {
            1nat
        } else {
            0
        }
    }
}

/// How many of the numbers `s` are below `m`.
spec fn below(s: Seq<usize>, m: int) -> nat
    decreases s.len(),
{
    if s.len() == 0 {
        0
    } else {
        below(s.drop_last(), m) + if s.last() < m {
            1nat
        } else {
            0
        }
    }
}

/// Lines are counted by their lengths.
proof fn lemma_shorter(v: Seq<Seq<char>>, m: int)
    requires
        forall|k: int| 0 <= k < v.len() ==> (#[trigger] v[k]).len() <= usize::MAX,
    ensures
        shorter(v, m) == below(lengths(v), m),
        filled(v) == lengths(v).len(),
    decreases v.len(),
{
    if v.len() > 0 {
        let init = v.drop_last();
        assert forall|k: int| 0 <= k < init.len() implies (#[trigger] init[k]).len()
            <= usize::MAX by {
            assert(init[k] == v[k]);
        }
        assert(v.last() == v[v.len() - 1]);
        lemma_shorter(init, m);
        if v.last().len() > 0 {
            assert(lengths(v).drop_last() =~= lengths(init));
        }
    }
}

/// Counting does not depend on the order.
proof fn lemma_below_multiset(s: Seq<usize>, m: int)
    ensures
        below(s, m) == s.to_multiset().filter(|x: usize| x < m).len(),
    decreases s.len(),
{
    broadcast use vstd::seq_lib::group_to_multiset_ensures;
    broadcast use vstd::multiset::group_multiset_axioms;

    let f = |x: usize| x < m;
    if s.len() > 0 {
        let init = s.drop_last();
        lemma_below_multiset(init, m);
        assert(s =~= init.push(s.last()));
        assert(s.to_multiset() =~= init.to_multiset().insert(s.last()));
        if s.last() < m {
            assert(s.to_multiset().filter(f) =~= init.to_multiset().filter(f).insert(s.last()));
        } else {
            assert(s.to_multiset().filter(f) =~= init.to_multiset().filter(f));
        }
    } else {
        assert(s.to_multiset().filter(f) =~= vstd::multiset::Multiset::empty());
    }
}

/// Of sorted numbers, no more than the first `h` are below the number at `h` or above, and
/// all up to there are below what is greater.
proof fn lemma_below_sorted(s: Seq<usize>, h: int, m: int)
    requires
        0 <= h <= s.len(),
        forall|i: int, j: int| 0 <= i <= j < s.len() ==> s[i] <= s[j],
    ensures
        h < s.len() && s[h] >= m ==> below(s, m) <= h,
        h < s.len() && s[h] < m ==> below(s, m) > h,
        below(s, m) <= s.len(),
    decreases s.len(),
{
    if s.len() > 0 {
        let init = s.drop_last();
        assert(forall|i: int| 0 <= i < init.len() ==> #[trigger] init[i] == s[i]);
        assert forall|i: int, j: int| 0 <= i <= j < init.len() implies init[i] <= init[j] by {
            assert(s[i] <= s[j]);
        }
        let n = s.len() - 1;
        assert(s.last() == s[n]);
        if h < n {
            lemma_below_sorted(init, h, m);
            assert(s[h] <= s[n]);
        } else if h == n {
            if s[n] < m {
                lemma_below_all(init, m);
            } else {
                lemma_below_sorted(init, init.len() as int, m);
            }
        } else {
            lemma_below_sorted(init, init.len() as int, m);
        }
    }
}

/// All numbers are counted where all are below.
proof fn lemma_below_all(s: Seq<usize>, m: int)
    requires
        forall|i: int| 0 <= i < s.len() ==> #[trigger] s[i] < m,
    ensures
        below(s, m) == s.len(),
    decreases s.len(),
{
    if s.len() > 0 {
        let init = s.drop_last();
        assert(forall|i: int| 0 <= i < init.len() ==> #[trigger] init[i] == s[i]);
        assert(s.last() == s[s.len() - 1]);
        lemma_below_all(init, m);
    }
}

/// A line is short beside the others of its page. Let `m` be the length of the line in the
/// middle, of two the longer: no more than half of the lines are shorter, and more than
/// half are no longer. A line is short where it has less than six tenths of that, rounded;
/// always where it has fewer than 25 characters, and never where it has 50 or more. Empty
/// lines do not count; on a page without other lines the limit is 40.
pub proof fn law_short_lines(v: Seq<Seq<char>>) -> (m: int)
    requires
        forall|k: int| 0 <= k < v.len() ==> (#[trigger] v[k]).len() <= usize::MAX,
    ensures
        filled(v) == 0 ==> short_limit(v) == 40,
        filled(v) > 0 ==> {
            &&& shorter(v, m) <= filled(v) / 2 < shorter(v, m + 1)
            &&& 25 <= short_limit(v) <= 50
            &&& short_limit(v) > 25 ==> 10 * short_limit(v) - 5 <= 6 * m
            &&& short_limit(v) < 50 ==> 6 * m < 10 * short_limit(v) + 5
        },
{
    let lens = lengths(v);
    lemma_shorter(v, 0);
    let m = median(lens) as int;
    if lens.len() > 0 {
        let s = lens.sort_by(up());
        lens.lemma_sort_by_ensures(up());
        broadcast use vstd::seq_lib::group_to_multiset_ensures;

        assert(s.len() == s.to_multiset().len());
        assert(lens.len() == lens.to_multiset().len());
        assert forall|i: int, j: int| 0 <= i <= j < s.len() implies s[i] <= s[j] by {
            if i < j {
                assert(up()(s[i], s[j]));
            }
        }
        let h = lens.len() as int / 2;
        assert(s[h] == m);
        lemma_shorter(v, m);
        lemma_shorter(v, m + 1);
        lemma_below_multiset(s, m);
        lemma_below_multiset(lens, m);
        lemma_below_multiset(s, m + 1);
        lemma_below_multiset(lens, m + 1);
        lemma_below_sorted(s, h, m);
        lemma_below_sorted(s, h, m + 1);
    }
    m
}

} // verus!
