//! Where sentences end, and with them the chunks.

use super::chunk::{
    chunk_spans, chunks, closers_end, cut_at, cuts, fit_end, is_closer, is_ender, kept, kept_all,
    last_weak, lemma_cut_at, lemma_fit_end, lemma_sentence_end, lemma_word_cut, long_spans,
    sentence_end, sentence_spans, space_end, tight, word_cut, MAX_CHARS,
};
use super::chunk_laws::{
    law_chunk_size, law_fitting_paragraph_is_one_chunk, law_packing_is_maximal,
    lemma_fit_sentences, lemma_kept_all, lemma_last_weak_is_last, lemma_long_tiles,
    lemma_sentence_is_followed, lemma_tight, lemma_tiles_concat,
};
use crate::text::edit::lemma_find;
use crate::text::{blank, is_whitespace, lemma_text_end, lemma_ws_end, trim, trim_end};
use vstd::prelude::*;

verus! {

/// Whether `c` is a full stop, an exclamation mark, a question mark or an ellipsis.
pub open spec fn stops(c: char) -> bool {
    c == '.' || c == '!' || c == '?' || c == '…'
}

/// Whether `c` closes what was opened in the sentence, or stops it once more.
pub open spec fn shuts(c: char) -> bool {
    stops(c) || c == '"' || c == '”' || c == '’' || c == '»' || c == ')' || c == '\''
}

/// Whether `s` ends in a mark that stops a sentence, maybe with closing quotes and
/// brackets behind it.
pub open spec fn stopped(s: Seq<char>) -> bool {
    exists|m: int|
        0 <= m < s.len() && stops(#[trigger] s[m]) && forall|j: int|
            m < j < s.len() ==> shuts(#[trigger] s[j])
}

/// Everything up to where the closing punctuation ends is closing punctuation.
proof fn lemma_closers(s: Seq<char>, i: int)
    requires
        0 <= i <= s.len(),
    ensures
        i <= closers_end(s, i) <= s.len(),
        forall|k: int| i <= k < closers_end(s, i) ==> shuts(#[trigger] s[k]),
        closers_end(s, i) < s.len() ==> !shuts(s[closers_end(s, i)]),
    decreases s.len() - i,
{
    if i < s.len() && is_closer(s[i]) {
        lemma_closers(s, i + 1);
    }
}

/// What stands at the end of a sentence that is not the last one: a mark at `m`, closing
/// punctuation up to `j`, and white space from there on.
proof fn lemma_sentence_stops(s: Seq<char>, i: int) -> (r: (int, int))
    requires
        0 <= i < s.len(),
        sentence_end(s, i) < s.len(),
    ensures
        ({
            let (m, j) = r;
            let e = sentence_end(s, i);
            &&& i <= m < j < e
            &&& stops(s[m])
            &&& forall|k: int| m < k < j ==> shuts(#[trigger] s[k])
            &&& forall|k: int| j <= k < e ==> is_whitespace(#[trigger] s[k])
        }),
    decreases s.len() - i,
{
    if is_ender(s[i]) {
        lemma_closers(s, i + 1);
        let j = closers_end(s, i + 1);
        if j >= s.len() || is_whitespace(s[j]) {
            lemma_ws_end(s, j);
            (i, j)
        } else {
            lemma_sentence_stops(s, j)
        }
    } else if i + 1 < s.len() {
        lemma_sentence_stops(s, i + 1)
    } else {
        reveal_with_fuel(sentence_end, 2);
        (i, i)
    }
}

/// A mark with white space behind it, and closing punctuation between them at most, ends
/// the sentence that goes on at `i`.
proof fn lemma_mark_stops(s: Seq<char>, i: int, m: int, j: int)
    requires
        0 <= i <= m < j < sentence_end(s, i) <= s.len(),
        stops(s[m]),
        forall|k: int| m < k < j ==> shuts(#[trigger] s[k]),
        is_whitespace(s[j]),
    ensures
        forall|k: int| j <= k < sentence_end(s, i) ==> is_whitespace(#[trigger] s[k]),
    decreases s.len() - i,
{
    if is_ender(s[i]) {
        lemma_closers(s, i + 1);
        let c = closers_end(s, i + 1);
        if c >= s.len() || is_whitespace(s[c]) {
            lemma_ws_end(s, c);
            if j < c {
                assert(shuts(s[j]));
            }
        } else if m >= c {
            lemma_mark_stops(s, c, m, j);
        } else if j < c {
            assert(shuts(s[j]));
        } else {
            assert(c <= j);
            if c < j {
                assert(shuts(s[c]));
            }
            assert(false);
        }
    } else {
        assert(m > i);
        lemma_mark_stops(s, i + 1, m, j);
    }
}

/// The sentence at place `n` from `i` on starts and ends where sentences do.
proof fn lemma_sentence_at(s: Seq<char>, i: int, n: int)
    requires
        0 <= i <= s.len(),
        0 <= n < sentence_spans(s, i).len(),
    ensures
        ({
            let w = sentence_spans(s, i)[n];
            &&& i <= w.0 < w.1 <= s.len()
            &&& w.1 == sentence_end(s, w.0)
            &&& n + 1 < sentence_spans(s, i).len() ==> w.1 < s.len() && sentence_spans(
                s,
                i,
            )[n + 1].0 == w.1
        }),
    decreases s.len() - i,
{
    lemma_sentence_end(s, i);
    let e = sentence_end(s, i);
    let rest = sentence_spans(s, e);
    assert(sentence_spans(s, i) =~= seq![(i, e)] + rest);
    if n > 0 {
        assert(sentence_spans(s, i)[n] == rest[n - 1]);
        lemma_sentence_at(s, e, n - 1);
        if n + 1 < sentence_spans(s, i).len() {
            assert(sentence_spans(s, i)[n + 1] == rest[n]);
        }
    } else if rest.len() > 0 {
        assert(sentence_spans(s, i)[1] == rest[0]);
        assert(e < s.len());
    }
}

/// A sentence ends behind a full stop, an exclamation mark, a question mark or an ellipsis
/// only: every sentence but the last one has white space at its end, and before it such a
/// mark, maybe with closing quotes and brackets. The next sentence begins with what is no
/// white space.
pub proof fn law_sentences_end_in_marks(text: Seq<char>, n: int)
    requires
        0 <= n && n + 1 < cuts(text, sentence_spans(text, 0)).len(),
    ensures
        ({
            let sentence = cuts(text, sentence_spans(text, 0))[n];
            let next = cuts(text, sentence_spans(text, 0))[n + 1];
            &&& stopped(trim_end(sentence))
            &&& trim_end(sentence).len() < sentence.len()
            &&& next.len() > 0 && !is_whitespace(next[0])
        }),
{
    lemma_sentence_at(text, 0, n);
    lemma_sentence_at(text, 0, n + 1);
    let w = sentence_spans(text, 0)[n];
    let (m, j) = lemma_sentence_stops(text, w.0);
    let s = cuts(text, sentence_spans(text, 0))[n];
    assert(s == text.subrange(w.0, w.1));
    let t = trim_end(s);
    lemma_text_end(s, s.len() as int);
    let e = j - w.0;
    if t.len() < e {
        assert(s[e - 1] == text[j - 1]);
        assert(!is_whitespace(text[j - 1])) by {
            if m < j - 1 {
                assert(shuts(text[j - 1]));
            }
        }
    }
    if t.len() > e {
        assert(s[t.len() - 1] == text[w.0 + t.len() - 1]);
    }
    assert(t.len() == e);
    assert(stops(t[m - w.0]));
    assert forall|k: int| m - w.0 < k < t.len() implies shuts(#[trigger] t[k]) by {
        assert(t[k] == text[w.0 + k]);
    }
    lemma_sentence_is_followed(text, w.0);
}

/// A full stop, an exclamation mark, a question mark or an ellipsis ends the sentence
/// wherever white space follows it, maybe behind closing quotes and brackets: nothing but
/// white space is left of the sentence then.
pub proof fn law_marks_end_sentences(text: Seq<char>, n: int, m: int, j: int)
    requires
        0 <= n < cuts(text, sentence_spans(text, 0)).len(),
        ({
            let sentence = cuts(text, sentence_spans(text, 0))[n];
            &&& 0 <= m < j < sentence.len()
            &&& stops(sentence[m])
            &&& forall|k: int| m < k < j ==> shuts(#[trigger] sentence[k])
            &&& is_whitespace(sentence[j])
        }),
    ensures
        blank(cuts(text, sentence_spans(text, 0))[n].skip(j)),
{
    lemma_sentence_at(text, 0, n);
    let w = sentence_spans(text, 0)[n];
    let s = cuts(text, sentence_spans(text, 0))[n];
    assert forall|k: int| w.0 + m < k < w.0 + j implies shuts(#[trigger] text[k]) by {
        assert(s[k - w.0] == text[k]);
    }
    lemma_mark_stops(text, w.0, w.0 + m, w.0 + j);
    assert forall|k: int| 0 <= k < s.skip(j).len() implies is_whitespace(
        #[trigger] s.skip(j)[k],
    ) by {
        assert(s.skip(j)[k] == text[w.0 + j + k]);
    }
}

/// The last sentence that a chunk of whole sentences holds.
proof fn lemma_last_sentence(p: Seq<char>, i: int, a: int, e: int) -> (b: int)
    requires
        0 <= i <= a < e <= p.len(),
        e == sentence_end(p, a),
    ensures
        i <= b < fit_end(p, i, e) <= p.len(),
        fit_end(p, i, e) == sentence_end(p, b),
    decreases p.len() - e,
{
    lemma_fit_end(p, i, e);
    if fit_end(p, i, e) == e {
        a
    } else {
        lemma_sentence_end(p, e);
        lemma_last_sentence(p, i, e, sentence_end(p, e))
    }
}

/// [`law_chunks_end_with_sentences`] for the chunks from the sentence at `i` on.
proof fn lemma_chunk_stops(p: Seq<char>, i: int, k: int) -> (n: int)
    requires
        0 <= i <= p.len(),
        0 <= k && k + 1 < chunk_spans(p, i).len(),
    ensures
        ({
            let c = chunk_spans(p, i)[k];
            ||| stopped(p.subrange(c.0, c.1))
            ||| 0 <= n < sentence_spans(p, i).len() && {
                let w = sentence_spans(p, i)[n];
                w.1 - w.0 > 400 && w.0 <= c.0 < c.1 <= w.1
            }
        }),
    decreases p.len() - i,
{
    lemma_sentence_end(p, i);
    let e = sentence_end(p, i);
    let spans = chunk_spans(p, i);
    let all = sentence_spans(p, i);
    let c = spans[k];
    assert(all =~= seq![(i, e)] + sentence_spans(p, e));
    if e - i > 400 {
        let pieces = long_spans(p, i, i, e);
        let head = kept_all(p, pieces);
        assert(spans == head + chunk_spans(p, e));
        if k < head.len() {
            lemma_long_tiles(p, i, i, e);
            lemma_tiles_concat(p, pieces, i, e);
            lemma_kept_all(p, pieces, i, e);
            assert(c == head[k]);
            assert(all[0] == (i, e));
            0
        } else {
            assert(c == chunk_spans(p, e)[k - head.len()]);
            let n = lemma_chunk_stops(p, e, k - head.len());
            if 0 <= n < sentence_spans(p, e).len() {
                assert(all[n + 1] == sentence_spans(p, e)[n]);
            }
            n + 1
        }
    } else {
        lemma_fit_end(p, i, e);
        let g = fit_end(p, i, e);
        let head = kept(p, i, g);
        assert(spans == head + chunk_spans(p, g));
        if k < head.len() {
            assert(g < p.len());
            let b = lemma_last_sentence(p, i, i, e);
            let (m, j) = lemma_sentence_stops(p, b);
            lemma_tight(p, i, g);
            let t = tight(p, i, g);
            assert(c == t);
            assert(!is_whitespace(p[m]));
            assert(!is_whitespace(p[j - 1])) by {
                if m < j - 1 {
                    assert(shuts(p[j - 1]));
                }
            }
            assert(t.0 <= m && j <= t.1);
            assert(!is_whitespace(p[t.1 - 1]));
            assert(t.1 == j);
            let text = p.subrange(t.0, t.1);
            assert(stops(text[m - t.0]));
            assert forall|x: int| m - t.0 < x < text.len() implies shuts(#[trigger] text[x]) by {
                assert(text[x] == p[t.0 + x]);
            }
            0
        } else {
            assert(c == chunk_spans(p, g)[k - head.len()]);
            let q = lemma_fit_sentences(p, i, e);
            let n = lemma_chunk_stops(p, g, k - head.len());
            if 0 <= n < sentence_spans(p, g).len() {
                assert(sentence_spans(p, e)[n + q] == sentence_spans(p, g)[n]);
                assert(all[n + q + 1] == sentence_spans(p, e)[n + q]);
            }
            n + q + 1
        }
    }
}

/// A chunk ends with a sentence: every chunk but the last one ends in a full stop, an
/// exclamation mark, a question mark or an ellipsis, maybe with closing quotes and
/// brackets. Only a part of a sentence that has more than 400 characters, the one at place
/// `n`, may end otherwise.
pub proof fn law_chunks_end_with_sentences(p: Seq<char>, k: int) -> (n: int)
    requires
        0 <= k && k + 1 < chunks(p).len(),
    ensures
        stopped(chunks(p)[k].text) || {
            &&& 0 <= n < cuts(p, sentence_spans(p, 0)).len()
            &&& cuts(p, sentence_spans(p, 0))[n].len() > 400
            &&& exists|a: int|
                0 <= a <= a + chunks(p)[k].text.len() <= cuts(p, sentence_spans(p, 0))[n].len()
                    && #[trigger] cuts(p, sentence_spans(p, 0))[n].subrange(
                    a,
                    a + chunks(p)[k].text.len(),
                ) == chunks(p)[k].text
        },
{
    let n = lemma_chunk_stops(p, 0, k);
    let c = chunk_spans(p, 0)[k];
    let text = chunks(p)[k].text;
    assert(text == p.subrange(c.0, c.1));
    if !stopped(text) {
        lemma_sentence_at(p, 0, n);
        let w = sentence_spans(p, 0)[n];
        let s = cuts(p, sentence_spans(p, 0))[n];
        let a = c.0 - w.0;
        assert(s.subrange(a, a + text.len()) =~= text);
    }
    n
}

/// Where every sentence of a paragraph has at most 400 characters, every chunk but the
/// last one ends in a full stop, an exclamation mark, a question mark or an ellipsis, maybe
/// with closing quotes and brackets.
pub proof fn law_whole_sentences_make_chunks(p: Seq<char>, k: int)
    requires
        0 <= k && k + 1 < chunks(p).len(),
        forall|n: int|
            0 <= n < cuts(p, sentence_spans(p, 0)).len() ==> (#[trigger] cuts(
                p,
                sentence_spans(p, 0),
            )[n]).len() <= 400,
    ensures
        stopped(chunks(p)[k].text),
{
    let n = law_chunks_end_with_sentences(p, k);
}

// ------------------------------------------------------------------------ long sentences

/// Whether `c` is a comma, a semicolon, a colon or a dash.
pub open spec fn pauses(c: char) -> bool {
    c == ',' || c == ';' || c == ':' || c == '—' || c == '–'
}

/// Whether a word of `s[..e]` may end before `b`: with a space, or with the text.
pub open spec fn word_stop(s: Seq<char>, b: int, e: int) -> bool {
    b == e || s[b - 1] == ' '
}

/// Whether the piece `s[a..c]` of a long sentence that ends at `e` ends at the last comma,
/// semicolon, colon or dash that fits: it has more than 100 characters, and every later
/// such mark stands in a word with which the piece would have more than 400.
pub open spec fn ends_at_pause(s: Seq<char>, a: int, c: int, e: int) -> bool {
    &&& pauses(s[c - 1])
    &&& c - a > 100
    &&& forall|x: int, b: int|
        c <= x < b <= e && pauses(#[trigger] s[x]) && #[trigger] word_stop(s, b, e) ==> b - a > 400
}

/// Whether the piece `s[a..c]` of a long sentence that ends at `e` ends at the last space
/// that fits: it has no comma, semicolon, colon or dash behind its first 100 characters,
/// and with one more word it would have more than 400.
pub open spec fn ends_at_space(s: Seq<char>, a: int, c: int, e: int) -> bool {
    &&& s[c - 1] == ' '
    &&& forall|x: int| a + 100 <= x < c ==> !pauses(#[trigger] s[x])
    &&& forall|b: int| c < b <= e && #[trigger] word_stop(s, b, e) ==> b - a > 400
}

/// A piece that is cut because a word does not fit ends where it should.
proof fn lemma_cut_place(p: Seq<char>, a: int, w: int, e: int)
    requires
        0 <= a < w < e <= p.len(),
        p[w - 1] == ' ',
        space_end(p, w, e) - a > 400,
    ensures
        ({
            let c = cut_at(p, a, w);
            &&& a < c <= w
            &&& ends_at_pause(p, a, c, e) || ends_at_space(p, a, c, e)
        }),
{
    lemma_cut_at(p, a, w);
    lemma_find(p, ' ', w);
    let n = space_end(p, w, e);
    let c = cut_at(p, a, w);
    let t = p.subrange(a, w);
    lemma_text_end(t, t.len() as int);
    let z = a + trim_end(t).len();
    lemma_last_weak_is_last(p, a, z);
    let q = last_weak(p, a, z);
    assert forall|b: int| w < b <= e && #[trigger] word_stop(p, b, e) implies b - a > 400 by {
        if b < n {
            assert(p[b - 1] == ' ');
        }
    }
    assert forall|x: int| q <= x < w implies !pauses(#[trigger] p[x]) by {
        if x >= z {
            assert(t[x - a] == p[x]);
            assert(is_whitespace(t[x - a]));
        }
    }
    if q - a > 100 {
        assert(c == q);
    } else {
        assert(c == w);
    }
}

/// Every piece of a long sentence but the last one ends where it should.
proof fn lemma_long_filled(p: Seq<char>, a: int, w: int, e: int, k: int)
    requires
        0 <= a <= w <= e <= p.len(),
        a < w < e ==> p[w - 1] == ' ',
        0 <= k && k + 1 < long_spans(p, a, w, e).len(),
    ensures
        ({
            let c = long_spans(p, a, w, e)[k];
            &&& a <= c.0 < c.1 <= e
            &&& ends_at_pause(p, c.0, c.1, e) || ends_at_space(p, c.0, c.1, e)
        }),
    decreases e - w, w - a,
{
    if w < e {
        lemma_find(p, ' ', w);
        let n = space_end(p, w, e);
        let all = long_spans(p, a, w, e);
        lemma_word_cut(p, w, n);
        if a < w && n - a > MAX_CHARS {
            lemma_cut_place(p, a, w, e);
            let c = cut_at(p, a, w);
            let next = if trim(p.subrange(c, n)).len() <= MAX_CHARS {
                n
            } else {
                w
            };
            assert(all =~= seq![(a, c)] + long_spans(p, c, next, e));
            if k > 0 {
                assert(all[k] == long_spans(p, c, next, e)[k - 1]);
                lemma_long_filled(p, c, next, e, k - 1);
            }
        } else if a == w && word_cut(p, w, n) < n {
            let c = word_cut(p, w, n);
            let t = tight(p, w, n);
            lemma_tight(p, w, n);
            lemma_last_weak_is_last(p, t.0, t.0 + MAX_CHARS);
            assert(all =~= seq![(a, c)] + long_spans(p, c, c, e));
            assert(ends_at_pause(p, a, c, e));
            if k > 0 {
                assert(all[k] == long_spans(p, c, c, e)[k - 1]);
                lemma_long_filled(p, c, c, e, k - 1);
            }
        } else {
            lemma_long_filled(p, a, n, e, k);
        }
    }
}

/// A long sentence is cut where it may be, and as late as it may be: every piece but the
/// last one ends at the last comma, semicolon, colon or dash that fits in 400 characters,
/// or, where there is none behind the first 100 characters, at the last space.
pub proof fn law_long_sentences_are_cut_late(s: Seq<char>, k: int)
    requires
        0 <= k && k + 1 < long_spans(s, 0, 0, s.len() as int).len(),
    ensures
        ({
            let c = long_spans(s, 0, 0, s.len() as int)[k];
            &&& 0 <= c.0 < c.1 <= s.len()
            &&& ends_at_pause(s, c.0, c.1, s.len() as int) || ends_at_space(
                s,
                c.0,
                c.1,
                s.len() as int,
            )
        }),
{
    lemma_long_filled(s, 0, 0, s.len() as int, k);
}

// ---------------------------------------------------------------------------- whole chunks

/// A chunk has at most 400 characters. Only one without any space may have more, and it
/// has no comma, semicolon, colon or dash from the 101st character up to the 400th.
pub proof fn law_chunks_fit(p: Seq<char>, k: int)
    requires
        0 <= k < chunks(p).len(),
    ensures
        chunks(p)[k].text.len() > 400 ==> {
            &&& forall|j: int|
                0 <= j < chunks(p)[k].text.len() ==> #[trigger] chunks(p)[k].text[j] != ' '
            &&& forall|j: int| 100 <= j < 400 ==> !pauses(#[trigger] chunks(p)[k].text[j])
        },
{
    law_chunk_size(p, k);
}

/// A paragraph of at most 400 characters is one chunk: all of it, without white space at
/// the ends.
pub proof fn law_short_paragraphs_are_one_chunk(p: Seq<char>)
    requires
        p.len() <= 400,
        !blank(p),
    ensures
        chunks(p).len() == 1,
        chunks(p)[0].text == trim(p),
        chunks(p)[0].idx == 0,
{
    law_fitting_paragraph_is_one_chunk(p);
}

/// A chunk holds as many whole sentences as fit in 400 characters. Where every sentence of
/// a paragraph fits, the chunk behind chunk `k` begins with a whole sentence, the one at
/// place `m`, and with that one, from the start of chunk `k` up to its end, there would be
/// more than 400 characters.
pub proof fn law_chunks_are_filled(p: Seq<char>, k: int) -> (m: int)
    requires
        0 <= k && k + 1 < chunks(p).len(),
        forall|n: int|
            0 <= n < cuts(p, sentence_spans(p, 0)).len() ==> (#[trigger] cuts(
                p,
                sentence_spans(p, 0),
            )[n]).len() <= 400,
    ensures
        0 <= m < cuts(p, sentence_spans(p, 0)).len(),
        trim(cuts(p, sentence_spans(p, 0))[m]).is_prefix_of(chunks(p)[k + 1].text),
        sentence_spans(p, 0)[m].1 - chunk_spans(p, 0)[k].0 > 400,
{
    assert forall|n: int| 0 <= n < sentence_spans(p, 0).len() implies (#[trigger] sentence_spans(
        p,
        0,
    )[n]).1 - sentence_spans(p, 0)[n].0 <= MAX_CHARS by {
        lemma_sentence_at(p, 0, n);
        assert(cuts(p, sentence_spans(p, 0))[n].len() <= 400);
    }
    law_packing_is_maximal(p, k)
}

} // verus!
