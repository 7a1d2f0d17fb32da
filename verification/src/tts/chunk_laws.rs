//! What holds of the chunks of every paragraph.

use super::chunk::{
    chunk_of, chunk_spans, chunks, closers_end, cut_at, cuts, fit_end, is_ender, is_weak,
    kept, kept_all, last_weak, lemma_closers_end, lemma_cut_at, lemma_fit_end,
    lemma_sentence_end, lemma_word_cut, long_spans, sentence_end, sentence_spans, space_end, tight,
    word_cut, ChunkView, MAX_CHARS,
};
use crate::text::edit::lemma_find;
use crate::text::utf16::{len16, lemma_units_len, lemma_units_subrange, units};
use crate::text::{
    blank, concat, is_whitespace, lemma_concat_front, lemma_solid_add, lemma_text_end, lemma_trim,
    lemma_ws_end, solid, trim, trim_end, trim_start, ws_end,
};
use vstd::prelude::*;

verus! {

// ------------------------------------------------------------------------------ spans

/// Whether `spans` are parts of `p[a..b]`, none of them empty, that come one after
/// the other.
pub open spec fn ordered(spans: Seq<(int, int)>, a: int, b: int) -> bool {
    &&& forall|k: int|
        0 <= k < spans.len() ==> a <= (#[trigger] spans[k]).0 < spans[k].1 <= b
    &&& forall|k: int, l: int|
        0 <= k < l < spans.len() ==> (#[trigger] spans[k]).1 <= (#[trigger] spans[l]).0
}

/// Whether `spans` cut `p[a..b]` into parts without a gap.
pub open spec fn tiles(spans: Seq<(int, int)>, a: int, b: int) -> bool
    decreases spans.len(),
{
    if spans.len() == 0 {
        a == b
    } else {
        spans[0].0 == a && a < spans[0].1 <= b && tiles(spans.drop_first(), spans[0].1, b)
    }
}

/// The parts that tile a text make up the text.
pub proof fn lemma_tiles_concat(p: Seq<char>, spans: Seq<(int, int)>, a: int, b: int)
    requires
        0 <= a <= b <= p.len(),
        tiles(spans, a, b),
    ensures
        concat(cuts(p, spans)) == p.subrange(a, b),
        ordered(spans, a, b),
    decreases spans.len(),
{
    if spans.len() == 0 {
        assert(concat(cuts(p, spans)) =~= p.subrange(a, b));
    } else {
        let rest = spans.drop_first();
        lemma_tiles_concat(p, rest, spans[0].1, b);
        lemma_concat_front(p.subrange(spans[0].0, spans[0].1), cuts(p, rest));
        assert(cuts(p, spans) =~= seq![p.subrange(spans[0].0, spans[0].1)] + cuts(p, rest));
        assert(p.subrange(a, spans[0].1) + p.subrange(spans[0].1, b) =~= p.subrange(a, b));
        assert forall|k: int| 0 <= k < spans.len() implies a <= (#[trigger] spans[k]).0
            < spans[k].1 <= b by {
            if k > 0 {
                assert(spans[k] == rest[k - 1]);
            }
        }
        assert forall|k: int, l: int| 0 <= k < l < spans.len() implies (#[trigger] spans[k]).1 <= (
        #[trigger] spans[l]).0 by {
            assert(spans[l] == rest[l - 1]);
            if k > 0 {
                assert(spans[k] == rest[k - 1]);
            }
        }
    }
}

/// The sentences tile the text.
pub proof fn lemma_sentence_tiles(s: Seq<char>, i: int)
    requires
        0 <= i <= s.len(),
    ensures
        tiles(sentence_spans(s, i), i, s.len() as int),
    decreases s.len() - i,
{
    if i < s.len() {
        lemma_sentence_end(s, i);
        let e = sentence_end(s, i);
        lemma_sentence_tiles(s, e);
        assert(sentence_spans(s, i).drop_first() =~= sentence_spans(s, e));
    }
}

/// The pieces of a long sentence tile it.
pub proof fn lemma_long_tiles(p: Seq<char>, a: int, w: int, e: int)
    requires
        0 <= a <= w <= e <= p.len(),
    ensures
        tiles(long_spans(p, a, w, e), a, e),
    decreases e - w, w - a,
{
    if w < e {
        lemma_find(p, ' ', w);
        let n = space_end(p, w, e);
        if a < w && n - a > MAX_CHARS {
            lemma_cut_at(p, a, w);
            let c = cut_at(p, a, w);
            let next = if trim(p.subrange(c, n)).len() <= MAX_CHARS {
                n
            } else {
                w
            };
            lemma_long_tiles(p, c, next, e);
            assert(long_spans(p, a, w, e).drop_first() =~= long_spans(p, c, next, e));
        } else if a == w && word_cut(p, w, n) < n {
            lemma_word_cut(p, w, n);
            let c = word_cut(p, w, n);
            lemma_long_tiles(p, c, c, e);
            assert(long_spans(p, a, w, e).drop_first() =~= long_spans(p, c, c, e));
        } else {
            lemma_long_tiles(p, a, n, e);
        }
    } else if a < e {
        reveal_with_fuel(tiles, 2);
    }
}

// --------------------------------------------------------------------- white space only

/// Nothing is left of a blank text.
proof fn lemma_solid_blank(s: Seq<char>)
    requires
        blank(s),
    ensures
        solid(s) == Seq::<char>::empty(),
    decreases s.len(),
{
    reveal(Seq::filter);
    if s.len() > 0 {
        lemma_solid_blank(s.drop_last());
        assert(is_whitespace(s.last()));
    }
}

/// The texts of `spans`, without white space, one after the other.
pub open spec fn solid_of(p: Seq<char>, spans: Seq<(int, int)>) -> Seq<char>
    decreases spans.len(),
{
    if spans.len() == 0 {
        Seq::empty()
    } else {
        solid_of(p, spans.drop_last()) + solid(p.subrange(spans.last().0, spans.last().1))
    }
}

proof fn lemma_solid_of_add(p: Seq<char>, u: Seq<(int, int)>, v: Seq<(int, int)>)
    ensures
        solid_of(p, u + v) == solid_of(p, u) + solid_of(p, v),
    decreases v.len(),
{
    if v.len() == 0 {
        assert(u + v =~= u);
        assert(solid_of(p, u) + solid_of(p, v) =~= solid_of(p, u));
    } else {
        lemma_solid_of_add(p, u, v.drop_last());
        assert((u + v).drop_last() =~= u + v.drop_last());
        assert((u + v).last() == v.last());
        assert(solid_of(p, u + v) =~= solid_of(p, u) + solid_of(p, v));
    }
}

/// What [`tight`] cuts off is white space.
pub proof fn lemma_tight(p: Seq<char>, a: int, b: int)
    requires
        0 <= a <= b <= p.len(),
    ensures
        a <= tight(p, a, b).0 <= tight(p, a, b).1 <= b,
        p.subrange(tight(p, a, b).0, tight(p, a, b).1) == trim(p.subrange(a, b)),
        forall|k: int|
            a <= k < b && !is_whitespace(#[trigger] p[k]) ==> tight(p, a, b).0 <= k < tight(
                p,
                a,
                b,
            ).1,
        tight(p, a, b).0 < tight(p, a, b).1 <==> !blank(p.subrange(a, b)),
        tight(p, a, b).0 < tight(p, a, b).1 ==> !is_whitespace(p[tight(p, a, b).0])
            && !is_whitespace(p[tight(p, a, b).1 - 1]),
        solid_of(p, kept(p, a, b)) == solid(p.subrange(a, b)),
{
    let t = p.subrange(a, b);
    lemma_trim(t);
    let w = tight(p, a, b);
    let u = ws_end(t, 0);
    assert(p.subrange(w.0, w.1) =~= t.subrange(u, u + trim(t).len()));
    assert forall|k: int| a <= k < b && !is_whitespace(#[trigger] p[k]) implies w.0 <= k < w.1 by {
        assert(t[k - a] == p[k]);
        if k < w.0 {
            assert(t.take(u)[k - a] == p[k]);
        }
        if k >= w.1 {
            assert(t.skip(u + trim(t).len())[k - w.1] == p[k]);
        }
    }
    if w.0 < w.1 {
        assert(trim(t)[0] == p[w.0]);
        assert(trim(t).last() == p[w.1 - 1]);
    }
    assert(t =~= t.take(u) + trim(t) + t.skip(u + trim(t).len()));
    lemma_solid_add(t.take(u) + trim(t), t.skip(u + trim(t).len()));
    lemma_solid_add(t.take(u), trim(t));
    lemma_solid_blank(t.take(u));
    lemma_solid_blank(t.skip(u + trim(t).len()));
    assert(solid(t) =~= solid(trim(t)));
    if w.0 < w.1 {
        reveal_with_fuel(solid_of, 2);
        assert(solid_of(p, kept(p, a, b)) =~= solid(p.subrange(w.0, w.1)));
    } else {
        lemma_solid_blank(t);
    }
}

/// What is kept of parts that tile `p[a..b]`.
pub proof fn lemma_kept_all(p: Seq<char>, spans: Seq<(int, int)>, a: int, b: int)
    requires
        0 <= a <= b <= p.len(),
        ordered(spans, a, b),
    ensures
        ordered(kept_all(p, spans), a, b),
        solid_of(p, kept_all(p, spans)) == solid_of(p, spans),
        forall|k: int|
            0 <= k < kept_all(p, spans).len() ==> exists|j: int|
                0 <= j < spans.len() && #[trigger] kept_all(p, spans)[k] == tight(
                    p,
                    (#[trigger] spans[j]).0,
                    spans[j].1,
                ),
    decreases spans.len(),
{
    if spans.len() > 0 {
        let init = spans.drop_last();
        let z = spans.last();
        assert forall|k: int| 0 <= k < init.len() implies a <= (#[trigger] init[k]).0 < init[k].1
            <= z.0 by {
            assert(init[k] == spans[k]);
            assert(spans[spans.len() - 1] == z);
        }
        assert forall|k: int, l: int| 0 <= k < l < init.len() implies (#[trigger] init[k]).1 <= (
        #[trigger] init[l]).0 by {
            assert(init[k] == spans[k] && init[l] == spans[l]);
        }
        assert(spans[spans.len() - 1] == z);
        lemma_kept_all(p, init, a, z.0);
        lemma_tight(p, z.0, z.1);
        lemma_solid_of_add(p, kept_all(p, init), kept(p, z.0, z.1));
        let all = kept_all(p, spans);
        assert(all == kept_all(p, init) + kept(p, z.0, z.1));
        assert forall|k: int| 0 <= k < all.len() implies exists|j: int|
            0 <= j < spans.len() && #[trigger] all[k] == tight(
                p,
                (#[trigger] spans[j]).0,
                spans[j].1,
            ) by {
            if k < kept_all(p, init).len() {
                assert(all[k] == kept_all(p, init)[k]);
                let j = choose|j: int|
                    0 <= j < init.len() && kept_all(p, init)[k] == tight(
                        p,
                        (#[trigger] init[j]).0,
                        init[j].1,
                    );
                assert(init[j] == spans[j]);
            } else {
                assert(all[k] == tight(p, spans[spans.len() - 1].0, spans[spans.len() - 1].1));
            }
        }
    }
}

/// The chunks from `i` on are ordered parts of the text that hold all of it but
/// white space.
pub proof fn lemma_chunk_spans(p: Seq<char>, i: int)
    requires
        0 <= i <= p.len(),
    ensures
        ordered(chunk_spans(p, i), i, p.len() as int),
        solid_of(p, chunk_spans(p, i)) == solid(p.skip(i)),
        forall|k: int|
            0 <= k < chunk_spans(p, i).len() ==> !is_whitespace(
                p[(#[trigger] chunk_spans(p, i)[k]).0],
            ) && !is_whitespace(p[chunk_spans(p, i)[k].1 - 1]),
    decreases p.len() - i,
{
    if i < p.len() {
        lemma_sentence_end(p, i);
        let e = sentence_end(p, i);
        let (head, g) = if e - i > MAX_CHARS {
            (kept_all(p, long_spans(p, i, i, e)), e)
        } else {
            (kept(p, i, fit_end(p, i, e)), fit_end(p, i, e))
        };
        if e - i > MAX_CHARS {
            let pieces = long_spans(p, i, i, e);
            lemma_long_tiles(p, i, i, e);
            lemma_tiles_concat(p, pieces, i, e);
            lemma_kept_all(p, pieces, i, e);
            lemma_solid_cuts(p, pieces);
            assert forall|k: int| 0 <= k < head.len() implies !is_whitespace(
                p[(#[trigger] head[k]).0],
            ) && !is_whitespace(p[head[k].1 - 1]) by {
                let j = choose|j: int|
                    0 <= j < pieces.len() && head[k] == tight(
                        p,
                        (#[trigger] pieces[j]).0,
                        pieces[j].1,
                    );
                lemma_tight(p, pieces[j].0, pieces[j].1);
            }
        } else {
            lemma_fit_end(p, i, e);
            lemma_tight(p, i, g);
        }
        lemma_chunk_spans(p, g);
        let rest = chunk_spans(p, g);
        let all = chunk_spans(p, i);
        assert(all == head + rest);
        lemma_solid_of_add(p, head, rest);
        lemma_solid_add(p.subrange(i, g), p.skip(g));
        assert(p.subrange(i, g) + p.skip(g) =~= p.skip(i));
        assert forall|k: int| 0 <= k < all.len() implies i <= (#[trigger] all[k]).0 < all[k].1
            <= p.len() by {
            if k >= head.len() {
                assert(all[k] == rest[k - head.len()]);
            } else {
                assert(all[k] == head[k]);
            }
        }
        assert forall|k: int, l: int| 0 <= k < l < all.len() implies (#[trigger] all[k]).1 <= (
        #[trigger] all[l]).0 by {
            if l < head.len() {
                assert(all[k] == head[k] && all[l] == head[l]);
            } else if k >= head.len() {
                assert(all[k] == rest[k - head.len()] && all[l] == rest[l - head.len()]);
            } else {
                assert(all[k] == head[k] && all[l] == rest[l - head.len()]);
                assert(head[k].1 <= g);
            }
        }
        assert forall|k: int| 0 <= k < all.len() implies !is_whitespace(p[(#[trigger] all[k]).0])
            && !is_whitespace(p[all[k].1 - 1]) by {
            if k >= head.len() {
                assert(all[k] == rest[k - head.len()]);
            } else {
                assert(all[k] == head[k]);
            }
        }
    } else {
        assert(p.skip(i) =~= Seq::empty());
        lemma_solid_blank(p.skip(i));
    }
}

/// [`solid_of`] is what white space removal leaves of the parts together.
proof fn lemma_solid_cuts(p: Seq<char>, spans: Seq<(int, int)>)
    ensures
        solid_of(p, spans) == solid(concat(cuts(p, spans))),
    decreases spans.len(),
{
    if spans.len() == 0 {
        lemma_solid_blank(Seq::empty());
    } else {
        let init = spans.drop_last();
        lemma_solid_cuts(p, init);
        assert(cuts(p, spans).drop_last() =~= cuts(p, init));
        assert(cuts(p, spans).last() == p.subrange(spans.last().0, spans.last().1));
        lemma_solid_add(concat(cuts(p, init)), cuts(p, spans).last());
    }
}

// -------------------------------------------------------------------------------- laws

/// The sentences of a text, one after the other, are the text.
pub proof fn law_sentences_rebuild(text: Seq<char>)
    ensures
        concat(cuts(text, sentence_spans(text, 0))) == text,
{
    lemma_sentence_tiles(text, 0);
    lemma_tiles_concat(text, sentence_spans(text, 0), 0, text.len() as int);
    assert(text.subrange(0, text.len() as int) =~= text);
}

/// The pieces of a long sentence, one after the other, are the sentence.
pub proof fn law_long_pieces_rebuild(s: Seq<char>)
    ensures
        concat(cuts(s, long_spans(s, 0, 0, s.len() as int))) == s,
{
    lemma_long_tiles(s, 0, 0, s.len() as int);
    lemma_tiles_concat(s, long_spans(s, 0, 0, s.len() as int), 0, s.len() as int);
    assert(s.subrange(0, s.len() as int) =~= s);
}

/// A browser that slices the paragraph at a chunk's offset, for the chunk's length,
/// both in UTF-16 code units, gets the chunk's text.
pub proof fn law_offsets(p: Seq<char>, k: int)
    requires
        0 <= k < chunks(p).len(),
    ensures
        chunks(p)[k].idx == k,
        0 <= chunks(p)[k].offset,
        chunks(p)[k].offset + len16(chunks(p)[k].text) <= units(p).len(),
        units(p).subrange(
            chunks(p)[k].offset,
            chunks(p)[k].offset + len16(chunks(p)[k].text),
        ) == units(chunks(p)[k].text),
{
    lemma_chunk_spans(p, 0);
    let w = chunk_spans(p, 0)[k];
    lemma_units_subrange(p, w.0, w.1);
    lemma_units_len(p);
}

/// The chunks come in order and do not overlap.
pub proof fn law_order(p: Seq<char>, k: int, l: int)
    requires
        0 <= k < l < chunks(p).len(),
    ensures
        chunks(p)[k].offset + len16(chunks(p)[k].text) <= chunks(p)[l].offset,
{
    lemma_chunk_spans(p, 0);
    let v = chunk_spans(p, 0)[k];
    let w = chunk_spans(p, 0)[l];
    lemma_units_subrange(p, v.0, v.1);
    lemma_units_subrange(p, v.1, w.0);
}

/// A chunk is not empty, and no white space is at its ends.
pub proof fn law_chunk_is_tight(p: Seq<char>, k: int)
    requires
        0 <= k < chunks(p).len(),
    ensures
        chunks(p)[k].text.len() > 0,
        !is_whitespace(chunks(p)[k].text[0]),
        !is_whitespace(chunks(p)[k].text.last()),
{
    lemma_chunk_spans(p, 0);
    let w = chunk_spans(p, 0)[k];
    assert(chunks(p)[k].text == p.subrange(w.0, w.1));
}

/// The texts of the chunks.
pub open spec fn texts(v: Seq<ChunkView>) -> Seq<Seq<char>> {
    Seq::new(v.len(), |k: int| v[k].text)
}

/// The chunks hold all of the paragraph, in order, but for white space.
pub proof fn law_nothing_is_lost(p: Seq<char>)
    ensures
        solid(concat(texts(chunks(p)))) == solid(p),
{
    lemma_chunk_spans(p, 0);
    lemma_solid_cuts(p, chunk_spans(p, 0));
    assert(cuts(p, chunk_spans(p, 0)) =~= texts(chunks(p)));
    assert(p.skip(0) =~= p);
}

/// A paragraph has no chunk exactly when it is blank.
pub proof fn law_no_chunk_iff_blank(p: Seq<char>)
    ensures
        chunks(p).len() == 0 <==> blank(p),
{
    lemma_chunk_spans(p, 0);
    assert(p.skip(0) =~= p);
    if blank(p) {
        if chunks(p).len() > 0 {
            let w = chunk_spans(p, 0)[0];
            assert(is_whitespace(p[w.0]));
        }
    } else {
        let i = choose|i: int| 0 <= i < p.len() && !is_whitespace(#[trigger] p[i]);
        let f = |c: char| !is_whitespace(c);
        assert(f(p[i]));
        p.lemma_filter_contains(f, i);
        if chunks(p).len() == 0 {
            assert(solid_of(p, chunk_spans(p, 0)) =~= Seq::empty());
        }
    }
}

/// A paragraph that fits is one chunk: the whole of it but for white space at its
/// ends.
pub proof fn law_fitting_paragraph_is_one_chunk(p: Seq<char>)
    requires
        p.len() <= MAX_CHARS,
        !blank(p),
    ensures
        chunks(p) == seq![
            ChunkView { idx: 0, offset: len16(p.take(ws_end(p, 0))) as int, text: trim(p) },
        ],
{
    lemma_sentence_end(p, 0);
    let e = sentence_end(p, 0);
    assert(p.len() > 0);
    lemma_fit_all(p, e);
    lemma_tight(p, 0, p.len() as int);
    assert(p.subrange(0, p.len() as int) =~= p);
    let w = tight(p, 0, p.len() as int);
    assert(chunk_spans(p, p.len() as int) =~= Seq::empty());
    assert(chunk_spans(p, 0) =~= seq![w]);
    assert(chunks(p) =~= seq![chunk_of(p, 0, w)]);
}

/// In a paragraph that fits, every sentence joins the first chunk.
proof fn lemma_fit_all(p: Seq<char>, e: int)
    requires
        p.len() <= MAX_CHARS,
        0 <= e <= p.len(),
    ensures
        fit_end(p, 0, e) == p.len(),
    decreases p.len() - e,
{
    if e < p.len() {
        lemma_sentence_end(p, e);
        lemma_ws_end(p.subrange(0, e), 0);
        lemma_fit_all(p, sentence_end(p, e));
    }
}

/// A sentence that fits is never cut: its text stands in one of the chunks.
pub proof fn law_fitting_sentence_is_kept_whole(p: Seq<char>, n: int) -> (r: (int, int))
    requires
        0 <= n < sentence_spans(p, 0).len(),
        sentence_spans(p, 0)[n].1 - sentence_spans(p, 0)[n].0 <= MAX_CHARS,
        !blank(cuts(p, sentence_spans(p, 0))[n]),
    ensures
        ({
            let sentence = trim(cuts(p, sentence_spans(p, 0))[n]);
            let (k, j) = r;
            &&& 0 <= k < chunks(p).len()
            &&& 0 <= j <= j + sentence.len() <= chunks(p)[k].text.len()
            &&& chunks(p)[k].text.subrange(j, j + sentence.len()) == sentence
        }),
{
    let w = sentence_spans(p, 0)[n];
    lemma_sentence_tiles(p, 0);
    lemma_tiles_concat(p, sentence_spans(p, 0), 0, p.len() as int);
    let k = lemma_sentence_in_chunk(p, 0, n);
    let c = chunk_spans(p, 0)[k];
    let t = tight(p, w.0, w.1);
    lemma_tight(p, w.0, w.1);
    lemma_chunk_spans(p, 0);
    assert(p.subrange(c.0, c.1).subrange(t.0 - c.0, t.1 - c.0) =~= p.subrange(t.0, t.1));
    (k, t.0 - c.0)
}

proof fn lemma_sentence_in_chunk(p: Seq<char>, i: int, n: int) -> (k: int)
    requires
        0 <= i <= p.len(),
        0 <= n < sentence_spans(p, i).len(),
        sentence_spans(p, i)[n].1 - sentence_spans(p, i)[n].0 <= MAX_CHARS,
        !blank(p.subrange(sentence_spans(p, i)[n].0, sentence_spans(p, i)[n].1)),
    ensures
        0 <= k < chunk_spans(p, i).len(),
        ({
            let w = sentence_spans(p, i)[n];
            let c = chunk_spans(p, i)[k];
            c.0 <= tight(p, w.0, w.1).0 && tight(p, w.0, w.1).1 <= c.1
        }),
    decreases p.len() - i,
{
    let w = sentence_spans(p, i)[n];
    lemma_sentence_tiles(p, i);
    lemma_tiles_concat(p, sentence_spans(p, i), i, p.len() as int);
    lemma_sentence_end(p, i);
    let e = sentence_end(p, i);
    if e - i > MAX_CHARS {
        let head = kept_all(p, long_spans(p, i, i, e));
        assert(sentence_spans(p, i)[0] == (i, e));
        assert(n > 0);
        assert(w == sentence_spans(p, e)[n - 1]);
        let k = lemma_sentence_in_chunk(p, e, n - 1);
        assert(chunk_spans(p, i)[head.len() + k] == chunk_spans(p, e)[k]);
        head.len() + k
    } else {
        lemma_fit_end(p, i, e);
        let g = fit_end(p, i, e);
        let m = lemma_fit_sentences(p, i, e);
        let first = seq![(i, e)];
        assert(sentence_spans(p, i) =~= first + sentence_spans(p, e));
        lemma_tight(p, i, g);
        lemma_tight(p, w.0, w.1);
        if n < m + 1 {
            // The sentence is one of those that the chunk holds.
            assert(i <= w.0 && w.1 <= g) by {
                if n > 0 {
                    assert(w == sentence_spans(p, e)[n - 1]);
                }
            }
            let t = tight(p, w.0, w.1);
            assert(!is_whitespace(p[t.0]) && !is_whitespace(p[t.1 - 1]));
            0
        } else {
            assert(w == sentence_spans(p, e)[n - 1]);
            assert(w == sentence_spans(p, g)[n - 1 - m]);
            let k = lemma_sentence_in_chunk(p, g, n - 1 - m);
            let head = kept(p, i, g);
            assert(chunk_spans(p, i)[head.len() + k] == chunk_spans(p, g)[k]);
            head.len() + k
        }
    }
}

/// A chunk ends where a sentence does: the sentences from `e` on are `m` that join
/// the chunk, then those that follow it.
pub proof fn lemma_fit_sentences(p: Seq<char>, i: int, e: int) -> (m: int)
    requires
        0 <= i <= e <= p.len(),
    ensures
        0 <= m <= sentence_spans(p, e).len(),
        sentence_spans(p, e).skip(m) == sentence_spans(p, fit_end(p, i, e)),
        forall|k: int|
            0 <= k < m ==> e <= (#[trigger] sentence_spans(p, e)[k]).0 && sentence_spans(p, e)[k].1
                <= fit_end(p, i, e),
        forall|k: int|
            m <= k < sentence_spans(p, e).len() ==> #[trigger] sentence_spans(p, e)[k]
                == sentence_spans(p, fit_end(p, i, e))[k - m],
    decreases p.len() - e,
{
    if e < p.len() {
        lemma_sentence_end(p, e);
        let n = sentence_end(p, e);
        if n - e <= MAX_CHARS && trim_start(p.subrange(i, e)).len() + (n - e) <= MAX_CHARS {
            let m = lemma_fit_sentences(p, i, n);
            lemma_fit_end(p, i, n);
            let all = sentence_spans(p, e);
            let rest = sentence_spans(p, n);
            assert(all =~= seq![(e, n)] + rest);
            assert(all.skip(m + 1) =~= rest.skip(m));
            assert forall|k: int| 0 <= k < m + 1 implies e <= (#[trigger] all[k]).0 && all[k].1
                <= fit_end(p, i, e) by {
                if k > 0 {
                    assert(all[k] == rest[k - 1]);
                }
            }
            assert forall|k: int| m + 1 <= k < all.len() implies #[trigger] all[k]
                == sentence_spans(p, fit_end(p, i, e))[k - (m + 1)] by {
                assert(all[k] == rest[k - 1]);
            }
            m + 1
        } else {
            assert(sentence_spans(p, e).skip(0) =~= sentence_spans(p, e));
            0
        }
    } else {
        assert(sentence_spans(p, e).skip(0) =~= sentence_spans(p, e));
        0
    }
}

/// Whether `p[a..b]` holds no space.
pub open spec fn unspaced(p: Seq<char>, a: int, b: int) -> bool {
    forall|k: int| a <= k < b ==> #[trigger] p[k] != ' '
}

/// Whether `p[a..b]` holds no weak punctuation.
pub open spec fn weakless(p: Seq<char>, a: int, b: int) -> bool {
    forall|k: int| a <= k < b ==> !is_weak(#[trigger] p[k])
}

/// A chunk fits in [`MAX_CHARS`] characters, unless there is no place to cut it: it then
/// holds no space at all, and what weak punctuation it holds comes too early, within the
/// first quarter of [`MAX_CHARS`], or too late, behind [`MAX_CHARS`].
pub proof fn law_chunk_size(p: Seq<char>, k: int)
    requires
        0 <= k < chunks(p).len(),
    ensures
        ({
            let t = chunks(p)[k].text;
            ||| t.len() <= MAX_CHARS
            ||| unspaced(t, 0, t.len() as int) && weakless(
                t,
                MAX_CHARS as int / 4,
                MAX_CHARS as int,
            )
        }),
{
    lemma_chunk_spans(p, 0);
    lemma_span_size(p, 0, k);
    let w = chunk_spans(p, 0)[k];
    let t = chunks(p)[k].text;
    if t.len() > MAX_CHARS {
        assert forall|j: int| 0 <= j < t.len() implies #[trigger] t[j] != ' ' by {
            assert(t[j] == p[j + w.0]);
        }
        assert forall|j: int| MAX_CHARS / 4 <= j < MAX_CHARS implies !is_weak(
            #[trigger] t[j],
        ) by {
            assert(t[j] == p[j + w.0]);
        }
    }
}

/// Whether the part `p[a..b]` fits or has no place to cut it.
spec fn sized_span(p: Seq<char>, a: int, b: int) -> bool {
    ||| b - a <= MAX_CHARS
    ||| unspaced(p, a, b) && weakless(p, a + MAX_CHARS / 4, a + MAX_CHARS)
}

proof fn lemma_span_size(p: Seq<char>, i: int, k: int)
    requires
        0 <= i <= p.len(),
        0 <= k < chunk_spans(p, i).len(),
    ensures
        ({
            let w = chunk_spans(p, i)[k];
            sized_span(p, w.0, w.1)
        }),
    decreases p.len() - i,
{
    lemma_sentence_end(p, i);
    let e = sentence_end(p, i);
    let w = chunk_spans(p, i)[k];
    if e - i > MAX_CHARS {
        let pieces = long_spans(p, i, i, e);
        let head = kept_all(p, pieces);
        if k < head.len() {
            lemma_long_tiles(p, i, i, e);
            lemma_tiles_concat(p, pieces, i, e);
            lemma_kept_all(p, pieces, i, e);
            lemma_chunk_spans(p, i);
            assert(w == head[k]);
            let j = choose|j: int|
                0 <= j < pieces.len() && head[k] == tight(p, (#[trigger] pieces[j]).0, pieces[j].1);
            let c = pieces[j];
            lemma_tight(p, c.0, c.1);
            lemma_tight(p, i, i);
            lemma_long_size(p, i, i, e, j);
        } else {
            assert(w == chunk_spans(p, e)[k - head.len()]);
            lemma_span_size(p, e, k - head.len());
        }
    } else {
        lemma_fit_end(p, i, e);
        let g = fit_end(p, i, e);
        let head = kept(p, i, g);
        if k < head.len() {
            lemma_tight(p, i, g);
            lemma_ws_end(p.subrange(i, e), 0);
            lemma_fit_size(p, i, e);
            let t = trim_start(p.subrange(i, g));
            lemma_text_end(t, t.len() as int);
            assert(w == tight(p, i, g));
        } else {
            assert(w == chunk_spans(p, g)[k - head.len()]);
            lemma_span_size(p, g, k - head.len());
        }
    }
}

/// Whether the piece `p[a..b]`, without white space at its ends, fits or has no place to
/// cut it.
spec fn sized(p: Seq<char>, a: int, b: int) -> bool {
    sized_span(p, tight(p, a, b).0, tight(p, a, b).1)
}

/// What is left of a part lies in what is left of the whole.
proof fn lemma_tight_within(p: Seq<char>, a: int, b: int, c: int, d: int)
    requires
        0 <= a <= c <= d <= b <= p.len(),
    ensures
        tight(p, c, d).0 < tight(p, c, d).1 ==> tight(p, a, b).0 <= tight(p, c, d).0 && tight(
            p,
            c,
            d,
        ).1 <= tight(p, a, b).1,
{
    lemma_tight(p, a, b);
    lemma_tight(p, c, d);
    let t = tight(p, c, d);
    if t.0 < t.1 {
        assert(!is_whitespace(p[t.0]) && !is_whitespace(p[t.1 - 1]));
    }
}

/// The last weak punctuation is the last one.
pub proof fn lemma_last_weak_is_last(p: Seq<char>, a: int, e: int)
    requires
        0 <= a <= e <= p.len(),
    ensures
        a <= last_weak(p, a, e) <= e,
        weakless(p, last_weak(p, a, e), e),
        a < last_weak(p, a, e) ==> is_weak(p[last_weak(p, a, e) - 1]),
    decreases e - a,
{
    if a < e && !is_weak(p[e - 1]) {
        lemma_last_weak_is_last(p, a, e - 1);
    }
}

/// Cutting a sized piece leaves two of them.
proof fn lemma_cut_sized(p: Seq<char>, a: int, w: int)
    requires
        0 <= a < w <= p.len(),
        sized(p, a, w),
    ensures
        a < cut_at(p, a, w) <= w,
        sized(p, a, cut_at(p, a, w)),
        sized(p, cut_at(p, a, w), w),
{
    lemma_cut_at(p, a, w);
    let c = cut_at(p, a, w);
    lemma_tight_within(p, a, w, a, c);
    lemma_tight_within(p, a, w, c, w);
    lemma_tight(p, a, w);
    lemma_tight(p, a, c);
    lemma_tight(p, c, w);
    let t = tight(p, a, w);
    let u = tight(p, a, c);
    let v = tight(p, c, w);
    if t.1 - t.0 > MAX_CHARS && c < w {
        let s = p.subrange(a, w);
        lemma_text_end(s, s.len() as int);
        lemma_last_weak_is_last(p, a, a + trim_end(s).len());
        assert(weakless(p, c, a + trim_end(s).len()));
        assert(!is_whitespace(p[t.0]));
        if u.0 < u.1 {
            // The first part starts where the whole does.
            assert(is_weak(p[c - 1]));
            assert(!is_whitespace(p[c - 1]));
            assert(t.0 <= c - 1);
            assert(u.0 <= t.0);
            assert(u.0 == t.0);
        }
        if v.1 - v.0 > MAX_CHARS {
            assert(!is_whitespace(p[v.1 - 1]));
            assert(v.1 <= a + trim_end(s).len()) by {
                if v.1 > a + trim_end(s).len() {
                    assert(s[v.1 - 1 - a] == p[v.1 - 1]);
                }
            }
            assert(weakless(p, v.0, v.1));
        }
    }
}

/// A word that is not cut is sized.
proof fn lemma_word_sized(p: Seq<char>, w: int, n: int)
    requires
        0 <= w < n <= p.len(),
        unspaced(p, w, n - 1),
    ensures
        word_cut(p, w, n) == n ==> sized(p, w, n),
        sized(p, w, word_cut(p, w, n)),
{
    let t = tight(p, w, n);
    lemma_tight(p, w, n);
    lemma_word_cut(p, w, n);
    assert(is_whitespace(' '));
    let c = word_cut(p, w, n);
    if t.1 - t.0 > MAX_CHARS {
        assert(!is_whitespace(p[t.1 - 1]));
        lemma_last_weak_is_last(p, t.0, t.0 + MAX_CHARS);
        if c < n {
            lemma_tight(p, w, c);
            lemma_tight_within(p, w, n, w, c);
        }
    }
}

/// Every piece of a long sentence is sized.
proof fn lemma_long_size(p: Seq<char>, a: int, w: int, e: int, j: int)
    requires
        0 <= a <= w <= e <= p.len(),
        sized(p, a, w),
        0 <= j < long_spans(p, a, w, e).len(),
    ensures
        ({
            let c = long_spans(p, a, w, e)[j];
            sized(p, c.0, c.1)
        }),
    decreases e - w, w - a,
{
    if w < e {
        lemma_find(p, ' ', w);
        let n = space_end(p, w, e);
        let all = long_spans(p, a, w, e);
        assert(unspaced(p, w, n - 1));
        lemma_word_cut(p, w, n);
        if a < w && n - a > MAX_CHARS {
            lemma_cut_sized(p, a, w);
            let c = cut_at(p, a, w);
            let next = if trim(p.subrange(c, n)).len() <= MAX_CHARS {
                n
            } else {
                w
            };
            assert(all =~= seq![(a, c)] + long_spans(p, c, next, e));
            if j > 0 {
                assert(all[j] == long_spans(p, c, next, e)[j - 1]);
                lemma_long_size(p, c, next, e, j - 1);
            }
        } else if a == w && word_cut(p, w, n) < n {
            let c = word_cut(p, w, n);
            assert(all =~= seq![(a, c)] + long_spans(p, c, c, e));
            lemma_word_sized(p, w, n);
            if j > 0 {
                assert(all[j] == long_spans(p, c, c, e)[j - 1]);
                lemma_tight(p, c, c);
                lemma_long_size(p, c, c, e, j - 1);
            }
        } else {
            if a == w {
                lemma_word_sized(p, w, n);
            } else {
                lemma_tight(p, a, n);
            }
            lemma_long_size(p, a, n, e, j);
        }
    }
}

/// A chunk of whole sentences fits.
proof fn lemma_fit_size(p: Seq<char>, i: int, e: int)
    requires
        0 <= i <= e <= p.len(),
        trim_start(p.subrange(i, e)).len() <= MAX_CHARS,
    ensures
        trim_start(p.subrange(i, fit_end(p, i, e))).len() <= MAX_CHARS,
    decreases p.len() - e,
{
    if e < p.len() {
        lemma_sentence_end(p, e);
        let n = sentence_end(p, e);
        if n - e <= MAX_CHARS && trim_start(p.subrange(i, e)).len() + (n - e) <= MAX_CHARS {
            lemma_ws_end(p.subrange(i, e), 0);
            lemma_ws_end(p.subrange(i, n), 0);
            let u = ws_end(p.subrange(i, e), 0);
            let v = ws_end(p.subrange(i, n), 0);
            if v < u {
                assert(p.subrange(i, n)[v] == p.subrange(i, e)[v]);
            }
            lemma_fit_size(p, i, n);
        }
    }
}

/// Behind a sentence that is not the last one comes no white space.
pub proof fn lemma_sentence_is_followed(p: Seq<char>, i: int)
    requires
        0 <= i < p.len(),
        sentence_end(p, i) < p.len(),
    ensures
        !is_whitespace(p[sentence_end(p, i)]),
    decreases p.len() - i,
{
    if is_ender(p[i]) {
        lemma_closers_end(p, i + 1);
        let j = closers_end(p, i + 1);
        if j >= p.len() || is_whitespace(p[j]) {
            lemma_ws_end(p, j);
        } else {
            lemma_sentence_is_followed(p, j);
        }
    } else if i + 1 < p.len() {
        lemma_sentence_is_followed(p, i + 1);
    } else {
        reveal_with_fuel(sentence_end, 2);
    }
}

/// Where a chunk that starts with the sentences `p[i..e]` ends before the text does, the
/// sentence that follows does not fit, and no white space comes before it.
proof fn lemma_fit_is_maximal(p: Seq<char>, i: int, e: int)
    requires
        0 <= i <= e <= p.len(),
        fit_end(p, i, e) < p.len(),
        !is_whitespace(p[e]),
    ensures
        ({
            let g = fit_end(p, i, e);
            let n = sentence_end(p, g);
            &&& !is_whitespace(p[g])
            &&& n - g > MAX_CHARS || trim_start(p.subrange(i, g)).len() + (n - g) > MAX_CHARS
        }),
    decreases p.len() - e,
{
    lemma_sentence_end(p, e);
    let n = sentence_end(p, e);
    if n - e <= MAX_CHARS && trim_start(p.subrange(i, e)).len() + (n - e) <= MAX_CHARS {
        lemma_fit_end(p, i, n);
        lemma_sentence_is_followed(p, e);
        lemma_fit_is_maximal(p, i, n);
    }
}

/// Whether every sentence of `p` from `i` on fits in a chunk.
pub open spec fn sentences_fit(p: Seq<char>, i: int) -> bool {
    forall|n: int|
        0 <= n < sentence_spans(p, i).len() ==> (#[trigger] sentence_spans(p, i)[n]).1
            - sentence_spans(p, i)[n].0 <= MAX_CHARS
}

/// [`law_packing_is_maximal`] for the chunks from the sentence at `i` on.
#[verifier::rlimit(40)]
#[verifier::spinoff_prover]
proof fn lemma_packing(p: Seq<char>, i: int, k: int) -> (m: int)
    requires
        0 <= i <= p.len(),
        sentences_fit(p, i),
        0 <= k && k + 1 < chunk_spans(p, i).len(),
    ensures
        0 <= m < sentence_spans(p, i).len(),
        ({
            let s = sentence_spans(p, i)[m];
            let next = chunk_spans(p, i)[k + 1];
            &&& next.0 == s.0
            &&& tight(p, s.0, s.1).1 <= next.1
            &&& s.1 - chunk_spans(p, i)[k].0 > MAX_CHARS
        }),
    decreases p.len() - i,
{
    lemma_sentence_end(p, i);
    let e = sentence_end(p, i);
    let all = sentence_spans(p, i);
    assert(all =~= seq![(i, e)] + sentence_spans(p, e));
    assert(all[0] == (i, e));
    lemma_fit_end(p, i, e);
    let g = fit_end(p, i, e);
    let m = lemma_fit_sentences(p, i, e);
    let rest = sentence_spans(p, g);
    assert(rest == sentence_spans(p, e).skip(m));
    assert forall|n: int| 0 <= n < rest.len() implies (#[trigger] rest[n]).1 - rest[n].0
        <= MAX_CHARS by {
        assert(rest[n] == all[n + m + 1]);
    }
    let head = kept(p, i, g);
    let spans = chunk_spans(p, i);
    assert(spans == head + chunk_spans(p, g));
    if k < head.len() {
        assert(k == 0 && head.len() == 1);
        let later = chunk_spans(p, g);
        assert(spans[1] == later[0]);
        assert(g < p.len());
        lemma_sentence_is_followed_at(p, i, e);
        lemma_fit_is_maximal(p, i, e);
        lemma_sentence_end(p, g);
        let n = sentence_end(p, g);
        assert(rest[0] == (g, n));
        assert(all[m + 1] == (g, n));
        lemma_fit_end(p, g, n);
        let h = fit_end(p, g, n);
        lemma_tight(p, g, h);
        lemma_tight(p, g, n);
        let t = tight(p, g, h);
        assert(t.0 <= g < t.1);
        assert(later[0] == t);
        let u = tight(p, g, n);
        assert(!is_whitespace(p[u.1 - 1]));
        lemma_ws_end(p.subrange(i, g), 0);
        m + 1
    } else {
        let j = lemma_packing(p, g, k - head.len());
        assert(spans[k] == chunk_spans(p, g)[k - head.len()]);
        assert(spans[k + 1] == chunk_spans(p, g)[k + 1 - head.len()]);
        assert(rest[j] == all[j + m + 1]);
        j + m + 1
    }
}

/// Behind the first sentence of a chunk that ends before the text does comes no white
/// space.
proof fn lemma_sentence_is_followed_at(p: Seq<char>, i: int, e: int)
    requires
        0 <= i < p.len(),
        e == sentence_end(p, i),
        fit_end(p, i, e) < p.len(),
    ensures
        e < p.len(),
        !is_whitespace(p[e]),
{
    lemma_sentence_end(p, i);
    lemma_fit_end(p, i, e);
    lemma_sentence_is_followed(p, i);
}

/// A chunk holds as many sentences as fit. Where all sentences of a paragraph fit, the
/// chunk behind chunk `k` starts with a whole sentence, the one at place `m`, and chunk
/// `k` with that sentence, and the white space between and behind them, would be longer
/// than [`MAX_CHARS`].
pub proof fn law_packing_is_maximal(p: Seq<char>, k: int) -> (m: int)
    requires
        sentences_fit(p, 0),
        0 <= k && k + 1 < chunks(p).len(),
    ensures
        0 <= m < sentence_spans(p, 0).len(),
        ({
            let sentence = trim(cuts(p, sentence_spans(p, 0))[m]);
            &&& sentence.is_prefix_of(chunks(p)[k + 1].text)
            &&& chunk_spans(p, 0)[k + 1].0 == sentence_spans(p, 0)[m].0
            &&& sentence_spans(p, 0)[m].1 - chunk_spans(p, 0)[k].0 > MAX_CHARS
        }),
{
    let m = lemma_packing(p, 0, k);
    lemma_chunk_spans(p, 0);
    lemma_sentence_tiles(p, 0);
    lemma_tiles_concat(p, sentence_spans(p, 0), 0, p.len() as int);
    let s = sentence_spans(p, 0)[m];
    let next = chunk_spans(p, 0)[k + 1];
    lemma_tight(p, s.0, s.1);
    let t = tight(p, s.0, s.1);
    assert(!is_whitespace(p[s.0]));
    let sentence = trim(cuts(p, sentence_spans(p, 0))[m]);
    let text = chunks(p)[k + 1].text;
    assert(sentence == p.subrange(t.0, t.1));
    assert(sentence =~= text.subrange(0, sentence.len() as int));
    m
}

} // verus!
