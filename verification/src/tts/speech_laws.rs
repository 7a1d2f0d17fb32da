//! Who gets which answer of the backend.

use crate::text::{
    concat, is_whitespace, join, lemma_concat_add, lemma_spans, lemma_trim_same, trim, words,
};
use crate::tts::clauses::{
    clauses, items, piece_rows, piece_texts, second_lines, settled, sounds, text_count, voiced,
};
use crate::tts::phonemize::{
    asked, asked_again, fixed, normalized, phonemized, pieces, plain_text, Lang,
};
use crate::tts::phonemize_laws::{
    clause_pieces, is_word, law_clauses_hold_text, law_normalize_keeps_words, law_pieces_alternate,
    law_pieces_rebuild, lemma_plain_spans, lemma_text_pieces_add, lemma_word_share,
    lemma_words_are_words, lemma_words_of_join, text_pieces,
};
use vstd::prelude::*;

verus! {

// ------------------------------------------------------------------------- single pieces

/// The first clauses ask for the first lines, and get the first phonemes.
proof fn lemma_first_clauses(
    cl: Seq<Seq<Seq<char>>>,
    first: Seq<Seq<char>>,
    second: Seq<Seq<char>>,
    k: int,
)
    requires
        0 <= k <= cl.len(),
        second_lines(cl, first).len() <= second.len(),
    ensures
        second_lines(cl.take(k), first).is_prefix_of(second_lines(cl, first)),
        clause_pieces(cl.take(k)).is_prefix_of(clause_pieces(cl)),
        sounds(cl.take(k), first, second).is_prefix_of(sounds(cl, first, second)),
        sounds(cl, first, second).len() == clause_pieces(cl).len(),
        sounds(cl.take(k), first, second).len() == clause_pieces(cl.take(k)).len(),
    decreases cl.len(),
{
    if k < cl.len() {
        let init = cl.drop_last();
        assert(init.take(k) =~= cl.take(k));
        lemma_first_clauses(init, first, second, k);
    } else {
        assert(cl.take(k) =~= cl);
        if k > 0 {
            lemma_first_clauses(cl.drop_last(), first, second, k - 1);
        }
    }
}

/// Every piece of text is spoken with what the backend gave for it. Take piece `j` of
/// clause `k`; it is the text piece at place `i`. A clause of one piece is spoken with the
/// line of the first pass. A clause of several with as many words in its line takes them
/// one by one. Otherwise the second pass asks for the piece on a line of its own, line `a`,
/// which comes behind the lines of the clauses before it, and the piece is spoken with the
/// answer to that line.
pub proof fn law_each_piece_gets_its_own_answer(
    cl: Seq<Seq<Seq<char>>>,
    first: Seq<Seq<char>>,
    second: Seq<Seq<char>>,
    k: int,
    j: int,
) -> (r: (int, int))
    requires
        0 <= k < cl.len(),
        0 <= j < cl[k].len(),
        first.len() == cl.len(),
        second.len() == second_lines(cl, first).len(),
    ensures
        ({
            let (i, a) = r;
            let ph = sounds(cl, first, second);
            &&& ph.len() == clause_pieces(cl).len()
            &&& i == clause_pieces(cl.take(k)).len() + j
            &&& 0 <= i < ph.len()
            &&& clause_pieces(cl)[i] == cl[k][j]
            &&& cl[k].len() == 1 ==> ph[i] == first[k]
            &&& cl[k].len() > 1 && words(first[k]).len() == cl[k].len() ==> ph[i] == words(
                first[k],
            )[j]
            &&& cl[k].len() > 1 && words(first[k]).len() != cl[k].len() ==> {
                &&& a == second_lines(cl.take(k), first).len() + j
                &&& 0 <= a < second.len()
                &&& second_lines(cl, first)[a] == cl[k][j]
                &&& ph[i] == second[a]
            }
        }),
{
    let next = cl.take(k + 1);
    assert(next.drop_last() =~= cl.take(k));
    assert(next.last() == cl[k]);
    lemma_first_clauses(cl, first, second, k);
    lemma_first_clauses(cl, first, second, k + 1);
    let i = clause_pieces(cl.take(k)).len() + j;
    let a = second_lines(cl.take(k), first).len() + j;
    assert(clause_pieces(next)[i] == cl[k][j]);
    assert(clause_pieces(cl)[i] == clause_pieces(next)[i]);
    assert(sounds(cl, first, second)[i] == sounds(next, first, second)[i]);
    if settled(cl[k], first[k]) is None {
        assert(second_lines(next, first)[a] == cl[k][j]);
        assert(second_lines(cl, first)[a] == second_lines(next, first)[a]);
    }
    (i, a)
}

/// A clause is asked again exactly where the first pass gave another number of words than
/// it has pieces, and it has more than one: clause `k` then adds its pieces, each on a
/// line, to what the second pass asks for. Otherwise it adds nothing.
pub proof fn law_only_misread_clauses_are_asked_again(
    cl: Seq<Seq<Seq<char>>>,
    first: Seq<Seq<char>>,
    k: int,
)
    requires
        0 <= k < cl.len(),
        first.len() == cl.len(),
    ensures
        second_lines(cl.take(0), first).len() == 0,
        second_lines(cl.take(cl.len() as int), first) == second_lines(cl, first),
        second_lines(cl.take(k + 1), first) == if cl[k].len() != 1 && words(first[k]).len()
            != cl[k].len() {
            second_lines(cl.take(k), first) + cl[k]
        } else {
            second_lines(cl.take(k), first)
        },
{
    let next = cl.take(k + 1);
    assert(next.drop_last() =~= cl.take(k));
    assert(next.last() == cl[k]);
    assert(cl.take(cl.len() as int) =~= cl);
}

// --------------------------------------------------------------------------- whole texts

/// There are as many text pieces as are counted.
proof fn lemma_text_pieces_len(ps: Seq<(Seq<char>, bool)>)
    ensures
        text_pieces(ps).len() == text_count(ps),
    decreases ps.len(),
{
    if ps.len() > 0 {
        lemma_text_pieces_len(ps.drop_last());
    }
}

/// The text pieces of word `k` among those of all words.
proof fn lemma_word_slice(ws: Seq<Seq<(Seq<char>, bool)>>, k: int)
    requires
        0 <= k < ws.len(),
    ensures
        ({
            let f = text_count(items(ws.take(k))) as int;
            let n = text_count(ws[k]) as int;
            &&& f + n <= text_pieces(items(ws)).len()
            &&& text_pieces(items(ws)).subrange(f, f + n) == text_pieces(ws[k])
        }),
    decreases ws.len(),
{
    let init = ws.drop_last();
    lemma_text_pieces_add(items(init), ws.last());
    lemma_text_pieces_len(items(ws));
    lemma_text_pieces_len(items(init));
    lemma_text_pieces_len(ws[k]);
    lemma_word_share(ws, k);
    let f = text_count(items(ws.take(k))) as int;
    let n = text_count(ws[k]) as int;
    let all = text_pieces(items(ws));
    if k < init.len() {
        lemma_word_slice(init, k);
        assert(init.take(k) =~= ws.take(k));
        assert(init[k] == ws[k]);
        assert(all.subrange(f, f + n) =~= text_pieces(items(init)).subrange(f, f + n));
    } else {
        assert(ws.take(k) =~= init);
        assert(all.subrange(f, f + n) =~= text_pieces(ws[k]));
    }
}

/// A word whose text pieces are spoken as they are written is the word.
proof fn lemma_voiced_same(ps: Seq<(Seq<char>, bool)>, ph: Seq<Seq<char>>, f: int)
    requires
        0 <= f,
        f + text_count(ps) <= ph.len(),
        ph.subrange(f, f + text_count(ps)) == text_pieces(ps),
    ensures
        voiced(ps, ph, f) == concat(piece_texts(ps)),
    decreases ps.len(),
{
    if ps.len() > 0 {
        let init = ps.drop_last();
        lemma_text_pieces_len(ps);
        lemma_text_pieces_len(init);
        let part = ph.subrange(f, f + text_count(ps));
        assert(ph.subrange(f, f + text_count(init)) =~= text_pieces(init)) by {
            assert forall|i: int| 0 <= i < text_count(init) implies #[trigger] ph[f + i]
                == text_pieces(init)[i] by {
                assert(part[i] == text_pieces(ps)[i]);
            }
        }
        lemma_voiced_same(init, ph, f);
        assert(piece_texts(ps).drop_last() =~= piece_texts(init));
        if !ps.last().1 {
            assert(part[text_count(init) as int] == ps.last().0);
        }
    } else {
        assert(piece_texts(ps) =~= Seq::empty());
    }
}

/// The text pieces of words are words.
pub proof fn lemma_text_pieces_are_words(ws: Seq<Seq<char>>, rows: Seq<Seq<(Seq<char>, bool)>>)
    requires
        rows.len() == ws.len(),
        forall|k: int| 0 <= k < ws.len() ==> is_word(#[trigger] ws[k]) && rows[k] == pieces(ws[k]),
    ensures
        forall|i: int|
            0 <= i < text_pieces(items(rows)).len() ==> is_word(
                #[trigger] text_pieces(items(rows))[i],
            ),
    decreases ws.len(),
{
    if ws.len() > 0 {
        let w = ws.last();
        assert(w == ws[ws.len() - 1]);
        assert forall|k: int| 0 <= k < ws.drop_last().len() implies is_word(
            #[trigger] ws.drop_last()[k],
        ) && rows.drop_last()[k] == pieces(ws.drop_last()[k]) by {
            assert(ws.drop_last()[k] == ws[k]);
        }
        lemma_text_pieces_are_words(ws.drop_last(), rows.drop_last());
        lemma_text_pieces_add(items(rows.drop_last()), pieces(w));
        assert(pieces(w).take(pieces(w).len() as int) =~= pieces(w));
        lemma_parts_are_words(w, pieces(w));
    }
}

/// The text pieces among pieces that make up a part of a word are words.
proof fn lemma_parts_are_words(w: Seq<char>, ps: Seq<(Seq<char>, bool)>)
    requires
        is_word(w),
        ps.len() <= pieces(w).len(),
        ps == pieces(w).take(ps.len() as int),
    ensures
        forall|i: int| 0 <= i < text_pieces(ps).len() ==> is_word(#[trigger] text_pieces(ps)[i]),
    decreases ps.len(),
{
    if ps.len() > 0 {
        let n = ps.len() - 1;
        let init = ps.drop_last();
        assert(init =~= pieces(w).take(n));
        lemma_parts_are_words(w, init);
        law_pieces_alternate(w, n);
        law_pieces_rebuild(w);
        let texts = piece_texts(pieces(w));
        assert(texts =~= texts.take(n) + seq![texts[n]] + texts.skip(n + 1));
        lemma_concat_add(texts.take(n) + seq![texts[n]], texts.skip(n + 1));
        lemma_concat_add(texts.take(n), seq![texts[n]]);
        let z = texts[n];
        assert(concat(seq![z]) =~= z) by {
            reveal_with_fuel(concat, 2);
        }
        let b = concat(texts.take(n)).len();
        assert forall|k: int| 0 <= k < z.len() implies !is_whitespace(#[trigger] z[k]) by {
            assert(w[b + k] == z[k]);
        }
        assert(ps.last() == pieces(w)[n]);
        assert forall|i: int| 0 <= i < text_pieces(ps).len() implies is_word(
            #[trigger] text_pieces(ps)[i],
        ) by {
            if i < text_pieces(init).len() {
                assert(text_pieces(ps)[i] == text_pieces(init)[i]);
            }
        }
    }
}

/// Clauses whose lines come back as they are, in the first pass or in the second, are
/// spoken as they are written.
proof fn lemma_echoed(
    cl: Seq<Seq<Seq<char>>>,
    first: Seq<Seq<char>>,
    second: Seq<Seq<char>>,
)
    requires
        cl.len() <= first.len(),
        second_lines(cl, first).is_prefix_of(second),
        forall|k: int, j: int|
            0 <= k < cl.len() && 0 <= j < cl[k].len() ==> is_word(#[trigger] cl[k][j]),
        forall|k: int|
            0 <= k < cl.len() ==> first[k] == join(#[trigger] cl[k], seq![' ']) || cl[k].len() > 1
                && words(first[k]).len() != cl[k].len(),
    ensures
        sounds(cl, first, second) == clause_pieces(cl),
    decreases cl.len(),
{
    if cl.len() > 0 {
        let init = cl.drop_last();
        let n = cl.len() - 1;
        let c = cl[n];
        assert(c == cl.last());
        assert forall|k: int| 0 <= k < init.len() implies first[k] == join(
            #[trigger] init[k],
            seq![' '],
        ) || init[k].len() > 1 && words(first[k]).len() != init[k].len() by {
            assert(init[k] == cl[k]);
        }
        assert forall|k: int, j: int| 0 <= k < init.len() && 0 <= j < init[k].len() implies is_word(
            #[trigger] init[k][j],
        ) by {
            assert(init[k] == cl[k]);
            assert(is_word(cl[k][j]));
        }
        assert(second_lines(init, first).is_prefix_of(second_lines(cl, first)));
        lemma_echoed(init, first, second);
        if first[n] == join(c, seq![' ']) {
            assert forall|j: int| 0 <= j < c.len() implies is_word(#[trigger] c[j]) by {
                assert(is_word(cl[n][j]));
            }
            lemma_words_of_join(c);
            if c.len() == 1 {
                assert(seq![first[n]] =~= c);
            }
        } else {
            let r = second_lines(init, first).len() as int;
            assert(second_lines(cl, first) == second_lines(init, first) + c);
            assert(second_lines(cl, first).len() == r + c.len());
            let part = second.subrange(r, r + c.len());
            assert forall|j: int| 0 <= j < c.len() implies #[trigger] part[j] == c[j] by {
                assert(second_lines(cl, first)[r + j] == c[j]);
                assert(second_lines(cl, first)[r + j] == second[r + j]);
            }
            assert(part =~= c);
        }
        assert(sounds(cl, first, second) =~= clause_pieces(cl));
    }
}

/// A backend that gives every line back as it is gives back the words of the text, each in
/// its place and with its punctuation, though it may misread clauses in the first pass. A
/// line that it misreads has several words, and it makes of them another number of words;
/// such a clause comes back from the second pass.
pub proof fn law_an_echo_gives_the_words_back(
    text: Seq<char>,
    lang: Lang,
    first: Seq<Seq<char>>,
    second: Seq<Seq<char>>,
)
    requires
        first.len() == asked(text).len(),
        forall|i: int|
            0 <= i < first.len() ==> #[trigger] first[i] == asked(text)[i] || words(
                asked(text)[i],
            ).len() > 1 && words(first[i]).len() != words(asked(text)[i]).len(),
        second == asked_again(text, first),
    ensures
        phonemized(text, lang, first, second).per_word matches Some(per_word) && {
            &&& per_word.len() == words(text).len()
            &&& forall|k: int|
                0 <= k < per_word.len() ==> #[trigger] per_word[k] == fixed(
                    plain_text(words(text)[k]),
                    lang,
                )
        },
{
    law_normalize_keeps_words(text);
    let plain = normalized(text);
    let ws = piece_rows(plain);
    let cl = clauses(ws);
    let all = text_pieces(items(ws));
    lemma_words_are_words(plain);
    lemma_text_pieces_are_words(words(plain), ws);
    law_clauses_hold_text(ws);
    assert(clause_pieces(cl) == all);
    assert forall|k: int, j: int| 0 <= k < cl.len() && 0 <= j < cl[k].len() implies is_word(
        #[trigger] cl[k][j],
    ) by {
        lemma_clause_place(cl, k);
        let i = clause_pieces(cl.take(k)).len() + j;
        assert(clause_pieces(cl).subrange(i - j, i - j + cl[k].len())[j] == cl[k][j]);
        assert(is_word(all[i]));
    }
    assert forall|k: int| 0 <= k < cl.len() implies first[k] == join(#[trigger] cl[k], seq![' '])
        || cl[k].len() > 1 && words(first[k]).len() != cl[k].len() by {
        assert(asked(text)[k] == join(cl[k], seq![' ']));
        assert forall|j: int| 0 <= j < cl[k].len() implies is_word(#[trigger] cl[k][j]) by {}
        lemma_words_of_join(cl[k]);
        assert(first[k] == asked(text)[k] || words(asked(text)[k]).len() > 1);
    }
    lemma_echoed(cl, first, second);
    let per_word = phonemized(text, lang, first, second).per_word->0;
    assert forall|k: int| 0 <= k < per_word.len() implies #[trigger] per_word[k] == fixed(
        plain_text(words(text)[k]),
        lang,
    ) by {
        let w = words(plain)[k];
        lemma_word_slice(ws, k);
        lemma_voiced_same(ws[k], all, text_count(items(ws.take(k))) as int);
        law_pieces_rebuild(w);
        assert(is_word(w));
        lemma_trim_same(w);
        lemma_plain_spans(text, 0);
        lemma_spans(text, 0);
        assert(words(plain_text(text))[k] =~= plain_text(words(text)[k]));
    }
}

/// Where the pieces of clause `k` stand among those of all clauses.
pub proof fn lemma_clause_place(cl: Seq<Seq<Seq<char>>>, k: int)
    requires
        0 <= k < cl.len(),
    ensures
        ({
            let n = clause_pieces(cl.take(k)).len() as int;
            &&& n + cl[k].len() <= clause_pieces(cl).len()
            &&& clause_pieces(cl).subrange(n, n + cl[k].len()) == cl[k]
        }),
    decreases cl.len(),
{
    let init = cl.drop_last();
    let n = clause_pieces(cl.take(k)).len() as int;
    if k < init.len() {
        lemma_clause_place(init, k);
        assert(init.take(k) =~= cl.take(k));
        assert(init[k] == cl[k]);
        assert(clause_pieces(cl).subrange(n, n + cl[k].len()) =~= clause_pieces(init).subrange(
            n,
            n + cl[k].len(),
        ));
    } else {
        assert(cl.take(k) =~= init);
        assert(clause_pieces(cl).subrange(n, n + cl[k].len()) =~= cl[k]);
    }
}

// --------------------------------------------------------------------------- other answers

/// The pieces of a word as they are spoken: punctuation stays as it is, and the text pieces
/// take their phonemes in turn, the first one `ph[f]`.
pub open spec fn spoken(ps: Seq<(Seq<char>, bool)>, ph: Seq<Seq<char>>, f: int) -> Seq<Seq<char>> {
    Seq::new(
        ps.len(),
        |j: int|
            if ps[j].1 {
                ps[j].0
            } else {
                ph[f + text_count(ps.take(j))]
            },
    )
}

/// A word is spoken piece by piece.
proof fn lemma_spoken(ps: Seq<(Seq<char>, bool)>, ph: Seq<Seq<char>>, f: int)
    ensures
        voiced(ps, ph, f) == concat(spoken(ps, ph, f)),
    decreases ps.len(),
{
    if ps.len() > 0 {
        let init = ps.drop_last();
        lemma_spoken(init, ph, f);
        let all = spoken(ps, ph, f);
        assert forall|j: int| 0 <= j < init.len() implies #[trigger] all[j] == spoken(
            init,
            ph,
            f,
        )[j] by {
            assert(init[j] == ps[j]);
            assert(init.take(j) =~= ps.take(j));
        }
        assert(all.drop_last() =~= spoken(init, ph, f));
        assert(ps.take(ps.len() - 1) =~= init);
    } else {
        assert(spoken(ps, ph, f) =~= Seq::empty());
    }
}

/// Whatever the backend answers, a word of an aligned text is spoken as its pieces are, one
/// after the other and with nothing between them: its punctuation, and in place of each
/// piece of text what was given for that piece, white space within it included.
pub proof fn law_words_are_spoken_piece_by_piece(
    text: Seq<char>,
    lang: Lang,
    first: Seq<Seq<char>>,
    second: Seq<Seq<char>>,
    k: int,
)
    requires
        phonemized(text, lang, first, second).per_word is Some,
        0 <= k < words(text).len(),
    ensures
        ({
            let ws = piece_rows(normalized(text));
            let ph = sounds(clauses(ws), first, second);
            let f = text_count(items(ws.take(k))) as int;
            let w = words(normalized(text))[k];
            phonemized(text, lang, first, second).per_word->0[k] == fixed(
                trim(concat(spoken(pieces(w), ph, f))),
                lang,
            )
        }),
{
    law_normalize_keeps_words(text);
    let ws = piece_rows(normalized(text));
    let ph = sounds(clauses(ws), first, second);
    lemma_spoken(ws[k], ph, text_count(items(ws.take(k))) as int);
}

/// A backend that gives another number of lines than it was asked for cannot be trusted
/// with the words: what it said is kept, its lines joined by spaces, and no word has
/// phonemes of its own. As many lines as were asked for always give every word its own.
pub proof fn law_miscounted_answers_are_not_aligned(
    text: Seq<char>,
    lang: Lang,
    first: Seq<Seq<char>>,
    second: Seq<Seq<char>>,
)
    ensures
        first.len() != asked(text).len() ==> {
            &&& phonemized(text, lang, first, second).per_word is None
            &&& phonemized(text, lang, first, second).phonemes == fixed(
                join(first, seq![' ']),
                lang,
            )
        },
        first.len() == asked(text).len() && second.len() != asked_again(text, first).len() ==> {
            &&& phonemized(text, lang, first, second).per_word is None
            &&& phonemized(text, lang, first, second).phonemes == fixed(
                join(second, seq![' ']),
                lang,
            )
        },
        first.len() == asked(text).len() && second.len() == asked_again(text, first).len()
            ==> phonemized(text, lang, first, second).per_word is Some,
{
}

} // verus!
