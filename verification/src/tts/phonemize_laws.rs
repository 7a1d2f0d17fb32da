//! What holds of phonemizing, whatever the backend answers.

use crate::text::edit::replace;
use crate::text::{
    concat, is_whitespace, join, lemma_concat_front, lemma_spans, lemma_trim, lemma_word_end,
    spans_from, trim, word_end, words, ws_end,
};
use crate::tts::clauses::{
    clauses, clauses_from, items, lemma_clauses_size, lemma_run_end, lemma_sounds_len,
    lemma_text_count_add, piece_rows, piece_texts, run_end, second_lines, settled, sounds,
    text_count, voiced,
};
use crate::tts::phonemize::{
    fixed, is_punct, joined_plurals, lemma_piece_end, model_symbols, normalized, phonemized,
    piece_end, pieces, pieces_from, plain, plain_text, without_ties, Lang,
};
use vstd::prelude::*;

verus! {

/// A word for [`words`]: not empty, and without white space.
pub open spec fn is_word(w: Seq<char>) -> bool {
    w.len() > 0 && forall|k: int| 0 <= k < w.len() ==> !is_whitespace(#[trigger] w[k])
}

/// The words of a text are words.
pub proof fn lemma_words_are_words(s: Seq<char>)
    ensures
        forall|i: int| 0 <= i < words(s).len() ==> is_word(#[trigger] words(s)[i]),
{
    lemma_spans(s, 0);
    assert forall|i: int| 0 <= i < words(s).len() implies is_word(#[trigger] words(s)[i]) by {
        let sp = spans_from(s, 0)[i];
        lemma_word_end(s, sp.0);
        let w = words(s)[i];
        assert forall|k: int| 0 <= k < w.len() implies !is_whitespace(#[trigger] w[k]) by {
            assert(w[k] == s[sp.0 + k]);
        }
    }
}

/// Where a word ends does not depend on what comes after the white space behind it.
proof fn lemma_word_end_before(t: Seq<char>, s: Seq<char>, i: int)
    requires
        0 <= i <= s.len() < t.len(),
        t.take(s.len() as int) == s,
        is_whitespace(t[s.len() as int]),
    ensures
        word_end(t, i) == word_end(s, i),
    decreases s.len() - i,
{
    if i < s.len() {
        assert(t[i] == t.take(s.len() as int)[i]);
        if !is_whitespace(s[i]) {
            lemma_word_end_before(t, s, i + 1);
        }
    }
}

/// A word alone is one span.
proof fn lemma_last_span(t: Seq<char>, i: int)
    requires
        0 <= i < t.len(),
        forall|k: int| i <= k < t.len() ==> !is_whitespace(#[trigger] t[k]),
    ensures
        spans_from(t, i) == seq![(i, t.len() as int)],
{
    lemma_word_end(t, i);
    assert(word_end(t, i) == t.len());
    assert(spans_from(t, t.len() as int) =~= Seq::empty());
    assert(spans_from(t, i) =~= seq![(i, t.len() as int)]);
}

/// A text, a space and a word have the spans of the text and that of the word.
proof fn lemma_spans_append(s: Seq<char>, w: Seq<char>, i: int)
    requires
        0 <= i <= s.len(),
        is_word(w),
    ensures
        spans_from(s + seq![' '] + w, i) == spans_from(s, i).push(
            (s.len() + 1int, s.len() + 1int + w.len()),
        ),
    decreases s.len() - i,
{
    let t = s + seq![' '] + w;
    let last = (s.len() + 1int, s.len() + 1int + w.len());
    assert(t.take(s.len() as int) =~= s);
    assert(t[s.len() as int] == ' ');
    if i < s.len() {
        assert(t[i] == s[i]);
        if is_whitespace(s[i]) {
            lemma_spans_append(s, w, i + 1);
        } else {
            lemma_word_end(s, i);
            lemma_word_end_before(t, s, i);
            let e = word_end(s, i);
            lemma_spans_append(s, w, e);
            assert(seq![(i, e)] + spans_from(s, e).push(last) =~= (seq![(i, e)] + spans_from(s, e)).push(last));
        }
    } else {
        assert forall|k: int| i + 1 <= k < t.len() implies !is_whitespace(#[trigger] t[k]) by {
            assert(t[k] == w[k - i - 1]);
        }
        lemma_last_span(t, i + 1);
        assert(spans_from(t, i) == spans_from(t, i + 1));
        assert(spans_from(s, i) =~= Seq::empty());
        assert(spans_from(t, i) =~= spans_from(s, i).push(last));
    }
}

/// Words that are joined by spaces can be told apart again.
pub proof fn lemma_words_of_join(ws: Seq<Seq<char>>)
    requires
        forall|i: int| 0 <= i < ws.len() ==> is_word(#[trigger] ws[i]),
    ensures
        words(join(ws, seq![' '])) == ws,
    decreases ws.len(),
{
    let t = join(ws, seq![' ']);
    if ws.len() == 0 {
        assert(words(t) =~= ws);
    } else if ws.len() == 1 {
        assert(t == ws[0]);
        lemma_last_span(t, 0);
        assert(t.subrange(0, t.len() as int) =~= t);
        assert(words(t) =~= ws);
    } else {
        let init = ws.drop_last();
        assert forall|i: int| 0 <= i < init.len() implies is_word(#[trigger] init[i]) by {
            assert(init[i] == ws[i]);
        }
        lemma_words_of_join(init);
        let s = join(init, seq![' ']);
        let w = ws.last();
        lemma_spans_append(s, w, 0);
        lemma_spans(s, 0);
        assert forall|k: int| 0 <= k < ws.len() implies #[trigger] words(t)[k] == ws[k] by {
            let sp = spans_from(t, 0)[k];
            if k < init.len() {
                assert(words(s).len() == init.len());
                assert(sp == spans_from(s, 0)[k]);
                assert(words(s)[k] == init[k]);
                assert(t.subrange(sp.0, sp.1) =~= s.subrange(sp.0, sp.1));
            } else {
                assert(t.subrange(sp.0, sp.1) =~= w);
            }
        }
        assert(words(s).len() == spans_from(s, 0).len());
        assert(words(t) =~= ws);
    }
}

/// White space stays white space, and nothing else becomes it.
proof fn lemma_plain_space(c: char)
    ensures
        is_whitespace(plain(c)) == is_whitespace(c),
        plain(plain(c)) == plain(c),
{
}

/// Making characters plain moves no word.
pub proof fn lemma_plain_spans(s: Seq<char>, i: int)
    requires
        0 <= i <= s.len(),
    ensures
        spans_from(plain_text(s), i) == spans_from(s, i),
        word_end(plain_text(s), i) == word_end(s, i),
    decreases s.len() - i,
{
    if i < s.len() {
        lemma_plain_space(s[i]);
        assert(plain_text(s)[i] == plain(s[i]));
        lemma_plain_spans(s, i + 1);
        if !is_whitespace(s[i]) {
            lemma_word_end(s, i);
            lemma_plain_spans(s, word_end(s, i));
        }
    }
}

/// Normalizing keeps the number of words.
pub proof fn law_normalize_keeps_words(s: Seq<char>)
    ensures
        words(normalized(s)).len() == words(s).len(),
        words(normalized(s)) == words(plain_text(s)),
{
    lemma_words_are_words(plain_text(s));
    lemma_words_of_join(words(plain_text(s)));
    lemma_plain_spans(s, 0);
}

/// Normalized text is not changed by normalizing it again.
pub proof fn law_normalize_twice(s: Seq<char>)
    ensures
        normalized(normalized(s)) == normalized(s),
{
    let p = plain_text(s);
    lemma_words_are_words(p);
    lemma_words_of_join(words(p));
    let t = normalized(s);
    assert forall|k: int| 0 <= k < s.len() implies plain_text(p)[k] == p[k] by {
        lemma_plain_space(s[k]);
    }
    assert(plain_text(p) =~= p);
    assert(words(p).take(words(p).len() as int) =~= words(p));
    lemma_join_plain(words(p), p);
    assert(plain_text(t) =~= t);
}

/// The words of a plain text are plain, and so is the text that they are joined to.
proof fn lemma_join_plain(ws: Seq<Seq<char>>, p: Seq<char>)
    requires
        ws.len() <= words(p).len(),
        ws == words(p).take(ws.len() as int),
        plain_text(p) == p,
    ensures
        forall|k: int|
            0 <= k < join(ws, seq![' ']).len() ==> plain(#[trigger] join(ws, seq![' '])[k])
                == join(ws, seq![' '])[k],
    decreases ws.len(),
{
    if ws.len() > 0 {
        let t = join(ws, seq![' ']);
        let w = ws.last();
        lemma_spans(p, 0);
        let sp = spans_from(p, 0)[ws.len() - 1];
        assert(w == words(p)[ws.len() - 1]);
        assert forall|k: int| 0 <= k < w.len() implies plain(#[trigger] w[k]) == w[k] by {
            assert(w[k] == p[sp.0 + k]);
            assert(plain_text(p)[sp.0 + k] == plain(p[sp.0 + k]));
        }
        if ws.len() > 1 {
            let init = ws.drop_last();
            assert(init =~= words(p).take(init.len() as int));
            lemma_join_plain(init, p);
            let s = join(init, seq![' ']);
            assert forall|k: int| 0 <= k < t.len() implies plain(#[trigger] t[k]) == t[k] by {
                if k < s.len() {
                    assert(t[k] == s[k]);
                } else if k > s.len() {
                    assert(t[k] == w[k - s.len() - 1]);
                } else {
                    assert(t[k] == ' ');
                }
            }
        }
    }
}

/// An aligned text has one entry for each word of the text, whatever the backend
/// answered, and its phonemes are the entries with a space between them.
pub proof fn law_one_entry_per_word(
    text: Seq<char>,
    lang: Lang,
    first: Seq<Seq<char>>,
    second: Seq<Seq<char>>,
)
    ensures
        phonemized(text, lang, first, second).per_word matches Some(per_word) ==> {
            &&& per_word.len() == words(text).len()
            &&& phonemized(text, lang, first, second).phonemes == join(per_word, seq![' '])
        },
{
    law_normalize_keeps_words(text);
}

// ------------------------------------------------------------------ pieces and clauses

/// The pieces of a word from `i` on are the rest of the word.
proof fn lemma_pieces_rebuild(w: Seq<char>, i: int)
    requires
        0 <= i <= w.len(),
    ensures
        concat(piece_texts(pieces_from(w, i))) == w.skip(i),
    decreases w.len() - i,
{
    if i < w.len() {
        lemma_piece_end(w, i);
        let e = piece_end(w, i);
        lemma_pieces_rebuild(w, e);
        let p = w.subrange(i, e);
        assert(piece_texts(pieces_from(w, i)) =~= seq![p] + piece_texts(pieces_from(w, e)));
        lemma_concat_front(p, piece_texts(pieces_from(w, e)));
        assert(p + w.skip(e) =~= w.skip(i));
    } else {
        assert(concat(piece_texts(pieces_from(w, i))) =~= w.skip(i));
    }
}

/// Breaking a word into pieces loses nothing: the pieces, one after the other, are
/// the word.
pub proof fn law_pieces_rebuild(w: Seq<char>)
    ensures
        concat(piece_texts(pieces(w))) == w,
{
    lemma_pieces_rebuild(w, 0);
    assert(w.skip(0) =~= w);
}

/// The pieces of a word from `i` on are each of one kind.
proof fn lemma_pieces_kind(w: Seq<char>, i: int)
    requires
        0 <= i <= w.len(),
    ensures
        forall|k: int|
            0 <= k < pieces_from(w, i).len() ==> (#[trigger] pieces_from(w, i)[k]).0.len() > 0,
        forall|k: int, j: int|
            0 <= k < pieces_from(w, i).len() && 0 <= j < pieces_from(w, i)[k].0.len() ==> is_punct(
                #[trigger] pieces_from(w, i)[k].0[j],
            ) == pieces_from(w, i)[k].1,
        forall|k: int|
            0 <= k < pieces_from(w, i).len() - 1 ==> (#[trigger] pieces_from(w, i)[k]).1
                != pieces_from(w, i)[k + 1].1,
        i < w.len() ==> pieces_from(w, i).len() > 0 && pieces_from(w, i)[0].1 == is_punct(w[i]),
    decreases w.len() - i,
{
    if i < w.len() {
        lemma_piece_end(w, i);
        let e = piece_end(w, i);
        lemma_pieces_kind(w, e);
        lemma_piece_stops(w, i);
        let rest = pieces_from(w, e);
        let all = pieces_from(w, i);
        assert(all =~= seq![(w.subrange(i, e), is_punct(w[i]))] + rest);
        assert forall|k: int| 0 <= k < all.len() implies (#[trigger] all[k]).0.len() > 0 by {
            if k > 0 {
                assert(all[k] == rest[k - 1]);
            }
        }
        assert forall|k: int, j: int| 0 <= k < all.len() && 0 <= j < all[k].0.len() implies is_punct(
            #[trigger] all[k].0[j],
        ) == all[k].1 by {
            if k > 0 {
                assert(all[k] == rest[k - 1]);
                assert(is_punct(rest[k - 1].0[j]) == rest[k - 1].1);
            } else {
                assert(all[k].0[j] == w[i + j]);
            }
        }
        assert forall|k: int| 0 <= k < all.len() - 1 implies (#[trigger] all[k]).1 != all[k
            + 1].1 by {
            assert(all[k + 1] == rest[k]);
            if k > 0 {
                assert(all[k] == rest[k - 1]);
                assert(rest[k - 1].1 != rest[k - 1 + 1].1);
            }
        }
    }
}

/// A piece stops where the kind changes.
proof fn lemma_piece_stops(w: Seq<char>, i: int)
    requires
        0 <= i < w.len(),
    ensures
        piece_end(w, i) < w.len() ==> is_punct(w[piece_end(w, i)]) != is_punct(w[i]),
    decreases w.len() - i,
{
    if i + 1 < w.len() && is_punct(w[i + 1]) == is_punct(w[i]) {
        lemma_piece_stops(w, i + 1);
    }
}

/// A piece is not empty, holds punctuation only or none, and is followed by a piece of
/// the other kind.
pub proof fn law_pieces_alternate(w: Seq<char>, k: int)
    requires
        0 <= k < pieces(w).len(),
    ensures
        pieces(w)[k].0.len() > 0,
        forall|j: int|
            0 <= j < pieces(w)[k].0.len() ==> is_punct(#[trigger] pieces(w)[k].0[j]) == pieces(
                w,
            )[k].1,
        k + 1 < pieces(w).len() ==> pieces(w)[k + 1].1 != pieces(w)[k].1,
{
    lemma_pieces_kind(w, 0);
}

/// The text pieces among `ps`, in order.
pub open spec fn text_pieces(ps: Seq<(Seq<char>, bool)>) -> Seq<Seq<char>>
    decreases ps.len(),
{
    if ps.len() == 0 {
        Seq::empty()
    } else if ps.last().1 {
        text_pieces(ps.drop_last())
    } else {
        text_pieces(ps.drop_last()).push(ps.last().0)
    }
}

/// The pieces of the clauses `cl`, in order.
pub open spec fn clause_pieces(cl: Seq<Seq<Seq<char>>>) -> Seq<Seq<char>>
    decreases cl.len(),
{
    if cl.len() == 0 {
        Seq::empty()
    } else {
        clause_pieces(cl.drop_last()) + cl.last()
    }
}

/// Text pieces are found part by part.
pub proof fn lemma_text_pieces_add(a: Seq<(Seq<char>, bool)>, b: Seq<(Seq<char>, bool)>)
    ensures
        text_pieces(a + b) == text_pieces(a) + text_pieces(b),
    decreases b.len(),
{
    if b.len() == 0 {
        assert(a + b =~= a);
        assert(text_pieces(a) + text_pieces(b) =~= text_pieces(a));
    } else {
        lemma_text_pieces_add(a, b.drop_last());
        assert((a + b).drop_last() =~= a + b.drop_last());
        assert(text_pieces(a + b) =~= text_pieces(a) + text_pieces(b));
    }
}

/// A run of text pieces is all text.
proof fn lemma_text_pieces_run(ps: Seq<(Seq<char>, bool)>)
    requires
        forall|k: int| 0 <= k < ps.len() ==> !(#[trigger] ps[k]).1,
    ensures
        text_pieces(ps) == piece_texts(ps),
    decreases ps.len(),
{
    if ps.len() > 0 {
        let init = ps.drop_last();
        assert forall|k: int| 0 <= k < init.len() implies !(#[trigger] init[k]).1 by {
            assert(ps[k] == init[k]);
        }
        lemma_text_pieces_run(init);
    }
    assert(text_pieces(ps) =~= piece_texts(ps));
}

/// Clauses are put together clause by clause.
proof fn lemma_clause_pieces_cons(c: Seq<Seq<char>>, cl: Seq<Seq<Seq<char>>>)
    ensures
        clause_pieces(seq![c] + cl) == c + clause_pieces(cl),
    decreases cl.len(),
{
    let all = seq![c] + cl;
    if cl.len() == 0 {
        assert(all.drop_last() =~= Seq::empty());
        assert(clause_pieces(all.drop_last()) =~= Seq::empty());
        assert(clause_pieces(all) =~= c + clause_pieces(cl));
    } else {
        lemma_clause_pieces_cons(c, cl.drop_last());
        assert(all.drop_last() =~= seq![c] + cl.drop_last());
        assert(all.last() == cl.last());
        assert(clause_pieces(all) =~= c + clause_pieces(cl));
    }
}

/// The clauses from `i` on hold the text pieces from `i` on.
proof fn lemma_clauses_hold_text(ps: Seq<(Seq<char>, bool)>, i: int)
    requires
        0 <= i <= ps.len(),
    ensures
        clause_pieces(clauses_from(ps, i)) == text_pieces(ps.skip(i)),
        forall|k: int|
            0 <= k < clauses_from(ps, i).len() ==> (#[trigger] clauses_from(ps, i)[k]).len() > 0,
    decreases ps.len() - i,
{
    if i < ps.len() {
        if ps[i].1 {
            lemma_clauses_hold_text(ps, i + 1);
            let one = seq![ps[i]];
            assert(ps.skip(i) =~= one + ps.skip(i + 1));
            lemma_text_pieces_add(one, ps.skip(i + 1));
            assert(one.drop_last() =~= Seq::empty());
            assert(text_pieces(one) =~= Seq::empty()) by {
                assert(one.last() == ps[i]);
                assert(text_pieces(one.drop_last()) =~= Seq::empty());
            }
            assert(text_pieces(ps.skip(i)) =~= text_pieces(ps.skip(i + 1)));
        } else {
            lemma_run_end(ps, i);
            let e = run_end(ps, i);
            lemma_clauses_hold_text(ps, e);
            let run = ps.subrange(i, e);
            assert(ps.skip(i) =~= run + ps.skip(e));
            lemma_text_pieces_add(run, ps.skip(e));
            assert forall|k: int| 0 <= k < run.len() implies !(#[trigger] run[k]).1 by {
                assert(run[k] == ps[i + k]);
            }
            lemma_text_pieces_run(run);
            lemma_clause_pieces_cons(piece_texts(run), clauses_from(ps, e));
            let all = clauses_from(ps, i);
            assert forall|k: int| 0 <= k < all.len() implies (#[trigger] all[k]).len() > 0 by {
                if k > 0 {
                    assert(all[k] == clauses_from(ps, e)[k - 1]);
                }
            }
        }
    } else {
        assert(ps.skip(i) =~= Seq::empty());
    }
}

/// The clauses hold the text pieces of all the words, each once and in order, and no
/// clause is empty.
pub proof fn law_clauses_hold_text(ws: Seq<Seq<(Seq<char>, bool)>>)
    ensures
        clause_pieces(clauses(ws)) == text_pieces(items(ws)),
        forall|k: int| 0 <= k < clauses(ws).len() ==> (#[trigger] clauses(ws)[k]).len() > 0,
{
    lemma_clauses_hold_text(items(ws), 0);
    assert(items(ws).skip(0) =~= items(ws));
}

// ------------------------------------------------------------------------------- fixups

/// Replacing leaves only characters of the text and of what is put in.
proof fn lemma_replace_chars(s: Seq<char>, pat: Seq<char>, with: Seq<char>, c: char)
    requires
        !s.contains(c),
        !with.contains(c),
    ensures
        !replace(s, pat, with).contains(c),
    decreases s.len(),
{
    let r = replace(s, pat, with);
    if pat.len() == 0 || s.len() < pat.len() {
    } else if s.take(pat.len() as int) == pat {
        let rest = s.skip(pat.len() as int);
        assert(!rest.contains(c)) by {
            if rest.contains(c) {
                let k = choose|k: int| 0 <= k < rest.len() && rest[k] == c;
                assert(s[k + pat.len()] == c);
            }
        }
        lemma_replace_chars(rest, pat, with, c);
        lemma_add_lacks(with, replace(rest, pat, with), c);
    } else {
        let rest = s.skip(1);
        assert(!rest.contains(c)) by {
            if rest.contains(c) {
                let k = choose|k: int| 0 <= k < rest.len() && rest[k] == c;
                assert(s[k + 1] == c);
            }
        }
        lemma_replace_chars(rest, pat, with, c);
        let one = seq![s[0]];
        assert(!one.contains(c)) by {
            if one.contains(c) {
                assert(s[0] == c);
            }
        }
        lemma_add_lacks(one, replace(rest, pat, with), c);
    }
}

/// What neither part holds, the whole does not hold.
proof fn lemma_add_lacks(a: Seq<char>, b: Seq<char>, c: char)
    requires
        !a.contains(c),
        !b.contains(c),
    ensures
        !(a + b).contains(c),
{
    if (a + b).contains(c) {
        let k = choose|k: int| 0 <= k < (a + b).len() && (a + b)[k] == c;
        if k < a.len() {
            assert(a[k] == c);
        } else {
            assert(b[k - a.len()] == c);
        }
    }
}

/// A character that is replaced is gone.
proof fn lemma_replace_removes(s: Seq<char>, c: char, with: Seq<char>)
    requires
        !with.contains(c),
    ensures
        !replace(s, seq![c], with).contains(c),
    decreases s.len(),
{
    if s.len() > 0 {
        let rest = s.skip(1);
        lemma_replace_removes(rest, c, with);
        if s[0] == c {
            assert(s.take(1) =~= seq![c]);
            lemma_add_lacks(with, replace(rest, seq![c], with), c);
        } else {
            let one = seq![s[0]];
            assert(s.take(1)[0] == s[0]);
            assert(!one.contains(c)) by {
                if one.contains(c) {
                    assert(s[0] == c);
                }
            }
            lemma_add_lacks(one, replace(rest, seq![c], with), c);
        }
    }
}

/// Joining plurals adds no character.
proof fn lemma_plurals_chars(s: Seq<char>, i: int, c: char)
    requires
        0 <= i <= s.len(),
        !s.contains(c),
    ensures
        !joined_plurals(s, i).contains(c),
    decreases s.len() - i,
{
    if i < s.len() {
        lemma_plurals_chars(s, i + 1, c);
        let one = seq![s[i]];
        assert(!one.contains(c)) by {
            if one.contains(c) {
                assert(s[i] == c);
            }
        }
        lemma_add_lacks(one, joined_plurals(s, i + 1), c);
    }
}

/// Whether `c` is a symbol of the backend that the model does not take.
pub open spec fn foreign(c: char) -> bool {
    c == 'ʲ' || c == 'r' || c == 'x' || c == 'ɬ' || c == '\u{361}' || c == '\u{329}'
}

/// What is put in for a symbol of the backend holds none of them.
proof fn lemma_put_in(c: char)
    requires
        foreign(c),
    ensures
        !"j"@.contains(c),
        !"ɹ"@.contains(c),
        !"k"@.contains(c),
        !"l"@.contains(c),
        !"nˈaɪndi"@.contains(c),
{
    reveal_strlit("j");
    reveal_strlit("ɹ");
    reveal_strlit("k");
    reveal_strlit("l");
    reveal_strlit("nˈaɪndi");
}

/// No symbol that the model does not take is left: in particular no plain `r`.
pub proof fn law_fixups_leave_model_symbols(s: Seq<char>, lang: Lang, c: char)
    requires
        foreign(c),
    ensures
        !fixed(s, lang).contains(c),
{
    lemma_put_in(c);
    let b = replace(replace(s, "kəkˈoːɹoʊ"@, "kˈoʊkəɹoʊ"@), "kəkˈɔːɹəʊ"@, "kˈəʊkəɹəʊ"@);
    let p = replace(b, "ʲ"@, "j"@);
    let q = replace(p, "r"@, "ɹ"@);
    let t = replace(q, "x"@, "k"@);
    let u = replace(t, "ɬ"@, "l"@);
    assert(u == model_symbols(s));
    reveal_strlit("ʲ");
    reveal_strlit("r");
    reveal_strlit("x");
    reveal_strlit("ɬ");
    assert("ʲ"@ =~= seq!['ʲ']);
    assert("r"@ =~= seq!['r']);
    assert("x"@ =~= seq!['x']);
    assert("ɬ"@ =~= seq!['ɬ']);
    let v = without_ties(u);
    if c == 'ʲ' {
        lemma_replace_removes(b, c, "j"@);
    }
    if c == 'ʲ' || c == 'r' {
        if c == 'r' {
            lemma_replace_removes(p, c, "ɹ"@);
        } else {
            lemma_replace_chars(p, "r"@, "ɹ"@, c);
        }
    }
    if c == 'ʲ' || c == 'r' || c == 'x' {
        if c == 'x' {
            lemma_replace_removes(q, c, "k"@);
        } else {
            lemma_replace_chars(q, "x"@, "k"@, c);
        }
    }
    if c == 'ʲ' || c == 'r' || c == 'x' || c == 'ɬ' {
        if c == 'ɬ' {
            lemma_replace_removes(t, c, "l"@);
        } else {
            lemma_replace_chars(t, "ɬ"@, "l"@, c);
        }
        assert(!u.contains(c));
    }
    let keep = |d: char| d != '\u{361}' && d != '\u{329}';
    assert(!v.contains(c)) by {
        if v.contains(c) {
            u.lemma_filter_contains_rev(keep, c);
            let k = choose|k: int| 0 <= k < v.len() && v[k] == c;
            u.lemma_filter_pred(keep, k);
        }
    }
    let w = if lang == Lang::EnUs {
        replace(v, "nˈaɪnti"@, "nˈaɪndi"@)
    } else {
        v
    };
    if lang == Lang::EnUs {
        lemma_replace_chars(v, "nˈaɪnti"@, "nˈaɪndi"@, c);
    }
    lemma_plurals_chars(w, 0, c);
}

// -------------------------------------------------------------------------- punctuation

/// The punctuation of `s`, in order.
pub open spec fn marks(s: Seq<char>) -> Seq<char> {
    s.filter(|c: char| is_punct(c))
}

/// Whether `s` holds no punctuation.
pub open spec fn markless(s: Seq<char>) -> bool {
    forall|i: int| 0 <= i < s.len() ==> !is_punct(#[trigger] s[i])
}

/// Whether none of the texts `v` holds punctuation.
pub open spec fn all_markless(v: Seq<Seq<char>>) -> bool {
    forall|i: int| 0 <= i < v.len() ==> markless(#[trigger] v[i])
}

/// Punctuation is found part by part.
proof fn lemma_marks_add(a: Seq<char>, b: Seq<char>)
    ensures
        marks(a + b) == marks(a) + marks(b),
{
    Seq::filter_distributes_over_add(a, b, |c: char| is_punct(c));
}

/// Where there is no punctuation, none is found.
proof fn lemma_markless(s: Seq<char>)
    requires
        markless(s),
    ensures
        marks(s) == Seq::<char>::empty(),
    decreases s.len(),
{
    reveal(Seq::filter);
    if s.len() > 0 {
        let init = s.drop_last();
        assert forall|i: int| 0 <= i < init.len() implies !is_punct(#[trigger] init[i]) by {
            assert(init[i] == s[i]);
        }
        lemma_markless(init);
        assert(!is_punct(s[s.len() - 1]));
    }
}

/// The punctuation of a text in front of one more part without any.
proof fn lemma_marks_then_none(a: Seq<char>, b: Seq<char>)
    requires
        markless(b),
    ensures
        marks(a + b) == marks(a),
        marks(b + a) == marks(a),
{
    lemma_marks_add(a, b);
    lemma_marks_add(b, a);
    lemma_markless(b);
    assert(marks(a) + Seq::<char>::empty() =~= marks(a));
    assert(Seq::<char>::empty() + marks(a) =~= marks(a));
}

/// Replacing what is no punctuation by what is none keeps the punctuation.
proof fn lemma_marks_replace(s: Seq<char>, pat: Seq<char>, with: Seq<char>)
    requires
        markless(pat),
        markless(with),
    ensures
        marks(replace(s, pat, with)) == marks(s),
    decreases s.len(),
{
    if pat.len() == 0 || s.len() < pat.len() {
    } else if pat.is_prefix_of(s) {
        let rest = s.skip(pat.len() as int);
        lemma_marks_replace(rest, pat, with);
        lemma_marks_then_none(replace(rest, pat, with), with);
        lemma_marks_then_none(rest, pat);
        assert(s =~= pat + rest);
    } else {
        let rest = s.skip(1);
        lemma_marks_replace(rest, pat, with);
        lemma_marks_add(seq![s[0]], replace(rest, pat, with));
        lemma_marks_add(seq![s[0]], rest);
        assert(s =~= seq![s[0]] + rest);
    }
}

/// The combining marks are no punctuation.
proof fn lemma_marks_ties(s: Seq<char>)
    ensures
        marks(without_ties(s)) == marks(s),
    decreases s.len(),
{
    reveal(Seq::filter);
    if s.len() > 0 {
        let init = s.drop_last();
        let c = s.last();
        lemma_marks_ties(init);
        assert(s =~= init + seq![c]);
        lemma_marks_add(init, seq![c]);
        if c != '\u{361}' && c != '\u{329}' {
            assert(without_ties(s) =~= without_ties(init) + seq![c]);
            lemma_marks_add(without_ties(init), seq![c]);
        } else {
            assert(without_ties(s) =~= without_ties(init));
            lemma_marks_then_none(init, seq![c]);
        }
    }
}

/// Joining plurals keeps the punctuation.
proof fn lemma_marks_plurals(s: Seq<char>, i: int)
    requires
        0 <= i <= s.len(),
    ensures
        marks(joined_plurals(s, i)) == marks(s.skip(i)),
    decreases s.len() - i,
{
    if i < s.len() {
        lemma_marks_plurals(s, i + 1);
        assert(s.skip(i) =~= seq![s[i]] + s.skip(i + 1));
        lemma_marks_add(seq![s[i]], s.skip(i + 1));
        lemma_marks_add(seq![s[i]], joined_plurals(s, i + 1));
        if s[i] == ' ' {
            lemma_marks_then_none(s.skip(i + 1), seq![s[i]]);
        }
    } else {
        assert(s.skip(i) =~= Seq::empty());
    }
}

/// The symbols that are replaced, and those that are put in, are no punctuation.
proof fn lemma_symbols_markless()
    ensures
        markless("kəkˈoːɹoʊ"@),
        markless("kˈoʊkəɹoʊ"@),
        markless("kəkˈɔːɹəʊ"@),
        markless("kˈəʊkəɹəʊ"@),
        markless("ʲ"@),
        markless("j"@),
        markless("r"@),
        markless("ɹ"@),
        markless("x"@),
        markless("k"@),
        markless("ɬ"@),
        markless("l"@),
        markless("nˈaɪnti"@),
        markless("nˈaɪndi"@),
{
    reveal_strlit("kəkˈoːɹoʊ");
    reveal_strlit("kˈoʊkəɹoʊ");
    reveal_strlit("kəkˈɔːɹəʊ");
    reveal_strlit("kˈəʊkəɹəʊ");
    reveal_strlit("ʲ");
    reveal_strlit("j");
    reveal_strlit("r");
    reveal_strlit("ɹ");
    reveal_strlit("x");
    reveal_strlit("k");
    reveal_strlit("ɬ");
    reveal_strlit("l");
    reveal_strlit("nˈaɪnti");
    reveal_strlit("nˈaɪndi");
}

/// Fixing phonemes keeps the punctuation.
proof fn lemma_marks_fixed(s: Seq<char>, lang: Lang)
    ensures
        marks(fixed(s, lang)) == marks(s),
{
    lemma_symbols_markless();
    let a = replace(s, "kəkˈoːɹoʊ"@, "kˈoʊkəɹoʊ"@);
    let b = replace(a, "kəkˈɔːɹəʊ"@, "kˈəʊkəɹəʊ"@);
    let c = replace(b, "ʲ"@, "j"@);
    let d = replace(c, "r"@, "ɹ"@);
    let e = replace(d, "x"@, "k"@);
    lemma_marks_replace(s, "kəkˈoːɹoʊ"@, "kˈoʊkəɹoʊ"@);
    lemma_marks_replace(a, "kəkˈɔːɹəʊ"@, "kˈəʊkəɹəʊ"@);
    lemma_marks_replace(b, "ʲ"@, "j"@);
    lemma_marks_replace(c, "r"@, "ɹ"@);
    lemma_marks_replace(d, "x"@, "k"@);
    lemma_marks_replace(e, "ɬ"@, "l"@);
    let f = without_ties(model_symbols(s));
    lemma_marks_ties(model_symbols(s));
    let g = if lang == Lang::EnUs {
        replace(f, "nˈaɪnti"@, "nˈaɪndi"@)
    } else {
        f
    };
    lemma_marks_replace(f, "nˈaɪnti"@, "nˈaɪndi"@);
    lemma_marks_plurals(g, 0);
    assert(g.skip(0) =~= g);
}

/// Trimming keeps the punctuation.
proof fn lemma_marks_trim(s: Seq<char>)
    ensures
        marks(trim(s)) == marks(s),
{
    lemma_trim(s);
    let u = ws_end(s, 0);
    let head = s.take(u);
    let tail = s.skip(u + trim(s).len());
    assert forall|i: int| 0 <= i < head.len() implies !is_punct(#[trigger] head[i]) by {
        assert(is_whitespace(head[i]));
    }
    assert forall|i: int| 0 <= i < tail.len() implies !is_punct(#[trigger] tail[i]) by {
        assert(is_whitespace(tail[i]));
    }
    assert(s =~= head + trim(s) + tail);
    lemma_marks_then_none(head + trim(s), tail);
    lemma_marks_then_none(trim(s), head);
}

/// The words of a line without punctuation hold none.
proof fn lemma_words_markless(line: Seq<char>)
    requires
        markless(line),
    ensures
        all_markless(words(line)),
{
    lemma_spans(line, 0);
    assert forall|i: int| 0 <= i < words(line).len() implies markless(
        #[trigger] words(line)[i],
    ) by {
        let sp = spans_from(line, 0)[i];
        let w = words(line)[i];
        assert forall|k: int| 0 <= k < w.len() implies !is_punct(#[trigger] w[k]) by {
            assert(w[k] == line[sp.0 + k]);
        }
    }
}

/// Lines without punctuation give phonemes without punctuation.
proof fn lemma_sounds_markless(
    cl: Seq<Seq<Seq<char>>>,
    first: Seq<Seq<char>>,
    second: Seq<Seq<char>>,
)
    requires
        cl.len() <= first.len(),
        second_lines(cl, first).len() <= second.len(),
        all_markless(first),
        all_markless(second),
    ensures
        all_markless(sounds(cl, first, second)),
    decreases cl.len(),
{
    if cl.len() > 0 {
        let rest = cl.drop_last();
        lemma_sounds_markless(rest, first, second);
        let line = first[cl.len() - 1];
        assert(markless(line));
        lemma_words_markless(line);
        let init = sounds(rest, first, second);
        let all = sounds(cl, first, second);
        let r = second_lines(rest, first).len() as int;
        assert forall|i: int| 0 <= i < all.len() implies markless(#[trigger] all[i]) by {
            if i < init.len() {
                assert(all[i] == init[i]);
            } else {
                match settled(cl.last(), line) {
                    Some(v) => {
                        assert(all[i] == v[i - init.len()]);
                        if cl.last().len() != 1 {
                            assert(v == words(line));
                        }
                    },
                    None => {
                        assert(all[i] == second[r + i - init.len()]);
                    },
                }
            }
        }
    }
}

/// A word that is voiced without punctuation keeps its own.
proof fn lemma_marks_voiced(ps: Seq<(Seq<char>, bool)>, ph: Seq<Seq<char>>, f: int)
    requires
        0 <= f,
        f + text_count(ps) <= ph.len(),
        all_markless(ph),
        forall|k: int|
            0 <= k < ps.len() && !(#[trigger] ps[k]).1 ==> markless(ps[k].0),
    ensures
        marks(voiced(ps, ph, f)) == marks(concat(piece_texts(ps))),
    decreases ps.len(),
{
    if ps.len() > 0 {
        let init = ps.drop_last();
        let z = ps.last();
        assert(z == ps[ps.len() - 1]);
        assert forall|k: int| 0 <= k < init.len() && !(#[trigger] init[k]).1 implies markless(
            init[k].0,
        ) by {
            assert(init[k] == ps[k]);
        }
        lemma_marks_voiced(init, ph, f);
        let texts = piece_texts(ps);
        assert(texts.drop_last() =~= piece_texts(init));
        assert(concat(texts) == concat(piece_texts(init)) + z.0);
        let v = voiced(init, ph, f);
        if z.1 {
            lemma_marks_add(v, z.0);
            lemma_marks_add(concat(piece_texts(init)), z.0);
        } else {
            let sound = ph[f + text_count(init)];
            assert(markless(sound));
            lemma_marks_then_none(v, sound);
            lemma_marks_then_none(concat(piece_texts(init)), z.0);
        }
    } else {
        assert(piece_texts(ps) =~= Seq::empty());
    }
}

/// A word takes its phonemes among those of all words.
pub proof fn lemma_word_share(ws: Seq<Seq<(Seq<char>, bool)>>, k: int)
    requires
        0 <= k < ws.len(),
    ensures
        text_count(items(ws.take(k))) + text_count(ws[k]) <= text_count(items(ws)),
    decreases ws.len(),
{
    let init = ws.drop_last();
    lemma_text_count_add(items(init), ws.last());
    if k < init.len() {
        lemma_word_share(init, k);
        assert(init.take(k) =~= ws.take(k));
        assert(init[k] == ws[k]);
    } else {
        assert(ws.take(k) =~= init);
    }
}

/// Making characters plain keeps the punctuation.
proof fn lemma_marks_plain(s: Seq<char>)
    ensures
        marks(plain_text(s)) == marks(s),
    decreases s.len(),
{
    if s.len() > 0 {
        let init = s.drop_last();
        let c = s.last();
        lemma_marks_plain(init);
        assert(s =~= init + seq![c]);
        assert(plain_text(s) =~= plain_text(init) + seq![plain(c)]);
        lemma_marks_add(init, seq![c]);
        lemma_marks_add(plain_text(init), seq![plain(c)]);
        if is_punct(c) {
            assert(plain(c) == c);
        } else {
            assert(!is_punct(plain(c)));
            lemma_markless(seq![c]);
            lemma_markless(seq![plain(c)]);
        }
    } else {
        assert(plain_text(s) =~= s);
    }
}

/// Punctuation comes back where it was: where no line of the backend holds punctuation,
/// the punctuation of each entry of an aligned text is that of its word, in order.
pub proof fn law_punctuation_is_kept(
    text: Seq<char>,
    lang: Lang,
    first: Seq<Seq<char>>,
    second: Seq<Seq<char>>,
    k: int,
)
    requires
        phonemized(text, lang, first, second).per_word is Some,
        0 <= k < words(text).len(),
        all_markless(first),
        all_markless(second),
    ensures
        k < phonemized(text, lang, first, second).per_word->0.len(),
        marks(phonemized(text, lang, first, second).per_word->0[k]) == marks(words(text)[k]),
{
    law_normalize_keeps_words(text);
    let ws = piece_rows(normalized(text));
    let cl = clauses(ws);
    let ph = sounds(cl, first, second);
    let w = words(normalized(text))[k];
    lemma_sounds_markless(cl, first, second);
    lemma_sounds_len(cl, first, second);
    lemma_clauses_size(items(ws), 0);
    assert(items(ws).skip(0) =~= items(ws));
    lemma_word_share(ws, k);
    let f = text_count(items(ws.take(k))) as int;
    assert(ws[k] == pieces(w));
    assert forall|j: int| 0 <= j < ws[k].len() && !(#[trigger] ws[k][j]).1 implies markless(
        ws[k][j].0,
    ) by {
        law_pieces_alternate(w, j);
    }
    lemma_marks_voiced(ws[k], ph, f);
    law_pieces_rebuild(w);
    let v = voiced(ws[k], ph, f);
    lemma_marks_trim(v);
    lemma_marks_fixed(trim(v), lang);
    lemma_plain_spans(text, 0);
    let sp = spans_from(text, 0)[k];
    lemma_spans(text, 0);
    assert(words(plain_text(text))[k] =~= plain_text(words(text)[k]));
    lemma_marks_plain(words(text)[k]);
}

} // verus!
