//! What the backend is asked for: the words of the text between its punctuation.

use crate::text::{is_whitespace, lemma_word_end, spans_from, word_end, words};
use crate::tts::clauses::{
    clauses, clauses_from, items, lemma_run_end, piece_rows, piece_texts, run_end, size, text_count,
};
use crate::tts::phonemize::{
    asked, lemma_piece_end, normalized, piece_end, pieces, pieces_from, plain_text,
};
use crate::tts::phonemize_laws::{
    clause_pieces, is_word, law_clauses_hold_text, law_normalize_keeps_words,
    lemma_text_pieces_add, lemma_words_are_words, lemma_words_of_join, text_pieces,
};
use crate::tts::speech_laws::{lemma_clause_place, lemma_text_pieces_are_words};
use vstd::prelude::*;

verus! {

/// Whether `c` is punctuation that the model reads.
pub open spec fn breaks(c: char) -> bool {
    ||| c == ';'
    ||| c == ':'
    ||| c == ','
    ||| c == '.'
    ||| c == '!'
    ||| c == '?'
    ||| c == '¡'
    ||| c == '¿'
    ||| c == '—'
    ||| c == '…'
    ||| c == '"'
    ||| c == '«'
    ||| c == '»'
    ||| c == '“'
    ||| c == '”'
}

/// `s` with a space in place of all punctuation.
pub open spec fn opened(s: Seq<char>) -> Seq<char> {
    Seq::new(
        s.len(),
        |i: int|
            if breaks(s[i]) {
                ' '
            } else {
                s[i]
            },
    )
}

/// The words of all the lines, in order.
pub open spec fn all_words(lines: Seq<Seq<char>>) -> Seq<Seq<char>>
    decreases lines.len(),
{
    if lines.len() == 0 {
        Seq::empty()
    } else {
        all_words(lines.drop_last()) + words(lines.last())
    }
}

/// The words of `s` from `i` on.
spec fn words_from(s: Seq<char>, i: int) -> Seq<Seq<char>> {
    Seq::new(
        spans_from(s, i).len(),
        |k: int| s.subrange(spans_from(s, i)[k].0, spans_from(s, i)[k].1),
    )
}

/// One piece in front.
proof fn lemma_text_pieces_front(x: (Seq<char>, bool), ps: Seq<(Seq<char>, bool)>)
    ensures
        text_pieces(seq![x] + ps) == if x.1 {
            text_pieces(ps)
        } else {
            seq![x.0] + text_pieces(ps)
        },
{
    lemma_text_pieces_add(seq![x], ps);
    let one = seq![x];
    assert(one.drop_last() =~= Seq::empty());
    assert(text_pieces(one.drop_last()) =~= Seq::empty());
    assert(one.last() == x);
    if x.1 {
        assert(text_pieces(one) =~= Seq::empty());
        assert(Seq::<Seq<char>>::empty() + text_pieces(ps) =~= text_pieces(ps));
    } else {
        assert(text_pieces(one) =~= seq![x.0]);
    }
}

/// Blanks in front hold no word.
proof fn lemma_skip_blanks(s: Seq<char>, i: int, e: int)
    requires
        0 <= i <= e <= s.len(),
        forall|k: int| i <= k < e ==> is_whitespace(#[trigger] s[k]),
    ensures
        spans_from(s, i) == spans_from(s, e),
    decreases e - i,
{
    if i < e {
        lemma_skip_blanks(s, i + 1, e);
    }
}

/// Where a word ends.
proof fn lemma_word_to(s: Seq<char>, i: int, e: int)
    requires
        0 <= i <= e <= s.len(),
        forall|k: int| i <= k < e ==> !is_whitespace(#[trigger] s[k]),
        e == s.len() || is_whitespace(s[e]),
    ensures
        word_end(s, i) == e,
    decreases e - i,
{
    if i < e {
        lemma_word_to(s, i + 1, e);
    }
}

/// A piece goes on up to what is of the other kind.
proof fn lemma_piece_stops(w: Seq<char>, i: int)
    requires
        0 <= i < w.len(),
    ensures
        i < piece_end(w, i) <= w.len(),
        forall|k: int| i <= k < piece_end(w, i) ==> breaks(#[trigger] w[k]) == breaks(w[i]),
        piece_end(w, i) < w.len() ==> breaks(w[piece_end(w, i)]) != breaks(w[i]),
    decreases w.len() - i,
{
    lemma_piece_end(w, i);
    if i + 1 < w.len() && breaks(w[i + 1]) == breaks(w[i]) {
        lemma_piece_stops(w, i + 1);
    }
}

/// The text pieces of a word are its words without punctuation.
proof fn lemma_open_word(p: Seq<char>, i: int, e: int, j: int)
    requires
        0 <= i <= j <= e <= p.len(),
        forall|k: int| i <= k < e ==> !is_whitespace(#[trigger] p[k]),
        e == p.len() || is_whitespace(p[e]),
    ensures
        text_pieces(pieces_from(p.subrange(i, e), j - i)) + words_from(opened(p), e) == words_from(
            opened(p),
            j,
        ),
    decreases e - j,
{
    let w = p.subrange(i, e);
    let op = opened(p);
    assert(is_whitespace(' '));
    if j < e {
        let a = j - i;
        lemma_piece_stops(w, a);
        let b = piece_end(w, a);
        let n = i + b;
        lemma_open_word(p, i, e, n);
        let rest = pieces_from(w, b);
        let x = (w.subrange(a, b), breaks(w[a]));
        assert(pieces_from(w, a) == seq![x] + rest);
        lemma_text_pieces_front(x, rest);
        assert forall|k: int| j <= k < n implies breaks(#[trigger] p[k]) == breaks(p[j]) by {
            assert(w[k - i] == p[k]);
            assert(w[a] == p[j]);
        }
        if breaks(p[j]) {
            assert forall|k: int| j <= k < n implies is_whitespace(#[trigger] op[k]) by {
                assert(breaks(p[k]));
            }
            lemma_skip_blanks(op, j, n);
            assert(words_from(op, j) =~= words_from(op, n));
        } else {
            assert forall|k: int| j <= k < n implies !is_whitespace(#[trigger] op[k]) by {
                assert(!breaks(p[k]));
                assert(!is_whitespace(p[k]));
            }
            assert(n == op.len() || is_whitespace(op[n])) by {
                if n < e {
                    assert(w[b] == p[n]);
                }
            }
            lemma_word_to(op, j, n);
            lemma_word_end(op, j);
            assert(spans_from(op, j) == seq![(j, n)] + spans_from(op, n));
            let u = op.subrange(j, n);
            assert forall|k: int| 0 <= k < u.len() implies #[trigger] u[k] == x.0[k] by {
                assert(!breaks(p[j + k]));
            }
            assert(u =~= x.0);
            assert(words_from(op, j) =~= seq![x.0] + words_from(op, n));
            assert(seq![x.0] + text_pieces(rest) + words_from(op, e) =~= seq![x.0] + (text_pieces(
                rest,
            ) + words_from(op, e)));
        }
    } else {
        assert(pieces_from(w, j - i) =~= Seq::empty());
        assert(text_pieces(pieces_from(w, j - i)) =~= Seq::empty());
        assert(Seq::<Seq<char>>::empty() + words_from(op, e) =~= words_from(op, e));
    }
}

/// One word in front.
proof fn lemma_items_front(x: Seq<(Seq<char>, bool)>, ws: Seq<Seq<(Seq<char>, bool)>>)
    ensures
        items(seq![x] + ws) == x + items(ws),
    decreases ws.len(),
{
    let all = seq![x] + ws;
    if ws.len() == 0 {
        assert(all.drop_last() =~= Seq::empty());
        assert(items(all.drop_last()) =~= Seq::empty());
        assert(items(all) =~= x + items(ws));
    } else {
        lemma_items_front(x, ws.drop_last());
        assert(all.drop_last() =~= seq![x] + ws.drop_last());
        assert(all.last() == ws.last());
        assert(items(all) =~= x + items(ws));
    }
}

/// The pieces of the words from `i` on.
spec fn rows_from(p: Seq<char>, i: int) -> Seq<Seq<(Seq<char>, bool)>> {
    Seq::new(words_from(p, i).len(), |k: int| pieces(words_from(p, i)[k]))
}

/// The text pieces of the words from `i` on are the words without punctuation.
proof fn lemma_open_words(p: Seq<char>, i: int)
    requires
        0 <= i <= p.len(),
    ensures
        text_pieces(items(rows_from(p, i))) == words_from(opened(p), i),
    decreases p.len() - i,
{
    let op = opened(p);
    if i < p.len() {
        if is_whitespace(p[i]) {
            lemma_open_words(p, i + 1);
            assert(is_whitespace(op[i]));
            assert(rows_from(p, i) =~= rows_from(p, i + 1));
            assert(words_from(op, i) =~= words_from(op, i + 1));
        } else {
            lemma_word_end(p, i);
            let e = word_end(p, i);
            lemma_open_words(p, e);
            lemma_open_word(p, i, e, i);
            let first = pieces(p.subrange(i, e));
            let rest = rows_from(p, e);
            assert(spans_from(p, i) == seq![(i, e)] + spans_from(p, e));
            assert(words_from(p, i) =~= seq![p.subrange(i, e)] + words_from(p, e));
            assert(rows_from(p, i) =~= seq![first] + rest);
            lemma_items_front(first, rest);
            lemma_text_pieces_add(first, items(rest));
        }
    } else {
        assert(rows_from(p, i) =~= Seq::empty());
        assert(words_from(op, i) =~= Seq::empty());
    }
}

/// Lines of joined words hold the words.
proof fn lemma_all_words(cl: Seq<Seq<Seq<char>>>, lines: Seq<Seq<char>>)
    requires
        lines.len() == cl.len(),
        forall|k: int| 0 <= k < cl.len() ==> words(#[trigger] lines[k]) == cl[k],
    ensures
        all_words(lines) == clause_pieces(cl),
    decreases cl.len(),
{
    if cl.len() > 0 {
        let n = cl.len() - 1;
        assert forall|k: int| 0 <= k < n implies words(#[trigger] lines.drop_last()[k])
            == cl.drop_last()[k] by {
            assert(lines.drop_last()[k] == lines[k]);
        }
        lemma_all_words(cl.drop_last(), lines.drop_last());
        assert(words(lines[n]) == cl[n]);
    }
}

/// What the backend is asked for in the first pass is the text without its punctuation:
/// the words of the lines, one line after the other, are the words that the text has once
/// there is a space in place of every `; : , . ! ? ¡ ¿ — … " « » “ ”`. Nothing is asked
/// twice, nothing is left out, and no other sign breaks a word.
pub proof fn law_the_text_is_asked_without_punctuation(text: Seq<char>)
    ensures
        all_words(asked(text)) == words(opened(plain_text(text))),
{
    let p = plain_text(text);
    let t = normalized(text);
    law_normalize_keeps_words(text);
    let ws = piece_rows(t);
    let cl = clauses(ws);
    assert(ws =~= rows_from(p, 0)) by {
        assert(words_from(p, 0) =~= words(p));
    }
    lemma_open_words(p, 0);
    assert(words_from(opened(p), 0) =~= words(opened(p)));
    lemma_words_are_words(t);
    lemma_text_pieces_are_words(words(t), ws);
    law_clauses_hold_text(ws);
    assert forall|k: int| 0 <= k < cl.len() implies words(#[trigger] asked(text)[k]) == cl[k] by {
        lemma_clause_place(cl, k);
        let n = clause_pieces(cl.take(k)).len() as int;
        assert forall|j: int| 0 <= j < cl[k].len() implies is_word(#[trigger] cl[k][j]) by {
            assert(clause_pieces(cl).subrange(n, n + cl[k].len())[j] == cl[k][j]);
            assert(is_word(text_pieces(items(ws))[n + j]));
        }
        lemma_words_of_join(cl[k]);
    }
    lemma_all_words(cl, asked(text));
}

// ------------------------------------------------------------------------------ clauses

/// One clause in front.
proof fn lemma_size_front(c: Seq<Seq<char>>, cl: Seq<Seq<Seq<char>>>, k: int)
    requires
        0 <= k <= cl.len(),
    ensures
        size((seq![c] + cl).take(k + 1)) == c.len() + size(cl.take(k)),
    decreases k,
{
    let all = seq![c] + cl;
    if k == 0 {
        reveal_with_fuel(size, 2);
        assert(all.take(1).drop_last() =~= Seq::empty());
        assert(all.take(1).last() == c);
        assert(cl.take(0) =~= Seq::empty());
    } else {
        lemma_size_front(c, cl, k - 1);
        assert(all.take(k + 1).drop_last() =~= all.take(k));
        assert(cl.take(k).drop_last() =~= cl.take(k - 1));
        assert(all.take(k + 1).last() == cl.take(k).last());
    }
}

/// Whether a clause begins with text piece `n`, or the last one ends before it.
pub open spec fn clause_begins(cl: Seq<Seq<Seq<char>>>, n: int) -> bool {
    exists|k: int| 0 <= k <= cl.len() && size(#[trigger] cl.take(k)) == n
}

/// Whether the text pieces `n` and `n + 1` stand in one clause.
pub open spec fn together(cl: Seq<Seq<Seq<char>>>, n: int) -> bool {
    exists|k: int|
        0 <= k < cl.len() && size(#[trigger] cl.take(k)) <= n && n + 1 < size(cl.take(k))
            + cl[k].len()
}

/// Pieces are counted from the front, too.
proof fn lemma_count_split(ps: Seq<(Seq<char>, bool)>, a: int, b: int)
    requires
        0 <= a <= b <= ps.len(),
    ensures
        text_count(ps.take(b)) == text_count(ps.take(a)) + text_count(ps.subrange(a, b)),
        (forall|k: int| a <= k < b ==> !(#[trigger] ps[k]).1) ==> text_count(ps.subrange(a, b))
            == b - a,
    decreases b - a,
{
    if a < b {
        lemma_count_split(ps, a, b - 1);
        assert(ps.take(b).drop_last() =~= ps.take(b - 1));
        assert(ps.subrange(a, b).drop_last() =~= ps.subrange(a, b - 1));
        assert(ps.take(b).last() == ps.subrange(a, b).last());
        assert(ps.subrange(a, b).last() == ps[b - 1]);
    } else {
        assert(ps.subrange(a, b) =~= Seq::empty());
    }
}

/// [`law_clauses_are_what_punctuation_leaves`] for the clauses from piece `i` on.
proof fn lemma_clause_breaks(ps: Seq<(Seq<char>, bool)>, i: int, m: int)
    requires
        0 <= i <= m < ps.len(),
    ensures
        ({
            let cl = clauses_from(ps, i);
            let n = text_count(ps.subrange(i, m)) as int;
            &&& ps[m].1 ==> clause_begins(cl, n)
            &&& !ps[m].1 && m + 1 < ps.len() && !ps[m + 1].1 ==> together(cl, n)
        }),
    decreases ps.len() - i,
{
    let cl = clauses_from(ps, i);
    let n = text_count(ps.subrange(i, m)) as int;
    lemma_count_split(ps, i, m);
    if ps[i].1 {
        if m == i {
            assert(ps.subrange(i, m) =~= Seq::empty());
            assert(cl.take(0) =~= Seq::empty());
            assert(size(cl.take(0)) == 0);
        } else {
            lemma_clause_breaks(ps, i + 1, m);
            lemma_count_split(ps, i + 1, m);
            lemma_count_split(ps, i, i + 1);
            reveal_with_fuel(text_count, 2);
            assert(ps.subrange(i, i + 1).drop_last() =~= Seq::empty());
            assert(ps.subrange(i, i + 1).last() == ps[i]);
        }
    } else {
        lemma_run_end(ps, i);
        let e = run_end(ps, i);
        let c = piece_texts(ps.subrange(i, e));
        let rest = clauses_from(ps, e);
        assert(cl == seq![c] + rest);
        lemma_count_split(ps, i, e);
        if m < e {
            assert(n == m - i);
            if m + 1 < ps.len() && !ps[m + 1].1 {
                assert(m + 1 < e);
                assert(cl.take(0) =~= Seq::empty());
                assert(size(cl.take(0)) == 0);
                assert(cl[0] == c);
            }
        } else {
            lemma_clause_breaks(ps, e, m);
            lemma_count_split(ps, e, m);
            let q = text_count(ps.subrange(e, m)) as int;
            assert(n == c.len() + q);
            if ps[m].1 {
                let k = choose|k: int| 0 <= k <= rest.len() && size(#[trigger] rest.take(k)) == q;
                lemma_size_front(c, rest, k);
                assert(size(cl.take(k + 1)) == n);
            } else if m + 1 < ps.len() && !ps[m + 1].1 {
                let k = choose|k: int|
                    0 <= k < rest.len() && size(#[trigger] rest.take(k)) <= q && q + 1 < size(
                        rest.take(k),
                    ) + rest[k].len();
                lemma_size_front(c, rest, k);
                assert(cl[k + 1] == rest[k]);
                assert(size(cl.take(k + 1)) <= n);
            }
        }
    }
}

/// A clause is what punctuation leaves together: two pieces of text that follow each other,
/// be it across words, stand in one clause, and so on one line; and where punctuation comes
/// between pieces of text, a new clause begins.
pub proof fn law_clauses_are_what_punctuation_leaves(ws: Seq<Seq<(Seq<char>, bool)>>, m: int)
    requires
        0 <= m < items(ws).len(),
    ensures
        ({
            let n = text_count(items(ws).take(m)) as int;
            &&& items(ws)[m].1 ==> clause_begins(clauses(ws), n)
            &&& !items(ws)[m].1 && m + 1 < items(ws).len() && !items(ws)[m + 1].1 ==> together(
                clauses(ws),
                n,
            )
        }),
{
    lemma_clause_breaks(items(ws), 0, m);
    assert(items(ws).subrange(0, m) =~= items(ws).take(m));
}

} // verus!
