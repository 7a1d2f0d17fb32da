//! What is phonemized together, and how the phonemes come back to their words.

use crate::text::{
    chars_of, join, join_strings, lemma_rows_push, lemma_strs_push, push_chars, rows, split_words,
    string_of, strs, trim, trimmed, words,
};
use crate::tts::phonemize::{
    break_word, fix, fixed, normalize_chars, normalized, pieces, pieces_view, Lang,
};
use vstd::prelude::*;

verus! {

// ------------------------------------------------------------------------------ clauses

/// The pieces of each word of `text`.
pub open spec fn piece_rows(text: Seq<char>) -> Seq<Seq<(Seq<char>, bool)>> {
    Seq::new(words(text).len(), |i: int| pieces(words(text)[i]))
}

/// All the pieces of the words `ws`, in order.
pub open spec fn items(ws: Seq<Seq<(Seq<char>, bool)>>) -> Seq<(Seq<char>, bool)>
    decreases ws.len(),
{
    if ws.len() == 0 {
        Seq::empty()
    } else {
        items(ws.drop_last()) + ws.last()
    }
}

/// Where the run of text pieces that starts at `i` ends.
pub open spec fn run_end(ps: Seq<(Seq<char>, bool)>, i: int) -> int
    decreases ps.len() - i,
{
    if 0 <= i < ps.len() && !ps[i].1 {
        run_end(ps, i + 1)
    } else {
        i
    }
}

/// A run of text pieces holds no punctuation, and punctuation or the end stops it.
pub proof fn lemma_run_end(ps: Seq<(Seq<char>, bool)>, i: int)
    requires
        0 <= i <= ps.len(),
    ensures
        i <= run_end(ps, i) <= ps.len(),
        i < ps.len() && !ps[i].1 ==> i < run_end(ps, i),
        forall|k: int| i <= k < run_end(ps, i) ==> !(#[trigger] ps[k]).1,
        run_end(ps, i) < ps.len() ==> ps[run_end(ps, i)].1,
    decreases ps.len() - i,
{
    if i < ps.len() && !ps[i].1 {
        lemma_run_end(ps, i + 1);
    }
}

/// The text of the pieces `ps`.
pub open spec fn piece_texts(ps: Seq<(Seq<char>, bool)>) -> Seq<Seq<char>> {
    Seq::new(ps.len(), |i: int| ps[i].0)
}

/// The clauses among the pieces `ps` from `i` on: the longest runs of text pieces.
pub open spec fn clauses_from(ps: Seq<(Seq<char>, bool)>, i: int) -> Seq<Seq<Seq<char>>>
    decreases ps.len() - i,
{
    if 0 <= i < ps.len() {
        if ps[i].1 {
            clauses_from(ps, i + 1)
        } else {
            proof {
                lemma_run_end(ps, i);
            }
            seq![piece_texts(ps.subrange(i, run_end(ps, i)))] + clauses_from(ps, run_end(ps, i))
        }
    } else {
        Seq::empty()
    }
}

/// The clauses of the words `ws`. A clause may go across words.
pub open spec fn clauses(ws: Seq<Seq<(Seq<char>, bool)>>) -> Seq<Seq<Seq<char>>> {
    clauses_from(items(ws), 0)
}

/// How many of the pieces `ps` are text.
pub open spec fn text_count(ps: Seq<(Seq<char>, bool)>) -> nat
    decreases ps.len(),
{
    if ps.len() == 0 {
        0
    } else {
        text_count(ps.drop_last()) + if ps.last().1 {
            0nat
        } else {
            1
        }
    }
}

/// How many pieces the clauses `cl` hold.
pub open spec fn size(cl: Seq<Seq<Seq<char>>>) -> nat
    decreases cl.len(),
{
    if cl.len() == 0 {
        0
    } else {
        size(cl.drop_last()) + cl.last().len()
    }
}

/// What the first pass asks for: one line per clause.
pub open spec fn first_lines(cl: Seq<Seq<Seq<char>>>) -> Seq<Seq<char>> {
    Seq::new(cl.len(), |i: int| join(cl[i], seq![' ']))
}

/// The phonemes of each piece of the clause `c`, where `line` gives them: the whole
/// line for a clause of one piece, and otherwise one word for each piece.
pub open spec fn settled(c: Seq<Seq<char>>, line: Seq<char>) -> Option<Seq<Seq<char>>> {
    if c.len() == 1 {
        Some(seq![line])
    } else if words(line).len() == c.len() {
        Some(words(line))
    } else {
        None
    }
}

/// What the second pass asks for: the pieces of the clauses that are not settled.
pub open spec fn second_lines(cl: Seq<Seq<Seq<char>>>, first: Seq<Seq<char>>) -> Seq<Seq<char>>
    decreases cl.len(),
{
    if cl.len() == 0 {
        Seq::empty()
    } else {
        let init = second_lines(cl.drop_last(), first);
        if settled(cl.last(), first[cl.len() - 1]) is None {
            init + cl.last()
        } else {
            init
        }
    }
}

/// The phonemes of every text piece, in order.
pub open spec fn sounds(
    cl: Seq<Seq<Seq<char>>>,
    first: Seq<Seq<char>>,
    second: Seq<Seq<char>>,
) -> Seq<Seq<char>>
    decreases cl.len(),
{
    if cl.len() == 0 {
        Seq::empty()
    } else {
        let init = sounds(cl.drop_last(), first, second);
        match settled(cl.last(), first[cl.len() - 1]) {
            Some(v) => init + v,
            None => {
                let r = second_lines(cl.drop_last(), first).len() as int;
                init + second.subrange(r, r + cl.last().len())
            },
        }
    }
}

/// The pieces `ps` of a word with the phonemes in place of the text; the first text
/// piece takes `ph[f]`, the next one `ph[f + 1]` and so on.
pub open spec fn voiced(ps: Seq<(Seq<char>, bool)>, ph: Seq<Seq<char>>, f: int) -> Seq<char>
    decreases ps.len(),
{
    if ps.len() == 0 {
        Seq::empty()
    } else {
        let init = ps.drop_last();
        voiced(init, ph, f) + if ps.last().1 {
            ps.last().0
        } else {
            ph[f + text_count(init)]
        }
    }
}

/// The phonemes and the punctuation of each word of `ws`.
pub open spec fn voiced_words(
    ws: Seq<Seq<(Seq<char>, bool)>>,
    ph: Seq<Seq<char>>,
    lang: Lang,
) -> Seq<Seq<char>> {
    Seq::new(
        ws.len(),
        |i: int| fixed(trim(voiced(ws[i], ph, text_count(items(ws.take(i))) as int)), lang),
    )
}

// ------------------------------------------------------------------------------- lemmas

/// Text pieces are counted part by part.
pub proof fn lemma_text_count_add(a: Seq<(Seq<char>, bool)>, b: Seq<(Seq<char>, bool)>)
    ensures
        text_count(a + b) == text_count(a) + text_count(b),
    decreases b.len(),
{
    if b.len() == 0 {
        assert(a + b =~= a);
    } else {
        lemma_text_count_add(a, b.drop_last());
        assert((a + b).drop_last() =~= a + b.drop_last());
    }
}

/// Pieces that are all text count in full.
proof fn lemma_text_count_run(ps: Seq<(Seq<char>, bool)>)
    requires
        forall|k: int| 0 <= k < ps.len() ==> !(#[trigger] ps[k]).1,
    ensures
        text_count(ps) == ps.len(),
    decreases ps.len(),
{
    if ps.len() > 0 {
        assert forall|k: int| 0 <= k < ps.drop_last().len() implies !(
        #[trigger] ps.drop_last()[k]).1 by {
            assert(ps[k] == ps.drop_last()[k]);
        }
        lemma_text_count_run(ps.drop_last());
    }
}

/// Clauses are counted part by part.
proof fn lemma_size_add(a: Seq<Seq<Seq<char>>>, b: Seq<Seq<Seq<char>>>)
    ensures
        size(a + b) == size(a) + size(b),
    decreases b.len(),
{
    if b.len() == 0 {
        assert(a + b =~= a);
    } else {
        lemma_size_add(a, b.drop_last());
        assert((a + b).drop_last() =~= a + b.drop_last());
    }
}

/// The clauses hold exactly the text pieces.
pub proof fn lemma_clauses_size(ps: Seq<(Seq<char>, bool)>, i: int)
    requires
        0 <= i <= ps.len(),
    ensures
        size(clauses_from(ps, i)) == text_count(ps.skip(i)),
    decreases ps.len() - i,
{
    if i < ps.len() {
        if ps[i].1 {
            lemma_clauses_size(ps, i + 1);
            assert(ps.skip(i) =~= seq![ps[i]] + ps.skip(i + 1));
            lemma_text_count_add(seq![ps[i]], ps.skip(i + 1));
            reveal_with_fuel(text_count, 2);
        } else {
            lemma_run_end(ps, i);
            let e = run_end(ps, i);
            lemma_clauses_size(ps, e);
            let run = ps.subrange(i, e);
            assert(ps.skip(i) =~= run + ps.skip(e));
            lemma_text_count_add(run, ps.skip(e));
            assert forall|k: int| 0 <= k < run.len() implies !(#[trigger] run[k]).1 by {
                assert(run[k] == ps[i + k]);
            }
            lemma_text_count_run(run);
            let one = seq![piece_texts(run)];
            lemma_size_add(one, clauses_from(ps, e));
            reveal_with_fuel(size, 2);
        }
    }
}

/// Every text piece gets its phonemes.
pub proof fn lemma_sounds_len(
    cl: Seq<Seq<Seq<char>>>,
    first: Seq<Seq<char>>,
    second: Seq<Seq<char>>,
)
    requires
        second_lines(cl, first).len() <= second.len(),
    ensures
        sounds(cl, first, second).len() == size(cl),
    decreases cl.len(),
{
    if cl.len() > 0 {
        lemma_sounds_len(cl.drop_last(), first, second);
    }
}

// ------------------------------------------------------------------------------- script

/// The contents of lists of pieces.
pub open spec fn piece_rows_view(v: Seq<Vec<(String, bool)>>) -> Seq<Seq<(Seq<char>, bool)>> {
    Seq::new(v.len(), |i: int| pieces_view(v[i]@))
}

/// The contents of lists of strings.
pub open spec fn clause_rows_view(v: Seq<Vec<String>>) -> Seq<Seq<Seq<char>>> {
    Seq::new(v.len(), |i: int| strs(v[i]@))
}

/// A text made ready for a backend: its words in pieces, and its clauses.
pub struct Script {
    words: Vec<Vec<(String, bool)>>,
    clauses: Vec<Vec<String>>,
}

/// All the pieces of `ws`, in order.
fn all_items(ws: &Vec<Vec<(String, bool)>>) -> (r: Vec<(String, bool)>)
    ensures
        pieces_view(r@) == items(piece_rows_view(ws@)),
{
    let mut out: Vec<(String, bool)> = Vec::new();
    let mut i: usize = 0;
    while i < ws.len()
        invariant
            0 <= i <= ws@.len(),
            pieces_view(out@) =~= items(piece_rows_view(ws@).take(i as int)),
        decreases ws@.len() - i,
    {
        let ghost before = pieces_view(out@);
        let w: &Vec<(String, bool)> = &ws[i];
        let mut j: usize = 0;
        while j < w.len()
            invariant
                0 <= j <= w@.len(),
                pieces_view(out@) =~= before + pieces_view(w@).take(j as int),
            decreases w@.len() - j,
        {
            let piece: (String, bool) = (w[j].0.clone(), w[j].1);
            let ghost part = pieces_view(out@);
            let ghost old_out = out@;
            out.push(piece);
            assert(pieces_view(out@) =~= part.push((w@[j as int].0@, w@[j as int].1)));
            j = j + 1;
        }
        proof {
            let next = piece_rows_view(ws@).take(i + 1);
            assert(next.drop_last() =~= piece_rows_view(ws@).take(i as int));
            assert(pieces_view(w@).take(j as int) =~= pieces_view(w@));
        }
        i = i + 1;
    }
    assert(piece_rows_view(ws@).take(i as int) =~= piece_rows_view(ws@));
    out
}

/// The clauses among the pieces `ps`.
fn find_clauses(ps: &Vec<(String, bool)>) -> (r: Vec<Vec<String>>)
    ensures
        clause_rows_view(r@) == clauses_from(pieces_view(ps@), 0),
{
    let ghost all = pieces_view(ps@);
    let mut out: Vec<Vec<String>> = Vec::new();
    let mut i: usize = 0;
    while i < ps.len()
        invariant
            0 <= i <= ps@.len(),
            all == pieces_view(ps@),
            clause_rows_view(out@) + clauses_from(all, i as int) =~= clauses_from(all, 0),
        decreases ps@.len() - i,
    {
        if ps[i].1 {
            i = i + 1;
        } else {
            let mut clause: Vec<String> = Vec::new();
            let mut e: usize = i;
            while e < ps.len() && !ps[e].1
                invariant
                    0 <= i <= e <= ps@.len(),
                    all == pieces_view(ps@),
                    run_end(all, e as int) == run_end(all, i as int),
                    strs(clause@) =~= piece_texts(all.subrange(i as int, e as int)),
                decreases ps@.len() - e,
            {
                let t: String = ps[e].0.clone();
                proof {
                    lemma_strs_push(clause@, t);
                }
                clause.push(t);
                e = e + 1;
            }
            proof {
                lemma_run_end(all, i as int);
            }
            let ghost before = out@;
            out.push(clause);
            assert(clause_rows_view(out@) =~= clause_rows_view(before).push(strs(clause@)));
            i = e;
        }
    }
    out
}

impl Script {
    /// The pieces of each word.
    pub closed spec fn rows(&self) -> Seq<Seq<(Seq<char>, bool)>> {
        piece_rows_view(self.words@)
    }

    /// The clauses are those of the words.
    pub closed spec fn wf(&self) -> bool {
        clause_rows_view(self.clauses@) == clauses(self.rows())
    }

    /// Normalizes `text`, and breaks it into pieces and clauses.
    pub fn new(text: &str) -> (r: Script)
        ensures
            r.wf(),
            r.rows() == piece_rows(normalized(text@)),
    {
        let plain: Vec<char> = normalize_chars(text);
        let ws: Vec<Vec<char>> = split_words(plain.as_slice());
        let mut out: Vec<Vec<(String, bool)>> = Vec::new();
        let mut i: usize = 0;
        while i < ws.len()
            invariant
                0 <= i <= ws@.len(),
                rows(ws@) == words(plain@),
                piece_rows_view(out@) =~= piece_rows(plain@).take(i as int),
            decreases ws@.len() - i,
        {
            let ps: Vec<(String, bool)> = break_word(ws[i].as_slice());
            let ghost before = out@;
            assert(rows(ws@)[i as int] == ws@[i as int]@);
            out.push(ps);
            assert(piece_rows_view(out@) =~= piece_rows_view(before).push(pieces_view(ps@)));
            i = i + 1;
        }
        assert(piece_rows(plain@).len() == rows(ws@).len());
        let all: Vec<(String, bool)> = all_items(&out);
        let cl: Vec<Vec<String>> = find_clauses(&all);
        Script { words: out, clauses: cl }
    }

    /// The lines of the first pass, one per clause.
    pub fn first_inputs(&self) -> (r: Vec<String>)
        requires
            self.wf(),
        ensures
            strs(r@) == first_lines(clauses(self.rows())),
    {
        let ghost cl = clauses(self.rows());
        let mut out: Vec<String> = Vec::new();
        let mut i: usize = 0;
        while i < self.clauses.len()
            invariant
                0 <= i <= self.clauses@.len(),
                clause_rows_view(self.clauses@) == cl,
                strs(out@) =~= first_lines(cl).take(i as int),
            decreases self.clauses@.len() - i,
        {
            let line: String = string_of(join_strings(self.clauses[i].as_slice()).as_slice());
            assert(cl[i as int] == strs(self.clauses@[i as int]@));
            proof {
                lemma_strs_push(out@, line);
            }
            out.push(line);
            i = i + 1;
        }
        out
    }

    /// Whether `line` settles the clause `i`: it has one piece, or as many as the line
    /// has words.
    fn settles(&self, i: usize, line: &str) -> (r: Option<Vec<Vec<char>>>)
        requires
            self.wf(),
            i < clauses(self.rows()).len(),
        ensures
            match settled(clauses(self.rows())[i as int], line@) {
                Some(v) => r matches Some(got) && rows(got@) == v,
                None => r is None,
            },
    {
        assert(clauses(self.rows())[i as int] == strs(self.clauses@[i as int]@));
        let cs: Vec<char> = chars_of(line);
        if self.clauses[i].len() == 1 {
            let mut out: Vec<Vec<char>> = Vec::new();
            out.push(cs);
            assert(rows(out@) =~= seq![line@]);
            return Some(out);
        }
        let ws: Vec<Vec<char>> = split_words(cs.as_slice());
        assert(rows(ws@).len() == ws@.len());
        if ws.len() == self.clauses[i].len() {
            Some(ws)
        } else {
            None
        }
    }

    /// The lines of the second pass: the pieces of the clauses that the lines `first`
    /// of the first pass do not settle.
    pub fn second_inputs(&self, first: &[String]) -> (r: Vec<String>)
        requires
            self.wf(),
            first@.len() == clauses(self.rows()).len(),
        ensures
            strs(r@) == second_lines(clauses(self.rows()), strs(first@)),
    {
        let ghost cl = clauses(self.rows());
        let mut out: Vec<String> = Vec::new();
        let mut i: usize = 0;
        while i < self.clauses.len()
            invariant
                0 <= i <= self.clauses@.len(),
                self.wf(),
                cl == clauses(self.rows()),
                clause_rows_view(self.clauses@) == cl,
                first@.len() == cl.len(),
                strs(out@) =~= second_lines(cl.take(i as int), strs(first@)),
            decreases self.clauses@.len() - i,
        {
            let ghost next = cl.take(i + 1);
            assert(next.drop_last() =~= cl.take(i as int));
            assert(strs(first@)[i as int] == first@[i as int]@);
            if self.settles(i, first[i].as_str()).is_none() {
                let ghost before = strs(out@);
                let c: &Vec<String> = &self.clauses[i];
                assert(cl[i as int] == strs(c@));
                let mut j: usize = 0;
                while j < c.len()
                    invariant
                        0 <= j <= c@.len(),
                        strs(out@) =~= before + strs(c@).take(j as int),
                    decreases c@.len() - j,
                {
                    let t: String = c[j].clone();
                    proof {
                        lemma_strs_push(out@, t);
                    }
                    out.push(t);
                    j = j + 1;
                }
                assert(strs(c@).take(j as int) =~= strs(c@));
            }
            i = i + 1;
        }
        assert(cl.take(i as int) =~= cl);
        out
    }

    /// The phonemes of every text piece.
    fn piece_sounds(&self, first: &[String], second: &[String]) -> (r: Vec<Vec<char>>)
        requires
            self.wf(),
            first@.len() == clauses(self.rows()).len(),
            second@.len() == second_lines(clauses(self.rows()), strs(first@)).len(),
        ensures
            rows(r@) == sounds(clauses(self.rows()), strs(first@), strs(second@)),
    {
        let ghost cl = clauses(self.rows());
        let mut out: Vec<Vec<char>> = Vec::new();
        let total: usize = second.len();
        let mut i: usize = 0;
        let mut r: usize = 0;
        while i < self.clauses.len()
            invariant
                0 <= i <= self.clauses@.len(),
                self.wf(),
                cl == clauses(self.rows()),
                clause_rows_view(self.clauses@) == cl,
                first@.len() == cl.len(),
                total == second@.len(),
                total == second_lines(cl, strs(first@)).len(),
                r == second_lines(cl.take(i as int), strs(first@)).len(),
                rows(out@) =~= sounds(cl.take(i as int), strs(first@), strs(second@)),
            decreases self.clauses@.len() - i,
        {
            let ghost next = cl.take(i + 1);
            assert(next.drop_last() =~= cl.take(i as int));
            assert(strs(first@)[i as int] == first@[i as int]@);
            proof {
                lemma_second_lines_grow(cl, strs(first@), i + 1);
            }
            let ghost before = rows(out@);
            match self.settles(i, first[i].as_str()) {
                Some(got) => {
                    push_rows(&mut out, got);
                },
                None => {
                    let n: usize = self.clauses[i].len();
                    assert(cl[i as int] == strs(self.clauses@[i as int]@));
                    let mut j: usize = 0;
                    while j < n
                        invariant
                            0 <= j <= n,
                            total == second@.len(),
                            r + n <= total,
                            rows(out@) =~= before + strs(second@).subrange(r as int, r + j),
                        decreases n - j,
                    {
                        let t: Vec<char> = chars_of(second[r + j].as_str());
                        proof {
                            lemma_rows_push(out@, t);
                        }
                        out.push(t);
                        j = j + 1;
                    }
                    r = r + n;
                },
            }
            i = i + 1;
        }
        assert(cl.take(i as int) =~= cl);
        out
    }

    /// The phonemes and the punctuation of each word, from what the two passes gave.
    pub fn speak(&self, first: &[String], second: &[String], lang: Lang) -> (r: Vec<String>)
        requires
            self.wf(),
            first@.len() == clauses(self.rows()).len(),
            second@.len() == second_lines(clauses(self.rows()), strs(first@)).len(),
        ensures
            strs(r@) == voiced_words(
                self.rows(),
                sounds(clauses(self.rows()), strs(first@), strs(second@)),
                lang,
            ),
    {
        let ph: Vec<Vec<char>> = self.piece_sounds(first, second);
        let ghost ws = self.rows();
        proof {
            lemma_sounds_len(clauses(ws), strs(first@), strs(second@));
            lemma_clauses_size(items(ws), 0);
            assert(items(ws).skip(0) =~= items(ws));
            assert(rows(ph@).len() == ph@.len());
        }
        let mut out: Vec<String> = Vec::new();
        let total: usize = ph.len();
        let mut i: usize = 0;
        let mut f: usize = 0;
        while i < self.words.len()
            invariant
                0 <= i <= self.words@.len(),
                ws == piece_rows_view(self.words@),
                total == ph@.len(),
                total == text_count(items(ws)),
                f == text_count(items(ws.take(i as int))),
                strs(out@) =~= voiced_words(ws, rows(ph@), lang).take(i as int),
            decreases self.words@.len() - i,
        {
            let w: &Vec<(String, bool)> = &self.words[i];
            let ghost ps = ws[i as int];
            let ghost start = f as int;
            proof {
                let next = ws.take(i + 1);
                assert(next.drop_last() =~= ws.take(i as int));
                lemma_text_count_add(items(ws.take(i as int)), ps);
                lemma_items_take(ws, i + 1);
            }
            let mut s: Vec<char> = Vec::new();
            let mut j: usize = 0;
            while j < w.len()
                invariant
                    0 <= j <= w@.len(),
                    ps == pieces_view(w@),
                    total == ph@.len(),
                    start + text_count(ps) <= total,
                    f == start + text_count(ps.take(j as int)),
                    s@ =~= voiced(ps.take(j as int), rows(ph@), start),
                decreases w@.len() - j,
            {
                proof {
                    let next = ps.take(j + 1);
                    assert(next.drop_last() =~= ps.take(j as int));
                    assert(ps =~= next + ps.skip(j + 1));
                    lemma_text_count_add(next, ps.skip(j + 1));
                }
                if w[j].1 {
                    push_chars(&mut s, chars_of(w[j].0.as_str()).as_slice());
                } else {
                    push_chars(&mut s, ph[f].as_slice());
                    f = f + 1;
                }
                j = j + 1;
            }
            assert(ps.take(j as int) =~= ps);
            let done: String = string_of(fix(trimmed(s.as_slice()), lang).as_slice());
            proof {
                lemma_strs_push(out@, done);
            }
            out.push(done);
            i = i + 1;
        }
        out
    }
}

/// Appends the rows `more` to `out`.
fn push_rows(out: &mut Vec<Vec<char>>, more: Vec<Vec<char>>)
    ensures
        rows(final(out)@) == rows(old(out)@) + rows(more@),
{
    let mut more: Vec<Vec<char>> = more;
    let ghost a = out@;
    let ghost b = more@;
    out.append(&mut more);
    assert(rows(out@) =~= rows(a) + rows(b));
}

/// A longer list of clauses asks for no fewer lines in the second pass.
proof fn lemma_second_lines_grow(cl: Seq<Seq<Seq<char>>>, first: Seq<Seq<char>>, k: int)
    requires
        0 <= k <= cl.len(),
    ensures
        second_lines(cl.take(k), first).len() <= second_lines(cl, first).len(),
    decreases cl.len(),
{
    if k < cl.len() {
        assert(cl.drop_last().take(k) =~= cl.take(k));
        lemma_second_lines_grow(cl.drop_last(), first, k);
    } else {
        assert(cl.take(k) =~= cl);
    }
}

/// The first words hold no more text pieces than all the words.
proof fn lemma_items_take(ws: Seq<Seq<(Seq<char>, bool)>>, k: int)
    requires
        0 <= k <= ws.len(),
    ensures
        text_count(items(ws.take(k))) <= text_count(items(ws)),
    decreases ws.len(),
{
    if k < ws.len() {
        assert(ws.drop_last().take(k) =~= ws.take(k));
        lemma_items_take(ws.drop_last(), k);
        lemma_text_count_add(items(ws.drop_last()), ws.last());
    } else {
        assert(ws.take(k) =~= ws);
    }
}

} // verus!
