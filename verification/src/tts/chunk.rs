//! Cutting a paragraph into chunks for the speech model.
//!
//! A chunk holds as many whole sentences as fit in [`MAX_CHARS`] characters. A
//! sentence is only cut (after weak punctuation, or at a space) when it does not
//! fit by itself. Offsets count UTF-16 code units, the units in which a browser
//! slices a string.

use crate::text::edit::{find, find_char, lemma_find};
use crate::text::utf16::{count16, fits16, len16};
use crate::text::{
    char_is_whitespace, chars_of, find_text_end, find_ws_end, is_whitespace, lemma_strs_push,
    lemma_text_end, lemma_trim, lemma_ws_end, string_of, strs, trim, trim_end, trim_start, ws_end,
};
use vstd::prelude::*;

verus! {

/// The most characters of a chunk, short of the 510 tokens that the model takes. Only a
/// chunk without a space in it, and without weak punctuation to cut it at, can be longer.
pub const MAX_CHARS: usize = 400;

/// A part of a paragraph that is spoken at once.
#[derive(Debug, Clone, PartialEq, Eq)]
pub struct Chunk {
    /// The chunk's place among the chunks of its paragraph.
    pub idx: usize,
    /// Where it starts in the paragraph, in UTF-16 code units.
    pub offset: usize,
    /// Its text, without white space at either end.
    pub text: String,
}

/// What a [`Chunk`] holds.
#[verifier::ext_equal]
pub struct ChunkView {
    pub idx: int,
    pub offset: int,
    pub text: Seq<char>,
}

impl View for Chunk {
    type V = ChunkView;

    open spec fn view(&self) -> ChunkView {
        ChunkView { idx: self.idx as int, offset: self.offset as int, text: self.text@ }
    }
}

// --------------------------------------------------------------------------- sentences

/// The punctuation that can end a sentence.
pub open spec fn is_ender(c: char) -> bool {
    c == '.' || c == '!' || c == '?' || c == '…'
}

/// What may follow the end of a sentence and still belongs to it.
pub open spec fn is_closer(c: char) -> bool {
    is_ender(c) || c == '"' || c == '”' || c == '’' || c == '»' || c == ')' || c == '\''
}

/// Where the closing punctuation that starts at `i` ends.
pub open spec fn closers_end(s: Seq<char>, i: int) -> int
    decreases s.len() - i,
{
    if 0 <= i < s.len() && is_closer(s[i]) {
        closers_end(s, i + 1)
    } else {
        i
    }
}

/// [`closers_end`] moves forward and stays in the text.
pub proof fn lemma_closers_end(s: Seq<char>, i: int)
    requires
        0 <= i <= s.len(),
    ensures
        i <= closers_end(s, i) <= s.len(),
    decreases s.len() - i,
{
    if i < s.len() && is_closer(s[i]) {
        lemma_closers_end(s, i + 1);
    }
}

/// Where the sentence ends that goes on at `i`: after end punctuation, what closes
/// it and the white space that follows, if white space or nothing follows.
pub open spec fn sentence_end(s: Seq<char>, i: int) -> int
    decreases s.len() - i,
{
    if 0 <= i < s.len() {
        if is_ender(s[i]) {
            proof {
                lemma_closers_end(s, i + 1);
            }
            let j = closers_end(s, i + 1);
            if j >= s.len() || is_whitespace(s[j]) {
                ws_end(s, j)
            } else {
                sentence_end(s, j)
            }
        } else {
            sentence_end(s, i + 1)
        }
    } else {
        i
    }
}

/// A sentence has at least one character and ends in the text.
pub proof fn lemma_sentence_end(s: Seq<char>, i: int)
    requires
        0 <= i <= s.len(),
    ensures
        i <= sentence_end(s, i) <= s.len(),
        i < s.len() ==> i < sentence_end(s, i),
    decreases s.len() - i,
{
    if i < s.len() {
        if is_ender(s[i]) {
            lemma_closers_end(s, i + 1);
            let j = closers_end(s, i + 1);
            if j >= s.len() || is_whitespace(s[j]) {
                lemma_ws_end(s, j);
            } else {
                lemma_sentence_end(s, j);
            }
        } else {
            lemma_sentence_end(s, i + 1);
        }
    }
}

/// The sentences of `s` from `i` on, each as its start and its end.
pub open spec fn sentence_spans(s: Seq<char>, i: int) -> Seq<(int, int)>
    decreases s.len() - i,
{
    if 0 <= i < s.len() {
        proof {
            lemma_sentence_end(s, i);
        }
        seq![(i, sentence_end(s, i))] + sentence_spans(s, sentence_end(s, i))
    } else {
        Seq::empty()
    }
}

/// The parts of `s` that `spans` marks.
pub open spec fn cuts(s: Seq<char>, spans: Seq<(int, int)>) -> Seq<Seq<char>> {
    Seq::new(spans.len(), |k: int| s.subrange(spans[k].0, spans[k].1))
}

/// Whether `c` can end a sentence.
fn char_is_ender(c: char) -> (r: bool)
    ensures
        r == is_ender(c),
{
    c == '.' || c == '!' || c == '?' || c == '…'
}

/// Whether `c` may follow the end of a sentence.
fn char_is_closer(c: char) -> (r: bool)
    ensures
        r == is_closer(c),
{
    char_is_ender(c) || c == '"' || c == '”' || c == '’' || c == '»' || c == ')' || c == '\''
}

/// Where the closing punctuation that starts at `i` ends.
fn find_closers_end(s: &[char], i: usize) -> (r: usize)
    requires
        i <= s@.len(),
    ensures
        r == closers_end(s@, i as int),
        i <= r <= s@.len(),
{
    let mut k: usize = i;
    while k < s.len() && char_is_closer(s[k])
        invariant
            i <= k <= s@.len(),
            closers_end(s@, k as int) == closers_end(s@, i as int),
        decreases s@.len() - k,
    {
        k = k + 1;
    }
    k
}

/// Where the sentence that goes on at `i` ends.
fn find_sentence_end(s: &[char], i: usize) -> (r: usize)
    requires
        i < s@.len(),
    ensures
        r == sentence_end(s@, i as int),
        i < r <= s@.len(),
{
    let mut k: usize = i;
    while k < s.len()
        invariant
            i <= k <= s@.len(),
            i < s@.len(),
            sentence_end(s@, k as int) == sentence_end(s@, i as int),
        decreases s@.len() - k,
    {
        if char_is_ender(s[k]) {
            let j: usize = find_closers_end(s, k + 1);
            if j >= s.len() || char_is_whitespace(s[j]) {
                let e: usize = find_ws_end(s, j);
                proof {
                    lemma_sentence_end(s@, i as int);
                }
                return e;
            }
            k = j;
        } else {
            k = k + 1;
        }
    }
    k
}

/// Splits `text` into sentences. Punctuation and the white space that follows it
/// stay with their sentence, so the parts make up the text.
pub fn sentences(text: &str) -> (r: Vec<String>)
    ensures
        strs(r@) == cuts(text@, sentence_spans(text@, 0)),
{
    let cs: Vec<char> = chars_of(text);
    let s: &[char] = cs.as_slice();
    let mut out: Vec<String> = Vec::new();
    let mut i: usize = 0;
    let ghost mut done: Seq<(int, int)> = Seq::empty();
    while i < s.len()
        invariant
            0 <= i <= s@.len(),
            s@ == text@,
            done + sentence_spans(s@, i as int) =~= sentence_spans(s@, 0),
            strs(out@) =~= cuts(s@, done),
        decreases s@.len() - i,
    {
        let e: usize = find_sentence_end(s, i);
        let t: String = string_of(&s[i..e]);
        proof {
            lemma_strs_push(out@, t);
            done = done.push((i as int, e as int));
        }
        out.push(t);
        i = e;
    }
    out
}

// -------------------------------------------------------------- sentences that are long

/// Punctuation at which a long sentence is cut.
pub open spec fn is_weak(c: char) -> bool {
    c == ',' || c == ';' || c == ':' || c == '—' || c == '–'
}

/// The position after the last weak punctuation of `p[a..e]`; `a` if there is none.
pub open spec fn last_weak(p: Seq<char>, a: int, e: int) -> int
    decreases e - a,
{
    if a < e && !is_weak(p[e - 1]) {
        last_weak(p, a, e - 1)
    } else {
        e
    }
}

/// The end of the word of `p[..e]` that starts at `w`: after the next space.
pub open spec fn space_end(p: Seq<char>, w: int, e: int) -> int {
    if find(p, ' ', w) < e {
        find(p, ' ', w) + 1
    } else {
        e
    }
}

/// Where a piece that starts at `a` ends, when the word at `w` does not fit any more:
/// after its last weak punctuation, unless that leaves less than a quarter of a
/// chunk; before the word otherwise.
pub open spec fn cut_at(p: Seq<char>, a: int, w: int) -> int {
    let c = last_weak(p, a, a + trim_end(p.subrange(a, w)).len());
    if c - a > MAX_CHARS / 4 {
        c
    } else {
        w
    }
}

/// The part of `p[a..b]` that is left without white space at its ends.
pub open spec fn tight(p: Seq<char>, a: int, b: int) -> (int, int) {
    let t = p.subrange(a, b);
    (a + ws_end(t, 0), a + ws_end(t, 0) + trim(t).len())
}

/// Where the word `p[w..n]` is cut, which stands alone in its piece: nowhere, which is `n`,
/// if it fits. Otherwise after the last weak punctuation that fits, unless that leaves
/// less than a quarter of a chunk.
pub open spec fn word_cut(p: Seq<char>, w: int, n: int) -> int {
    let t = tight(p, w, n);
    let c = last_weak(p, t.0, t.0 + MAX_CHARS);
    if t.1 - t.0 > MAX_CHARS && c - t.0 > MAX_CHARS / 4 {
        c
    } else {
        n
    }
}

/// The pieces of a long sentence that ends at `e`: the piece that starts at `a` has
/// been filled up to the word at `w`. Where the word does not fit, the piece is cut, and
/// the word joins what is left of it, if it fits there without the white space at the
/// ends; else that is cut as well.
pub open spec fn long_spans(p: Seq<char>, a: int, w: int, e: int) -> Seq<(int, int)>
    decreases e - w, w - a,
{
    if 0 <= a <= w < e <= p.len() {
        proof {
            lemma_find(p, ' ', w);
            if a < w {
                lemma_cut_at(p, a, w);
            }
            lemma_word_cut(p, w, space_end(p, w, e));
        }
        let n = space_end(p, w, e);
        if a < w && n - a > MAX_CHARS {
            let c = cut_at(p, a, w);
            if trim(p.subrange(c, n)).len() <= MAX_CHARS {
                seq![(a, c)] + long_spans(p, c, n, e)
            } else {
                seq![(a, c)] + long_spans(p, c, w, e)
            }
        } else if a == w && word_cut(p, w, n) < n {
            seq![(a, word_cut(p, w, n))] + long_spans(p, word_cut(p, w, n), word_cut(p, w, n), e)
        } else {
            long_spans(p, a, n, e)
        }
    } else if a < e {
        seq![(a, e)]
    } else {
        Seq::empty()
    }
}

/// [`last_weak`] stays between its bounds.
pub proof fn lemma_last_weak(p: Seq<char>, a: int, e: int)
    requires
        0 <= a <= e <= p.len(),
    ensures
        a <= last_weak(p, a, e) <= e,
    decreases e - a,
{
    if a < e && !is_weak(p[e - 1]) {
        lemma_last_weak(p, a, e - 1);
    }
}

/// A word is cut after its start.
pub proof fn lemma_word_cut(p: Seq<char>, w: int, n: int)
    requires
        0 <= w < n <= p.len(),
    ensures
        w < word_cut(p, w, n) <= n,
        w <= tight(p, w, n).0 <= tight(p, w, n).1 <= n,
{
    lemma_trim(p.subrange(w, n));
    let t = tight(p, w, n);
    if t.1 - t.0 > MAX_CHARS {
        lemma_last_weak(p, t.0, t.0 + MAX_CHARS);
    }
}

/// A piece is cut after its start, at the word that does not fit or before it.
pub proof fn lemma_cut_at(p: Seq<char>, a: int, w: int)
    requires
        0 <= a < w <= p.len(),
    ensures
        a < cut_at(p, a, w) <= w,
        cut_at(p, a, w) == w || cut_at(p, a, w) - a > MAX_CHARS / 4,
{
    let t = p.subrange(a, w);
    lemma_text_end(t, t.len() as int);
    lemma_last_weak(p, a, a + trim_end(t).len());
}

/// Whether a long sentence can be cut after `c`.
fn char_is_weak(c: char) -> (r: bool)
    ensures
        r == is_weak(c),
{
    c == ',' || c == ';' || c == ':' || c == '—' || c == '–'
}

/// The position after the last weak punctuation of `p[a..e]`.
fn find_last_weak(p: &[char], a: usize, e: usize) -> (r: usize)
    requires
        a <= e <= p@.len(),
    ensures
        r == last_weak(p@, a as int, e as int),
        a <= r <= e,
{
    let mut k: usize = e;
    while k > a && !char_is_weak(p[k - 1])
        invariant
            a <= k <= e <= p@.len(),
            last_weak(p@, a as int, k as int) == last_weak(p@, a as int, e as int),
        decreases k,
    {
        k = k - 1;
    }
    k
}

/// Where the piece of `p` that starts at `a` ends, when the word at `w` does not fit.
fn find_cut(p: &[char], a: usize, w: usize) -> (r: usize)
    requires
        a < w <= p@.len(),
    ensures
        r == cut_at(p@, a as int, w as int),
        a < r <= w,
{
    let piece: &[char] = &p[a..w];
    let t: usize = find_text_end(piece, piece.len());
    proof {
        lemma_cut_at(p@, a as int, w as int);
        lemma_text_end(piece@, piece@.len() as int);
    }
    let c: usize = find_last_weak(p, a, a + t);
    if c - a > MAX_CHARS / 4 {
        c
    } else {
        w
    }
}

/// The part of `p[a..b]` that is left without white space at its ends.
fn find_tight(p: &[char], a: usize, b: usize) -> (r: (usize, usize))
    requires
        a <= b <= p@.len(),
    ensures
        r.0 == tight(p@, a as int, b as int).0,
        r.1 == tight(p@, a as int, b as int).1,
        a <= r.0 <= r.1 <= b,
        r.1 - r.0 == trim(p@.subrange(a as int, b as int)).len(),
{
    let piece: &[char] = &p[a..b];
    let lead: usize = find_ws_end(piece, 0);
    let body: &[char] = &piece[lead..piece.len()];
    let len: usize = find_text_end(body, body.len());
    proof {
        lemma_trim(piece@);
        lemma_text_end(body@, body@.len() as int);
        assert(body@ =~= trim_start(piece@));
        assert(trim(piece@).len() == len);
    }
    (a + lead, a + lead + len)
}

/// Where the word `p[w..n]` is cut, which stands alone in its piece.
fn find_word_cut(p: &[char], w: usize, n: usize) -> (r: usize)
    requires
        w < n <= p@.len(),
    ensures
        r == word_cut(p@, w as int, n as int),
        w < r <= n,
{
    proof {
        lemma_word_cut(p@, w as int, n as int);
    }
    let t: (usize, usize) = find_tight(p, w, n);
    if t.1 - t.0 > MAX_CHARS {
        let c: usize = find_last_weak(p, t.0, t.0 + MAX_CHARS);
        if c - t.0 > MAX_CHARS / 4 {
            return c;
        }
    }
    n
}

/// The spans as mathematical integers.
pub open spec fn spans_of(v: Seq<(usize, usize)>) -> Seq<(int, int)> {
    Seq::new(v.len(), |k: int| (v[k].0 as int, v[k].1 as int))
}

/// The pieces of the long sentence `p[a..e]`.
fn long_pieces(p: &[char], a: usize, e: usize) -> (r: Vec<(usize, usize)>)
    requires
        a <= e <= p@.len(),
    ensures
        spans_of(r@) == long_spans(p@, a as int, a as int, e as int),
        forall|k: int| 0 <= k < r@.len() ==> (#[trigger] r@[k]).0 <= r@[k].1 <= p@.len(),
{
    let mut out: Vec<(usize, usize)> = Vec::new();
    let mut start: usize = a;
    let mut w: usize = a;
    while w < e
        invariant
            a <= start <= w <= e <= p@.len(),
            spans_of(out@) + long_spans(p@, start as int, w as int, e as int) =~= long_spans(
                p@,
                a as int,
                a as int,
                e as int,
            ),
            forall|k: int|
                0 <= k < out@.len() ==> (#[trigger] out@[k]).0 <= out@[k].1 <= p@.len(),
        decreases e - w, w - start,
    {
        let sp: usize = find_char(p, ' ', w);
        let n: usize = if sp < e {
            sp + 1
        } else {
            e
        };
        if start < w && n - start > MAX_CHARS {
            let c: usize = find_cut(p, start, w);
            let ghost before = out@;
            out.push((start, c));
            assert(spans_of(out@) =~= spans_of(before).push((start as int, c as int)));
            start = c;
            let t: (usize, usize) = find_tight(p, c, n);
            if t.1 - t.0 <= MAX_CHARS {
                w = n;
            }
        } else {
            let mut next: usize = n;
            if start == w {
                let c: usize = find_word_cut(p, w, n);
                if c < n {
                    let ghost before = out@;
                    out.push((start, c));
                    assert(spans_of(out@) =~= spans_of(before).push((start as int, c as int)));
                    start = c;
                    next = c;
                }
            }
            w = next;
        }
    }
    if start < e {
        let ghost before = out@;
        out.push((start, e));
        assert(spans_of(out@) =~= spans_of(before).push((start as int, e as int)));
    }
    out
}

/// Splits a sentence that is longer than [`MAX_CHARS`]: fills a piece word by word,
/// and cuts it after the last weak punctuation that fitted, else at a space.
pub fn split_long(s: &str) -> (r: Vec<String>)
    ensures
        strs(r@) == cuts(s@, long_spans(s@, 0, 0, s@.len() as int)),
{
    let cs: Vec<char> = chars_of(s);
    let p: &[char] = cs.as_slice();
    let pieces: Vec<(usize, usize)> = long_pieces(p, 0, p.len());
    let mut out: Vec<String> = Vec::new();
    let mut k: usize = 0;
    while k < pieces.len()
        invariant
            0 <= k <= pieces@.len(),
            p@ == s@,
            forall|j: int|
                0 <= j < pieces@.len() ==> (#[trigger] pieces@[j]).0 <= pieces@[j].1 <= p@.len(),
            strs(out@) =~= cuts(p@, spans_of(pieces@)).take(k as int),
        decreases pieces@.len() - k,
    {
        let w: (usize, usize) = pieces[k];
        let t: String = string_of(&p[w.0..w.1]);
        proof {
            lemma_strs_push(out@, t);
        }
        out.push(t);
        k = k + 1;
    }
    out
}

// ------------------------------------------------------------------------------ chunks

/// [`tight`] as a list, which is empty when `p[a..b]` is blank.
pub open spec fn kept(p: Seq<char>, a: int, b: int) -> Seq<(int, int)> {
    let w = tight(p, a, b);
    if w.0 < w.1 {
        seq![w]
    } else {
        Seq::empty()
    }
}

/// [`kept`] of each of `spans`.
pub open spec fn kept_all(p: Seq<char>, spans: Seq<(int, int)>) -> Seq<(int, int)>
    decreases spans.len(),
{
    if spans.len() == 0 {
        Seq::empty()
    } else {
        kept_all(p, spans.drop_last()) + kept(p, spans.last().0, spans.last().1)
    }
}

/// Where the chunk ends that starts with the sentences `p[i..e]`: the sentences that
/// follow join it as long as they fit.
pub open spec fn fit_end(p: Seq<char>, i: int, e: int) -> int
    decreases p.len() - e,
{
    if 0 <= i <= e < p.len() {
        proof {
            lemma_sentence_end(p, e);
        }
        let n = sentence_end(p, e);
        if n - e <= MAX_CHARS && trim_start(p.subrange(i, e)).len() + (n - e) <= MAX_CHARS {
            fit_end(p, i, n)
        } else {
            e
        }
    } else {
        e
    }
}

/// [`fit_end`] moves forward and stays in the text.
pub proof fn lemma_fit_end(p: Seq<char>, i: int, e: int)
    requires
        0 <= i <= e <= p.len(),
    ensures
        e <= fit_end(p, i, e) <= p.len(),
    decreases p.len() - e,
{
    if e < p.len() {
        lemma_sentence_end(p, e);
        let n = sentence_end(p, e);
        if n - e <= MAX_CHARS && trim_start(p.subrange(i, e)).len() + (n - e) <= MAX_CHARS {
            lemma_fit_end(p, i, n);
        }
    }
}

/// The chunks of `p` from the sentence at `i` on, each as its start and its end.
pub open spec fn chunk_spans(p: Seq<char>, i: int) -> Seq<(int, int)>
    decreases p.len() - i,
{
    if 0 <= i < p.len() {
        proof {
            lemma_sentence_end(p, i);
            lemma_fit_end(p, i, sentence_end(p, i));
        }
        let e = sentence_end(p, i);
        if e - i > MAX_CHARS {
            kept_all(p, long_spans(p, i, i, e)) + chunk_spans(p, e)
        } else {
            kept(p, i, fit_end(p, i, e)) + chunk_spans(p, fit_end(p, i, e))
        }
    } else {
        Seq::empty()
    }
}

/// The chunk at place `k`, which covers the span `w` of `p`.
pub open spec fn chunk_of(p: Seq<char>, k: int, w: (int, int)) -> ChunkView {
    ChunkView { idx: k, offset: len16(p.take(w.0)) as int, text: p.subrange(w.0, w.1) }
}

/// The chunks of the paragraph `p`.
pub open spec fn chunks(p: Seq<char>) -> Seq<ChunkView> {
    let spans = chunk_spans(p, 0);
    Seq::new(spans.len(), |k: int| chunk_of(p, k, spans[k]))
}

/// What a list of chunks holds.
pub open spec fn chunk_views(v: Seq<Chunk>) -> Seq<ChunkView> {
    Seq::new(v.len(), |k: int| v[k]@)
}

/// Where the chunk that starts with the sentences `p[i..e]` ends.
fn find_fit_end(p: &[char], i: usize, e: usize) -> (r: usize)
    requires
        i <= e <= p@.len(),
    ensures
        r == fit_end(p@, i as int, e as int),
        e <= r <= p@.len(),
{
    let mut g: usize = e;
    while g < p.len()
        invariant
            i <= e <= g <= p@.len(),
            fit_end(p@, i as int, g as int) == fit_end(p@, i as int, e as int),
        decreases p@.len() - g,
    {
        let n: usize = find_sentence_end(p, g);
        let filled: &[char] = &p[i..g];
        let lead: usize = find_ws_end(filled, 0);
        proof {
            lemma_ws_end(filled@, 0);
        }
        let len: usize = g - i - lead;
        if n - g <= MAX_CHARS && len <= MAX_CHARS && len + (n - g) <= MAX_CHARS {
            g = n;
        } else {
            return g;
        }
    }
    g
}

/// Appends the chunk that `p[a..b]` makes, if it is not blank.
fn push_kept(p: &[char], a: usize, b: usize, out: &mut Vec<Chunk>)
    requires
        a <= b <= p@.len(),
        len16(p@) <= usize::MAX,
    ensures
        chunk_views(final(out)@) == chunk_views(old(out)@) + Seq::new(
            kept(p@, a as int, b as int).len(),
            |k: int| chunk_of(p@, old(out)@.len() + k, kept(p@, a as int, b as int)[k]),
        ),
{
    let t: (usize, usize) = find_tight(p, a, b);
    if t.0 < t.1 {
        let start: usize = t.0;
        let offset: usize = count16(p, 0, start);
        let text: String = string_of(&p[start..t.1]);
        proof {
            assert(p@.subrange(0, start as int) =~= p@.take(start as int));
        }
        let chunk = Chunk { idx: out.len(), offset, text };
        out.push(chunk);
        assert(chunk@ == chunk_of(p@, old(out)@.len() as int, tight(p@, a as int, b as int)));
    }
    assert(chunk_views(out@) =~= chunk_views(old(out)@) + Seq::new(
        kept(p@, a as int, b as int).len(),
        |k: int| chunk_of(p@, old(out)@.len() + k, kept(p@, a as int, b as int)[k]),
    ));
}

/// The chunks that `spans` of `p` make, the first of which has the place `from`.
pub open spec fn chunks_at(p: Seq<char>, from: int, spans: Seq<(int, int)>) -> Seq<ChunkView> {
    Seq::new(spans.len(), |k: int| chunk_of(p, from + k, spans[k]))
}

/// Cuts a paragraph into chunks.
pub fn split(paragraph: &str) -> (r: Vec<Chunk>)
    ensures
        chunk_views(r@) == chunks(paragraph@),
{
    fits16(paragraph);
    let cs: Vec<char> = chars_of(paragraph);
    let p: &[char] = cs.as_slice();
    let mut out: Vec<Chunk> = Vec::new();
    let mut i: usize = 0;
    let ghost mut done: Seq<(int, int)> = Seq::empty();
    while i < p.len()
        invariant
            0 <= i <= p@.len(),
            p@ == paragraph@,
            len16(p@) <= usize::MAX,
            done + chunk_spans(p@, i as int) =~= chunk_spans(p@, 0),
            chunk_views(out@) =~= chunks_at(p@, 0, done),
        decreases p@.len() - i,
    {
        let e: usize = find_sentence_end(p, i);
        if e - i > MAX_CHARS {
            let pieces: Vec<(usize, usize)> = long_pieces(p, i, e);
            let ghost base = done;
            let ghost spans = spans_of(pieces@);
            let mut k: usize = 0;
            while k < pieces.len()
                invariant
                    0 <= k <= pieces@.len(),
                    len16(p@) <= usize::MAX,
                    spans == spans_of(pieces@),
                    forall|j: int|
                        0 <= j < pieces@.len() ==> (#[trigger] pieces@[j]).0 <= pieces@[j].1
                            <= p@.len(),
                    done =~= base + kept_all(p@, spans.take(k as int)),
                    chunk_views(out@) =~= chunks_at(p@, 0, done),
                decreases pieces@.len() - k,
            {
                let w: (usize, usize) = pieces[k];
                push_kept(p, w.0, w.1, &mut out);
                proof {
                    let next = spans.take(k + 1);
                    assert(next.drop_last() =~= spans.take(k as int));
                    assert(next.last() == (w.0 as int, w.1 as int));
                    done = done + kept(p@, w.0 as int, w.1 as int);
                }
                k = k + 1;
            }
            assert(spans.take(k as int) =~= spans);
            i = e;
        } else {
            let g: usize = find_fit_end(p, i, e);
            push_kept(p, i, g, &mut out);
            proof {
                done = done + kept(p@, i as int, g as int);
            }
            i = g;
        }
    }
    assert(chunk_views(out@) =~= chunks(paragraph@));
    out
}

} // verus!
