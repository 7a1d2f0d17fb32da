//! When each word of a chunk is spoken.
//!
//! There are three ways to tell, from the best to the worst. Where the model gave a
//! duration for every token, and the phonemes of every word are known, the tokens of
//! each word are found and their durations summed. Where only the phonemes are known,
//! a word lasts in proportion to its sounds. Otherwise it lasts in proportion to its
//! letters and its punctuation.
//!
//! Durations are sampled and scaled outside: here a word gets its tokens or its
//! weight, and a list of points in time becomes the timings of the words.

use crate::text::utf16::{count16, fits16, len16, lemma_units_subrange, units};
use crate::text::{
    alphanumeric, chars_of, join, lemma_spans, spans_from, spans_view, strs, word_spans,
};
use crate::tts::vocab::{
    all_tokens, lemma_all_tokens_add, lemma_space, space_id, tokenize, tokens, MAX_TOKENS,
};
use vstd::prelude::*;
use vstd::string::*;

verus! {

/// When a word is spoken.
#[derive(Debug, Clone, Copy, PartialEq, Eq, Structural)]
pub struct WordTiming {
    /// Where the word starts in the chunk, in UTF-16 code units.
    pub o: usize,
    /// How many UTF-16 code units it takes.
    pub l: usize,
    /// When it starts, in milliseconds.
    pub s: u32,
    /// When it ends, in milliseconds.
    pub e: u32,
}

/// A word and its place in the text, in UTF-16 code units.
#[derive(Debug, Clone, Copy, PartialEq, Eq)]
pub struct Word<'a> {
    pub text: &'a str,
    pub offset16: usize,
    pub len16: usize,
}

/// What a [`Word`] holds.
#[verifier::ext_equal]
pub struct WordView {
    pub text: Seq<char>,
    pub offset16: int,
    pub len16: int,
}

impl<'a> View for Word<'a> {
    type V = WordView;

    open spec fn view(&self) -> WordView {
        WordView {
            text: self.text@,
            offset16: self.offset16 as int,
            len16: self.len16 as int,
        }
    }
}

/// The contents of a list of words.
pub open spec fn word_views(v: Seq<Word<'_>>) -> Seq<WordView> {
    Seq::new(v.len(), |i: int| v[i]@)
}

/// The words of `s` and their places.
pub open spec fn placed_words(s: Seq<char>) -> Seq<WordView> {
    let spans = spans_from(s, 0);
    Seq::new(
        spans.len(),
        |k: int|
            WordView {
                text: s.subrange(spans[k].0, spans[k].1),
                offset16: len16(s.take(spans[k].0)) as int,
                len16: len16(s.subrange(spans[k].0, spans[k].1)) as int,
            },
    )
}

/// The words of `text`: the longest runs without white space.
pub fn words<'a>(text: &'a str) -> (r: Vec<Word<'a>>)
    ensures
        word_views(r@) == placed_words(text@),
{
    fits16(text);
    let cs: Vec<char> = chars_of(text);
    let spans: Vec<(usize, usize)> = word_spans(cs.as_slice());
    let mut out: Vec<Word<'a>> = Vec::new();
    let mut k: usize = 0;
    while k < spans.len()
        invariant
            0 <= k <= spans@.len(),
            cs@ == text@,
            len16(cs@) <= usize::MAX,
            spans_view(spans@) == spans_from(cs@, 0),
            forall|j: int| 0 <= j < spans@.len() ==> (#[trigger] spans@[j]).0 < spans@[j].1
                <= cs@.len(),
            word_views(out@) =~= placed_words(text@).take(k as int),
        decreases spans@.len() - k,
    {
        let sp: (usize, usize) = spans[k];
        assert(spans_from(cs@, 0)[k as int] == (sp.0 as int, sp.1 as int));
        let offset16: usize = count16(cs.as_slice(), 0, sp.0);
        assert(cs@.subrange(0, sp.0 as int) =~= cs@.take(sp.0 as int));
        let len16: usize = count16(cs.as_slice(), sp.0, sp.1);
        let word = Word { text: text.substring_char(sp.0, sp.1), offset16, len16 };
        let ghost before = out@;
        out.push(word);
        assert(word_views(out@) =~= word_views(before).push(word@));
        k = k + 1;
    }
    assert(spans_view(spans@).len() == spans@.len());
    out
}

// -------------------------------------------------------------------------- alignment

/// What the model said of its tokens.
pub struct Durations<'a, T> {
    /// How long each token lasts, in the order of the ids.
    pub per_token: &'a [T],
    /// The ids that the model was given, with the pads.
    pub token_ids: &'a [i64],
    /// The id of the space.
    pub space_id: i64,
}

/// Where the tokens of word `k` start: after the first pad, and after the tokens of
/// each word before it and the space behind them.
pub open spec fn token_start(per_word: Seq<Seq<char>>, k: int) -> int
    decreases k,
{
    if k <= 0 {
        1
    } else {
        token_start(per_word, k - 1) + tokens(per_word[k - 1]).len() + 1
    }
}

/// Whether the ids are those of the words `per_word`: a pad, the tokens of each word
/// with a space behind them, and in place of the last space a pad.
pub open spec fn words_aligned(ids: Seq<i64>, space: i64, per_word: Seq<Seq<char>>) -> bool {
    &&& token_start(per_word, per_word.len() as int) == ids.len()
    &&& forall|k: int|
        0 < k <= per_word.len() ==> token_start(per_word, k) <= ids.len() && ids[#[trigger]
        token_start(per_word, k) - 1] == if k == per_word.len() {
            0
        } else {
            space
        }
}

/// The tokens of each word, as the place of the first and the place behind the last.
/// The space behind a word counts as its own.
pub open spec fn token_spans(per_word: Seq<Seq<char>>) -> Seq<(int, int)> {
    Seq::new(
        per_word.len(),
        |k: int| (token_start(per_word, k), token_start(per_word, k + 1)),
    )
}

/// Whether the durations say when each word is spoken.
pub open spec fn has_groups(
    ids: Seq<i64>,
    durations: nat,
    space: i64,
    per_word: Seq<Seq<char>>,
) -> bool {
    durations == ids.len() && ids.len() >= 3 && words_aligned(ids, space, per_word)
}

/// The starts of later words come later.
pub proof fn lemma_token_start(per_word: Seq<Seq<char>>, a: int, b: int)
    requires
        0 <= a <= b <= per_word.len(),
    ensures
        1 <= token_start(per_word, a),
        token_start(per_word, a) + (b - a) <= token_start(per_word, b),
    decreases b,
{
    if b > 0 {
        if a < b {
            lemma_token_start(per_word, a, b - 1);
        } else {
            lemma_token_start(per_word, a - 1, b - 1);
        }
    }
}

/// Finds the tokens of each word, the space behind it with them, or `None` where the
/// ids are not those of the words.
pub fn token_groups<T>(d: &Durations<'_, T>, per_word: &[String]) -> (r: Option<
    Vec<(usize, usize)>,
>)
    ensures
        r is Some <==> has_groups(
            d.token_ids@,
            d.per_token@.len(),
            d.space_id,
            strs(per_word@),
        ),
        r matches Some(v) ==> spans_view(v@) == token_spans(strs(per_word@)),
{
    let ghost pw = strs(per_word@);
    let n: usize = d.token_ids.len();
    if d.per_token.len() != n || n < 3 {
        return None;
    }
    let mut out: Vec<(usize, usize)> = Vec::new();
    let mut i: usize = 1;
    let mut k: usize = 0;
    while k < per_word.len()
        invariant
            0 <= k <= per_word@.len(),
            pw == strs(per_word@),
            n == d.token_ids@.len(),
            n >= 3,
            n == d.per_token@.len(),
            1 <= i <= n,
            i == token_start(pw, k as int),
            forall|j: int|
                0 < j <= k ==> token_start(pw, j) <= n && d.token_ids@[#[trigger] token_start(pw, j)
                    - 1] == if j == pw.len() {
                    0
                } else {
                    d.space_id
                },
            spans_view(out@) =~= token_spans(pw).take(k as int),
        decreases per_word@.len() - k,
    {
        let len: usize = tokenize(per_word[k].as_str()).len();
        assert(pw[k as int] == per_word@[k as int]@);
        let last: bool = k + 1 == per_word.len();
        let expected: i64 = if last {
            0
        } else {
            d.space_id
        };
        assert(token_start(pw, k + 1) == i + len + 1);
        if n - i < len + 1 {
            proof {
                lemma_token_start(pw, k + 1, pw.len() as int);
            }
            return None;
        }
        let end: usize = i + len + 1;
        if d.token_ids[end - 1] != expected {
            return None;
        }
        let ghost before = out@;
        out.push((i, end));
        assert(spans_view(out@) =~= spans_view(before).push((i as int, end as int)));
        i = end;
        k = k + 1;
    }
    if i != n {
        return None;
    }
    Some(out)
}

// ---------------------------------------------------------------------------- weights

/// How long a word lasts beside others: `sounds`, half as much again for the word
/// itself, and one and a half for each of its `pauses`.
#[derive(Debug, Clone, Copy, PartialEq, Eq, Structural)]
pub struct Weight {
    pub sounds: usize,
    pub pauses: usize,
}

/// How many characters of `s` meet `p`.
pub open spec fn count(s: Seq<char>, p: spec_fn(char) -> bool) -> nat
    decreases s.len(),
{
    if s.len() == 0 {
        0
    } else {
        count(s.drop_last(), p) + if p(s.last()) {
            1nat
        } else {
            0
        }
    }
}

/// Whether `c` takes time by itself: the marks for stress and length do not.
pub open spec fn is_sound(c: char) -> bool {
    c != 'ˈ' && c != 'ˌ' && c != 'ː' && c != 'ˑ' && c != ' '
}

/// Whether a pause follows `c`.
pub open spec fn is_pause(c: char) -> bool {
    c == '.' || c == ',' || c == ';' || c == ':' || c == '!' || c == '?' || c == '…'
}

/// `n`, but at least one.
pub open spec fn at_least_one(n: nat) -> nat {
    if n == 0 {
        1
    } else {
        n
    }
}

/// The weight of a word by its phonemes.
pub open spec fn sound_weight(ph: Seq<char>) -> Weight {
    Weight { sounds: at_least_one(count(ph, |c: char| is_sound(c))) as usize, pauses: 0 }
}

/// The weight of a word by its letters, digits and punctuation.
pub open spec fn letter_weight(w: Seq<char>) -> Weight {
    Weight {
        sounds: at_least_one(count(w, |c: char| alphanumeric(c))) as usize,
        pauses: count(w, |c: char| is_pause(c)) as usize,
    }
}

/// The weight of a word by its phonemes.
pub fn phoneme_weight(ph: &str) -> (r: Weight)
    ensures
        r == sound_weight(ph@),
        r.sounds == at_least_one(count(ph@, |c: char| is_sound(c))),
{
    let cs: Vec<char> = chars_of(ph);
    let ghost p = |c: char| is_sound(c);
    let mut n: usize = 0;
    let mut i: usize = 0;
    while i < cs.len()
        invariant
            0 <= i <= cs@.len(),
            n <= i,
            n == count(cs@.take(i as int), p),
            p == (|c: char| is_sound(c)),
        decreases cs@.len() - i,
    {
        assert(cs@.take(i + 1).drop_last() =~= cs@.take(i as int));
        let c: char = cs[i];
        if c != 'ˈ' && c != 'ˌ' && c != 'ː' && c != 'ˑ' && c != ' ' {
            n = n + 1;
        }
        i = i + 1;
    }
    assert(cs@.take(i as int) =~= cs@);
    Weight { sounds: if n == 0 { 1 } else { n }, pauses: 0 }
}

/// The weight of a word by its letters, digits and punctuation.
pub fn char_weight(w: &str) -> (r: Weight)
    ensures
        r == letter_weight(w@),
        r.sounds == at_least_one(count(w@, |c: char| alphanumeric(c))),
        r.pauses == count(w@, |c: char| is_pause(c)),
{
    let cs: Vec<char> = chars_of(w);
    let ghost p = |c: char| alphanumeric(c);
    let ghost q = |c: char| is_pause(c);
    let mut letters: usize = 0;
    let mut pauses: usize = 0;
    let mut i: usize = 0;
    while i < cs.len()
        invariant
            0 <= i <= cs@.len(),
            letters <= i,
            pauses <= i,
            letters == count(cs@.take(i as int), p),
            pauses == count(cs@.take(i as int), q),
            p == (|c: char| alphanumeric(c)),
            q == (|c: char| is_pause(c)),
        decreases cs@.len() - i,
    {
        assert(cs@.take(i + 1).drop_last() =~= cs@.take(i as int));
        let c: char = cs[i];
        if c.is_alphanumeric() {
            letters = letters + 1;
        }
        if c == '.' || c == ',' || c == ';' || c == ':' || c == '!' || c == '?' || c == '…' {
            pauses = pauses + 1;
        }
        i = i + 1;
    }
    assert(cs@.take(i as int) =~= cs@);
    Weight { sounds: if letters == 0 { 1 } else { letters }, pauses }
}

// ------------------------------------------------------------------------------- plan

/// What the timings of a text are made from.
pub struct Plan<'a> {
    /// The words to time: none where nothing is heard.
    pub words: Vec<Word<'a>>,
    /// The tokens of each word, where their durations are known.
    pub groups: Option<Vec<(usize, usize)>>,
    /// The weight of each word, for where they are not.
    pub weights: Vec<Weight>,
}

/// The phonemes of each word, where there are as many as words.
pub open spec fn usable(per_word: Option<Seq<Seq<char>>>, n: nat) -> Option<Seq<Seq<char>>> {
    match per_word {
        Some(p) => if p.len() == n {
            Some(p)
        } else {
            None
        },
        None => None,
    }
}

/// The contents of an optional list of strings.
pub open spec fn opt_strs(v: Option<&[String]>) -> Option<Seq<Seq<char>>> {
    match v {
        Some(p) => Some(strs(p@)),
        None => None,
    }
}

/// The weights of the words `ws`: by their phonemes where they are known.
pub open spec fn weights_of(ws: Seq<WordView>, per_word: Option<Seq<Seq<char>>>) -> Seq<Weight> {
    match per_word {
        Some(p) => Seq::new(p.len(), |i: int| sound_weight(p[i])),
        None => Seq::new(ws.len(), |i: int| letter_weight(ws[i].text)),
    }
}

/// Decides how the words of `text` are timed. The phonemes count only where there is
/// one entry for each word, and the durations only where their tokens are those of
/// the phonemes.
pub fn plan_timings<'a, T>(
    text: &'a str,
    duration_ms: u32,
    per_word: Option<&[String]>,
    durations: Option<&Durations<'_, T>>,
) -> (r: Plan<'a>)
    ensures
        duration_ms == 0 ==> r.words@.len() == 0 && r.groups is None && r.weights@.len() == 0,
        duration_ms > 0 ==> {
            let ws = placed_words(text@);
            let pw = usable(opt_strs(per_word), ws.len());
            let grouped = ws.len() > 0 && (pw matches Some(p) && durations matches Some(d)
                && has_groups(d.token_ids@, d.per_token@.len(), d.space_id, p));
            &&& word_views(r.words@) == ws
            &&& r.weights@ == weights_of(ws, pw)
            &&& r.groups is Some <==> grouped
            &&& r.groups matches Some(v) ==> spans_view(v@) == token_spans(pw->0)
        },
{
    if duration_ms == 0 {
        return Plan { words: Vec::new(), groups: None, weights: Vec::new() };
    }
    let ws: Vec<Word<'a>> = words(text);
    let ghost wv = placed_words(text@);
    assert(word_views(ws@).len() == ws@.len());
    let mut weights: Vec<Weight> = Vec::new();
    let mut groups: Option<Vec<(usize, usize)>> = None;
    let mut by_sound: bool = false;
    if let Some(p) = per_word {
        assert(strs(p@).len() == p@.len());
        if p.len() == ws.len() {
            by_sound = true;
            if ws.len() > 0 {
                if let Some(d) = durations {
                    groups = token_groups(d, p);
                }
            }
            let mut i: usize = 0;
            while i < p.len()
                invariant
                    0 <= i <= p@.len(),
                    weights@ =~= weights_of(wv, Some(strs(p@))).take(i as int),
                decreases p@.len() - i,
            {
                assert(strs(p@)[i as int] == p@[i as int]@);
                weights.push(phoneme_weight(p[i].as_str()));
                i = i + 1;
            }
        }
    }
    if !by_sound {
        let mut i: usize = 0;
        while i < ws.len()
            invariant
                0 <= i <= ws@.len(),
                word_views(ws@) == wv,
                weights@ =~= weights_of(wv, None).take(i as int),
            decreases ws@.len() - i,
        {
            assert(word_views(ws@)[i as int] == ws@[i as int]@);
            weights.push(char_weight(ws[i].text));
            i = i + 1;
        }
        assert(weights@ =~= weights_of(wv, None));
    }
    Plan { words: ws, groups, weights }
}

/// The timings of the words `ws` from the points in time between them: a word starts
/// at its point and ends at the next one, but not before it starts, and the last word
/// ends with the sound.
pub open spec fn timings(ws: Seq<WordView>, points: Seq<u32>, duration_ms: u32) -> Seq<WordTiming> {
    Seq::new(
        ws.len(),
        |k: int|
            WordTiming {
                o: ws[k].offset16 as usize,
                l: ws[k].len16 as usize,
                s: points[k],
                e: if k == ws.len() - 1 {
                    duration_ms
                } else if points[k + 1] < points[k] {
                    points[k]
                } else {
                    points[k + 1]
                },
            },
    )
}

/// Makes timings of the words `ws` and the points in time between them, the start of
/// the first word and the end of the last among them.
pub fn word_timings(ws: &[Word<'_>], duration_ms: u32, points: &[u32]) -> (r: Vec<WordTiming>)
    requires
        points@.len() == ws@.len() + 1,
    ensures
        r@ == timings(word_views(ws@), points@, duration_ms),
{
    let n: usize = ws.len();
    let mut out: Vec<WordTiming> = Vec::new();
    let mut k: usize = 0;
    while k < n
        invariant
            0 <= k <= n,
            n == ws@.len(),
            points@.len() == n + 1,
            out@ =~= timings(word_views(ws@), points@, duration_ms).take(k as int),
        decreases n - k,
    {
        let s: u32 = points[k];
        let next: u32 = points[k + 1];
        let e: u32 = if k == n - 1 {
            duration_ms
        } else if next < s {
            s
        } else {
            next
        };
        assert(word_views(ws@)[k as int] == ws@[k as int]@);
        out.push(WordTiming { o: ws[k].offset16, l: ws[k].len16, s, e });
        k = k + 1;
    }
    out
}

// ------------------------------------------------------------------------------- laws

/// A browser that slices the text at a word's place gets the word, and the words come
/// in order without touching.
pub proof fn law_word_places(text: Seq<char>, k: int)
    requires
        0 <= k < placed_words(text).len(),
    ensures
        ({
            let w = placed_words(text)[k];
            units(text).subrange(w.offset16, w.offset16 + w.len16) == units(w.text)
        }),
        k + 1 < placed_words(text).len() ==> placed_words(text)[k].offset16 + placed_words(
            text,
        )[k].len16 < placed_words(text)[k + 1].offset16,
{
    lemma_spans(text, 0);
    let spans = spans_from(text, 0);
    lemma_units_subrange(text, spans[k].0, spans[k].1);
    if k + 1 < spans.len() {
        let b = spans[k].1;
        let c = spans[k + 1].0;
        assert(b < c);
        lemma_units_subrange(text, b, c);
        crate::text::utf16::lemma_len16_bytes(text.subrange(b, c));
    }
}

/// The timings cover the sound without gaps: where the points do not go back, each
/// word starts when the one before it ends, the first one at the first point, and the
/// last one ends with the sound; and no word ends before it starts.
pub proof fn law_timings_cover(ws: Seq<WordView>, points: Seq<u32>, duration_ms: u32)
    requires
        ws.len() > 0,
        points.len() == ws.len() + 1,
        forall|i: int, j: int| 0 <= i <= j < points.len() ==> points[i] <= points[j],
        points[points.len() - 1] <= duration_ms,
    ensures
        ({
            let t = timings(ws, points, duration_ms);
            &&& t.len() == ws.len()
            &&& t[0].s == points[0]
            &&& t[t.len() - 1].e == duration_ms
            &&& forall|k: int| 0 <= k < t.len() ==> (#[trigger] t[k]).s <= t[k].e
            &&& forall|k: int| 0 <= k < t.len() - 1 ==> (#[trigger] t[k]).e == t[k + 1].s
        }),
{
}

/// The tokens of words with a space between them are the tokens of each word, with
/// the space's token between them.
pub proof fn lemma_join_tokens(per_word: Seq<Seq<char>>)
    requires
        per_word.len() > 0,
        all_tokens(join(per_word, seq![' '])).len() <= MAX_TOKENS,
    ensures
        token_start(per_word, per_word.len() as int) == all_tokens(
            join(per_word, seq![' ']),
        ).len() + 2,
        forall|k: int|
            0 < k < per_word.len() ==> 2 <= #[trigger] token_start(per_word, k) <= all_tokens(
                join(per_word, seq![' ']),
            ).len() + 1 && all_tokens(join(per_word, seq![' ']))[token_start(per_word, k) - 2]
                == space_id(),
    decreases per_word.len(),
{
    let n = per_word.len() as int;
    let w = per_word.last();
    let all = join(per_word, seq![' ']);
    if n == 1 {
        assert(token_start(per_word, 1) == token_start(per_word, 0) + tokens(w).len() + 1);
    } else {
        let init = per_word.drop_last();
        let s = join(init, seq![' ']);
        lemma_all_tokens_add(s, seq![' ']);
        lemma_all_tokens_add(s + seq![' '], w);
        lemma_space();
        let ts = all_tokens(s);
        let tw = all_tokens(w);
        assert(all_tokens(all) == ts + seq![space_id()] + tw);
        lemma_join_tokens(init);
        assert forall|k: int| 0 <= k < n implies token_start(per_word, k) == #[trigger] token_start(
            init,
            k,
        ) by {
            lemma_token_start_prefix(init, per_word, k);
        }
        assert(token_start(init, n - 1) == ts.len() + 2);
        assert forall|k: int| 0 < k < n implies 2 <= #[trigger] token_start(per_word, k)
            <= all_tokens(all).len() + 1 && all_tokens(all)[token_start(per_word, k) - 2]
            == space_id() by {
            assert(token_start(per_word, k) == token_start(init, k));
        }
        assert(tokens(w) == tw);
    }
}

/// Where the first words start does not depend on the later ones.
pub proof fn lemma_token_start_prefix(a: Seq<Seq<char>>, b: Seq<Seq<char>>, k: int)
    requires
        0 <= k <= a.len() <= b.len(),
        a == b.take(a.len() as int),
    ensures
        token_start(a, k) == token_start(b, k),
    decreases k,
{
    if k > 0 {
        lemma_token_start_prefix(a, b, k - 1);
        assert(a[k - 1] == b.take(a.len() as int)[k - 1]);
    }
}

/// The ids that the model is given for joined words are those of the words: the words
/// of a text that fits the model can always be told apart in its durations.
pub proof fn law_joined_words_align(per_word: Seq<Seq<char>>, ids: Seq<i64>)
    requires
        per_word.len() > 0,
        all_tokens(join(per_word, seq![' '])).len() <= MAX_TOKENS,
        all_tokens(join(per_word, seq![' '])).len() > 0,
        ids == seq![0i64] + tokens(join(per_word, seq![' '])) + seq![0i64],
    ensures
        has_groups(ids, ids.len(), space_id(), per_word),
{
    lemma_join_tokens(per_word);
    let all = all_tokens(join(per_word, seq![' ']));
    assert(tokens(join(per_word, seq![' '])) == all);
    assert forall|k: int| 0 < k <= per_word.len() implies token_start(per_word, k) <= ids.len()
        && ids[#[trigger] token_start(per_word, k) - 1] == if k == per_word.len() {
        0
    } else {
        space_id()
    } by {
        if k < per_word.len() {
            assert(ids[token_start(per_word, k) - 1] == all[token_start(per_word, k) - 2]);
        }
    }
}

} // verus!
