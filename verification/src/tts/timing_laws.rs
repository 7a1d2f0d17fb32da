//! What the timings of a text say of its words.

use super::timing::{
    count, is_pause, is_sound, law_word_places, lemma_join_tokens, lemma_token_start_prefix,
    letter_weight, placed_words, sound_weight, timings, token_spans, token_start,
};
use super::vocab::{
    all_tokens, lemma_all_tokens_add, lemma_space, space_id, tokens, MAX_TOKENS,
};
use crate::text::utf16::{len16, lemma_units_subrange, units};
use crate::text::{alphanumeric, join, lemma_spans, spans_from, words};
use vstd::prelude::*;

verus! {

// ------------------------------------------------------------------------------- places

/// The timings of a text mark its words: there is one for each word, in order, and a
/// browser that slices the text as the timing says gets the whole word and nothing else. A
/// word starts at its point in time. It ends at the next point, or where it starts if that
/// is later, and the last word ends with the sound.
pub proof fn law_timings_mark_the_words(
    text: Seq<char>,
    points: Seq<u32>,
    duration_ms: u32,
    k: int,
)
    requires
        len16(text) <= usize::MAX,
        points.len() == words(text).len() + 1,
        0 <= k < words(text).len(),
    ensures
        ({
            let t = timings(placed_words(text), points, duration_ms);
            &&& t.len() == words(text).len()
            &&& t[k].o + t[k].l <= units(text).len()
            &&& units(text).subrange(t[k].o as int, t[k].o + t[k].l) == units(words(text)[k])
            &&& k + 1 < t.len() ==> t[k].o + t[k].l < t[k + 1].o
            &&& t[k].s == points[k]
            &&& k + 1 == t.len() ==> t[k].e == duration_ms
            &&& k + 1 < t.len() && points[k] <= points[k + 1] ==> t[k].e == points[k + 1]
            &&& k + 1 < t.len() && points[k + 1] < points[k] ==> t[k].e == points[k]
        }),
{
    law_word_places(text, k);
    lemma_spans(text, 0);
    let spans = spans_from(text, 0);
    lemma_units_subrange(text, spans[k].0, spans[k].1);
    crate::text::utf16::lemma_units_len(text);
    if k + 1 < spans.len() {
        lemma_units_subrange(text, spans[k + 1].0, spans[k + 1].1);
    }
}

// ------------------------------------------------------------------------------ weights

/// What meets `p` is counted part by part.
proof fn lemma_count_add(a: Seq<char>, b: Seq<char>, p: spec_fn(char) -> bool)
    ensures
        count(a + b, p) == count(a, p) + count(b, p),
    decreases b.len(),
{
    if b.len() == 0 {
        assert(a + b =~= a);
    } else {
        lemma_count_add(a, b.drop_last(), p);
        assert((a + b).drop_last() =~= a + b.drop_last());
    }
}

/// No more is counted than there is.
proof fn lemma_count_bound(s: Seq<char>, p: spec_fn(char) -> bool)
    ensures
        count(s, p) <= s.len(),
        (forall|i: int| 0 <= i < s.len() ==> p(#[trigger] s[i])) ==> count(s, p) == s.len(),
        (forall|i: int| 0 <= i < s.len() ==> !p(#[trigger] s[i])) ==> count(s, p) == 0,
    decreases s.len(),
{
    if s.len() > 0 {
        let init = s.drop_last();
        lemma_count_bound(init, p);
        assert(s.last() == s[s.len() - 1]);
        assert(forall|i: int| 0 <= i < init.len() ==> #[trigger] init[i] == s[i]);
    }
}

/// One character more.
proof fn lemma_count_one(c: char, p: spec_fn(char) -> bool)
    ensures
        count(seq![c], p) == if p(c) {
            1nat
        } else {
            0
        },
{
    reveal_with_fuel(count, 2);
    assert(seq![c].drop_last() =~= Seq::empty());
}

/// The marks for stress and for length, and spaces, take no time: a word lasts as long
/// with them as without, wherever they stand.
pub proof fn law_marks_take_no_time(a: Seq<char>, c: char, b: Seq<char>)
    requires
        c == 'ˈ' || c == 'ˌ' || c == 'ː' || c == 'ˑ' || c == ' ',
    ensures
        sound_weight(a + seq![c] + b) == sound_weight(a + b),
{
    let p = |d: char| is_sound(d);
    lemma_count_add(a + seq![c], b, p);
    lemma_count_add(a, seq![c], p);
    lemma_count_add(a, b, p);
    lemma_count_one(c, p);
}

/// Every other symbol is a sound: a word without marks and spaces has as many sounds as
/// symbols, and an empty one counts as one. Phonemes by themselves make no pause.
pub proof fn law_every_sound_counts(ph: Seq<char>)
    requires
        ph.len() <= usize::MAX,
        forall|i: int|
            0 <= i < ph.len() ==> {
                let c = #[trigger] ph[i];
                c != 'ˈ' && c != 'ˌ' && c != 'ː' && c != 'ˑ' && c != ' '
            },
    ensures
        ph.len() > 0 ==> sound_weight(ph).sounds == ph.len(),
        ph.len() == 0 ==> sound_weight(ph).sounds == 1,
        sound_weight(ph).pauses == 0,
{
    let p = |d: char| is_sound(d);
    assert forall|i: int| 0 <= i < ph.len() implies p(#[trigger] ph[i]) by {}
    lemma_count_bound(ph, p);
}

/// A full stop, a comma, a semicolon, a colon, an exclamation mark, a question mark and an
/// ellipsis each make one pause, wherever they stand, and nothing else does.
pub proof fn law_punctuation_makes_pauses(a: Seq<char>, c: char, b: Seq<char>)
    requires
        a.len() + 1 + b.len() <= usize::MAX,
    ensures
        letter_weight(a + seq![c] + b).pauses == letter_weight(a + b).pauses + if c == '.' || c
            == ',' || c == ';' || c == ':' || c == '!' || c == '?' || c == '…' {
            1int
        } else {
            0
        },
        letter_weight(Seq::empty()).pauses == 0,
{
    let p = |d: char| is_pause(d);
    lemma_count_add(a + seq![c], b, p);
    lemma_count_add(a, seq![c], p);
    lemma_count_add(a, b, p);
    lemma_count_one(c, p);
    lemma_count_bound(a + b, p);
    lemma_count_bound(a + seq![c] + b, p);
    lemma_count_bound(Seq::empty(), p);
}

/// A word of letters and digits has as many sounds as characters, and a word without any
/// counts as one. What is neither adds nothing.
pub proof fn law_letters_make_sounds(a: Seq<char>, c: char, b: Seq<char>)
    requires
        a.len() + 1 + b.len() <= usize::MAX,
    ensures
        (forall|i: int| 0 <= i < a.len() ==> alphanumeric(#[trigger] a[i])) && a.len() > 0
            ==> letter_weight(a).sounds == a.len(),
        letter_weight(Seq::empty()).sounds == 1,
        !alphanumeric(c) ==> letter_weight(a + seq![c] + b).sounds == letter_weight(a + b).sounds,
{
    let p = |d: char| alphanumeric(d);
    lemma_count_add(a + seq![c], b, p);
    lemma_count_add(a, seq![c], p);
    lemma_count_add(a, b, p);
    lemma_count_one(c, p);
    if forall|i: int| 0 <= i < a.len() ==> alphanumeric(#[trigger] a[i]) {
        assert forall|i: int| 0 <= i < a.len() implies p(#[trigger] a[i]) by {}
    }
    lemma_count_bound(a, p);
    lemma_count_bound(Seq::empty(), p);
}

// ------------------------------------------------------------------------------- tokens

/// Where the tokens of word `k` stand among those of the joined words.
proof fn lemma_word_tokens(per_word: Seq<Seq<char>>, k: int)
    requires
        0 <= k < per_word.len(),
        all_tokens(join(per_word, seq![' '])).len() <= MAX_TOKENS,
    ensures
        ({
            let all = all_tokens(join(per_word, seq![' ']));
            let a = token_start(per_word, k) - 1;
            let n = all_tokens(per_word[k]).len() as int;
            &&& 0 <= a <= a + n <= all.len()
            &&& all.subrange(a, a + n) == all_tokens(per_word[k])
            &&& tokens(per_word[k]) == all_tokens(per_word[k])
        }),
    decreases per_word.len(),
{
    let n = per_word.len() as int;
    let w = per_word.last();
    let all = all_tokens(join(per_word, seq![' ']));
    if n == 1 {
        assert(all.subrange(0, all.len() as int) =~= all);
        assert(token_start(per_word, 0) == 1);
    } else {
        let init = per_word.drop_last();
        let s = join(init, seq![' ']);
        lemma_all_tokens_add(s, seq![' ']);
        lemma_all_tokens_add(s + seq![' '], w);
        lemma_space();
        let ts = all_tokens(s);
        let tw = all_tokens(w);
        assert(all == ts + seq![space_id()] + tw);
        lemma_token_start_prefix(init, per_word, k);
        if k < n - 1 {
            lemma_word_tokens(init, k);
            let a = token_start(per_word, k) - 1;
            let m = all_tokens(per_word[k]).len() as int;
            assert(init[k] == per_word[k]);
            assert(all.subrange(a, a + m) =~= ts.subrange(a, a + m));
        } else {
            lemma_join_tokens(init);
            let b = ts.len() + 1int;
            assert(all.subrange(b, b + tw.len()) =~= tw);
        }
    }
}

/// The durations of a word are those of its own tokens: among the ids that the model is
/// given for words with a space between them, the group of word `k` holds the tokens of
/// that word and, behind them, the space or the last pad.
pub proof fn law_groups_hold_their_words(per_word: Seq<Seq<char>>, ids: Seq<i64>, k: int)
    requires
        0 <= k < per_word.len(),
        all_tokens(join(per_word, seq![' '])).len() <= MAX_TOKENS,
        ids == seq![0i64] + tokens(join(per_word, seq![' '])) + seq![0i64],
    ensures
        ({
            let g = token_spans(per_word)[k];
            let behind = if k == per_word.len() - 1 {
                0i64
            } else {
                space_id()
            };
            &&& 1 <= g.0 < g.1 <= ids.len()
            &&& ids.subrange(g.0, g.1) == tokens(per_word[k]).push(behind)
            &&& k == 0 ==> g.0 == 1
            &&& k + 1 < per_word.len() ==> token_spans(per_word)[k + 1].0 == g.1
            &&& k + 1 == per_word.len() ==> g.1 == ids.len()
        }),
{
    lemma_word_tokens(per_word, k);
    lemma_join_tokens(per_word);
    let all = all_tokens(join(per_word, seq![' ']));
    let g = token_spans(per_word)[k];
    let a = token_start(per_word, k) - 1;
    let n = all_tokens(per_word[k]).len() as int;
    assert(token_start(per_word, k + 1) == token_start(per_word, k) + n + 1);
    let part = ids.subrange(g.0, g.1);
    assert forall|j: int| 0 <= j < n implies #[trigger] part[j] == all_tokens(per_word[k])[j] by {
        assert(part[j] == all[a + j]);
        assert(all.subrange(a, a + n)[j] == all[a + j]);
    }
    if k + 1 < per_word.len() {
        assert(token_start(per_word, k + 1) >= 2);
    }
    assert(part =~= tokens(per_word[k]).push(part[n]));
}

} // verus!
