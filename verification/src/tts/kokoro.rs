//! What goes into the speech model and what is made of its sound.
//!
//! The model takes a list of tokens with a pad at either end, a style and a speed. The
//! speed scales everything, the pauses as well as the speech. [`restore_pauses`] gives
//! the pauses back the length that they have at normal speed, from the samples that
//! they already hold, and leaves the speech alone.

use crate::text::{has_string, strs};
use crate::tts::vocab::{punct_ids, tokenize, tokens, PUNCTUATION};
use vstd::prelude::*;

verus! {

/// Samples per second of the model's sound.
pub const SAMPLE_RATE: u32 = 24_000;

/// How many numbers a style holds.
pub const STYLE_LEN: usize = 256;

/// How long `n_samples` last, in milliseconds. What does not fit is cut off above.
pub fn duration_ms(n_samples: usize) -> (r: u32)
    requires
        n_samples * 1000 <= u64::MAX,
    ensures
        r == (n_samples * 1000 / SAMPLE_RATE as int) % 0x1_0000_0000,
        r == (n_samples as int / 24) % 0x1_0000_0000,
{
    let ms: u64 = (n_samples as u64) * 1000 / SAMPLE_RATE as u64;
    assert(ms as u32 == ms % 0x1_0000_0000) by (bit_vector);
    ms as u32
}

// -------------------------------------------------------------------------- the model

/// The names of what the model takes and gives. Exports of the model differ in them.
#[derive(Debug)]
pub struct ModelNames {
    pub tokens: &'static str,
    pub audio: &'static str,
    pub durations: Option<&'static str>,
}

/// Why a model cannot be used.
#[derive(Debug, Clone, Copy, PartialEq, Eq, Structural)]
pub enum ModelError {
    /// It takes no tokens.
    NoTokens,
    /// It gives no sound.
    NoAudio,
}

/// The first of `names` that is among `given`.
pub open spec fn first_given(names: Seq<Seq<char>>, given: Seq<Seq<char>>) -> Option<Seq<char>>
    decreases names.len(),
{
    if names.len() == 0 {
        None
    } else if given.contains(names[0]) {
        Some(names[0])
    } else {
        first_given(names.skip(1), given)
    }
}

impl ModelNames {
    /// Finds the names that a model with these inputs and outputs uses.
    pub fn find(inputs: &[String], outputs: &[String]) -> (r: Result<ModelNames, ModelError>)
        ensures
            ({
                let tokens = first_given(seq!["input_ids"@, "tokens"@], strs(inputs@));
                let audio = first_given(
                    seq!["audio"@, "waveform"@, "waveforms"@],
                    strs(outputs@),
                );
                match r {
                    Ok(names) => {
                        &&& tokens == Some(names.tokens@)
                        &&& audio == Some(names.audio@)
                        &&& names.durations is Some <==> strs(outputs@).contains("durations"@)
                        &&& names.durations matches Some(d) ==> d@ == "durations"@
                    },
                    Err(ModelError::NoTokens) => tokens is None,
                    Err(ModelError::NoAudio) => tokens is Some && audio is None,
                }
            }),
    {
        proof {
            reveal_with_fuel(first_given, 4);
            let a = seq!["input_ids"@, "tokens"@];
            assert(a.skip(1)[0] == "tokens"@);
            let b = seq!["audio"@, "waveform"@, "waveforms"@];
            assert(b.skip(1)[0] == "waveform"@);
            assert(b.skip(1).skip(1)[0] == "waveforms"@);
        }
        let tokens: &'static str = if has_string(inputs, "input_ids") {
            "input_ids"
        } else if has_string(inputs, "tokens") {
            "tokens"
        } else {
            return Err(ModelError::NoTokens);
        };
        let audio: &'static str = if has_string(outputs, "audio") {
            "audio"
        } else if has_string(outputs, "waveform") {
            "waveform"
        } else if has_string(outputs, "waveforms") {
            "waveforms"
        } else {
            return Err(ModelError::NoAudio);
        };
        let durations: Option<&'static str> = if has_string(outputs, "durations") {
            Some("durations")
        } else {
            None
        };
        Ok(ModelNames { tokens, audio, durations })
    }

    /// Whether the model gives the duration of every token.
    pub fn has_durations(&self) -> (r: bool)
        ensures
            r == self.durations is Some,
    {
        self.durations.is_some()
    }
}

/// Why the model cannot be run.
#[derive(Debug, Clone, Copy, PartialEq, Eq, Structural)]
pub enum SynthError {
    /// The phonemes hold no token.
    NoTokens,
    /// The style holds another number of numbers.
    StyleLen(usize),
}

/// The ids for the phonemes: their tokens with a pad at either end.
pub open spec fn padded(ph: Seq<char>) -> Seq<i64> {
    seq![0i64] + tokens(ph) + seq![0i64]
}

/// The ids that the model is given for `phonemes`.
pub fn model_ids(phonemes: &str) -> (r: Result<Vec<i64>, SynthError>)
    ensures
        tokens(phonemes@).len() == 0 ==> r == Err::<Vec<i64>, SynthError>(SynthError::NoTokens),
        tokens(phonemes@).len() > 0 ==> (r matches Ok(ids) && ids@ == padded(phonemes@)),
{
    let ts: Vec<i64> = tokenize(phonemes);
    if ts.len() == 0 {
        return Err(SynthError::NoTokens);
    }
    let mut ids: Vec<i64> = Vec::new();
    ids.push(0);
    ids.extend_from_slice(ts.as_slice());
    ids.push(0);
    assert(ids@ =~= padded(phonemes@));
    Ok(ids)
}

/// Takes a style of [`STYLE_LEN`] numbers, and refuses others.
pub fn check_style<T>(style: &[T]) -> (r: Result<(), SynthError>)
    ensures
        style@.len() == STYLE_LEN ==> r is Ok,
        style@.len() != STYLE_LEN ==> (r matches Err(SynthError::StyleLen(n)) && n == style@.len()),
{
    if style.len() != STYLE_LEN {
        return Err(SynthError::StyleLen(style.len()));
    }
    Ok(())
}

// ----------------------------------------------------------------------------- pauses

/// How long a token lasts, in whole frames: as it is heard, and at normal speed.
#[derive(Debug, Clone, Copy, PartialEq, Eq, Structural)]
pub struct Frames {
    pub heard: usize,
    pub natural: usize,
}

/// `frames` in samples, as far as a length can tell.
pub open spec fn in_samples(frames: usize, per_frame: usize) -> int {
    if frames * per_frame > usize::MAX {
        usize::MAX as int
    } else {
        frames * per_frame
    }
}

/// Where token `i` starts among `len` samples.
pub open spec fn token_at(frames: Seq<Frames>, per_frame: usize, len: int, i: int) -> int
    decreases i,
{
    if i <= 0 {
        0
    } else {
        let e = token_at(frames, per_frame, len, i - 1) + in_samples(
            frames[i - 1].heard,
            per_frame,
        );
        if e > len {
            len
        } else {
            e
        }
    }
}

/// Whether token `i` is a pause: a pad, a space or punctuation.
pub open spec fn is_pause_token(ids: Seq<i64>, i: int) -> bool {
    i == 0 || i == ids.len() - 1 || tokens(PUNCTUATION@).contains(ids[i])
}

/// The samples of `seg`, again from the first after the last, until there are `n`.
pub open spec fn cycled<T>(seg: Seq<T>, n: int) -> Seq<T> {
    Seq::new(n as nat, |j: int| seg[j % seg.len() as int])
}

/// The samples of token `i`, as the model gave them.
pub open spec fn heard_part<T>(
    samples: Seq<T>,
    frames: Seq<Frames>,
    per_frame: usize,
    i: int,
) -> Seq<T> {
    samples.subrange(
        token_at(frames, per_frame, samples.len() as int, i),
        token_at(frames, per_frame, samples.len() as int, i + 1),
    )
}

/// The new length of token `i` in samples, where it is a pause that is heard at all.
pub open spec fn new_len<T>(
    samples: Seq<T>,
    ids: Seq<i64>,
    frames: Seq<Frames>,
    per_frame: usize,
    i: int,
) -> Option<usize> {
    if is_pause_token(ids, i) && heard_part(samples, frames, per_frame, i).len() > 0 {
        Some(in_samples(frames[i].natural, per_frame) as usize)
    } else {
        None
    }
}

/// The samples of token `i` with its pause restored.
pub open spec fn restored_part<T>(
    samples: Seq<T>,
    ids: Seq<i64>,
    frames: Seq<Frames>,
    per_frame: usize,
    i: int,
) -> Seq<T> {
    let part = heard_part(samples, frames, per_frame, i);
    match new_len(samples, ids, frames, per_frame, i) {
        Some(n) => cycled(part, n as int),
        None => part,
    }
}

/// The samples of the first `k` tokens with their pauses restored.
pub open spec fn restored_tokens<T>(
    samples: Seq<T>,
    ids: Seq<i64>,
    frames: Seq<Frames>,
    per_frame: usize,
    k: int,
) -> Seq<T>
    decreases k,
{
    if k <= 0 {
        Seq::empty()
    } else {
        restored_tokens(samples, ids, frames, per_frame, k - 1) + restored_part(
            samples,
            ids,
            frames,
            per_frame,
            k - 1,
        )
    }
}

/// All the samples with the pauses restored; what no token covers stays at the end.
pub open spec fn restored<T>(
    samples: Seq<T>,
    ids: Seq<i64>,
    frames: Seq<Frames>,
    per_frame: usize,
) -> Seq<T> {
    let n = frames.len() as int;
    restored_tokens(samples, ids, frames, per_frame, n) + samples.skip(
        token_at(frames, per_frame, samples.len() as int, n),
    )
}

/// Tokens come in order and within the samples.
pub proof fn lemma_token_at(frames: Seq<Frames>, per_frame: usize, len: int, i: int)
    requires
        len >= 0,
    ensures
        0 <= token_at(frames, per_frame, len, i) <= len,
        token_at(frames, per_frame, len, i) <= token_at(frames, per_frame, len, i + 1),
    decreases i,
{
    if i > 0 {
        lemma_token_at(frames, per_frame, len, i - 1);
        assert(frames[i - 1].heard * per_frame >= 0) by (nonlinear_arith);
    }
    if i >= 0 {
        assert(frames[i].heard * per_frame >= 0) by (nonlinear_arith);
    }
}

/// Appends `n` samples of `seg`, again from the first after the last.
fn push_cycled<T: Copy>(out: &mut Vec<T>, seg: &[T], n: usize)
    requires
        seg@.len() > 0,
    ensures
        final(out)@ == old(out)@ + cycled(seg@, n as int),
{
    let mut j: usize = 0;
    while j < n
        invariant
            0 <= j <= n,
            seg@.len() > 0,
            out@ =~= old(out)@ + cycled(seg@, j as int),
        decreases n - j,
    {
        out.push(seg[j % seg.len()]);
        j = j + 1;
    }
}

/// Appends the samples `seg`.
fn push_samples<T: Copy>(out: &mut Vec<T>, seg: &[T])
    ensures
        final(out)@ == old(out)@ + seg@,
{
    let mut j: usize = 0;
    while j < seg.len()
        invariant
            0 <= j <= seg@.len(),
            out@ =~= old(out)@ + seg@.take(j as int),
        decreases seg@.len() - j,
    {
        out.push(seg[j]);
        j = j + 1;
    }
}

/// `frames` in samples, as far as a length can tell.
fn to_samples(frames: usize, per_frame: usize) -> (r: usize)
    ensures
        r == in_samples(frames, per_frame),
{
    match frames.checked_mul(per_frame) {
        Some(n) => n,
        None => usize::MAX,
    }
}

/// Whether `id` is among `list`.
fn has_id(list: &[i64], id: i64) -> (r: bool)
    ensures
        r == list@.contains(id),
{
    let mut i: usize = 0;
    while i < list.len()
        invariant
            0 <= i <= list@.len(),
            forall|k: int| 0 <= k < i ==> list@[k] != id,
        decreases list@.len() - i,
    {
        if list[i] == id {
            return true;
        }
        i = i + 1;
    }
    false
}

/// Gives every pause of the sound its natural length: its samples are repeated or cut
/// off. Speech stays as it is. Beside the samples comes the new length of
/// each token, in samples, where it is a pause. Where the frames are not those of the
/// tokens, everything stays as it is.
pub fn restore_pauses<T: Copy>(
    samples: &[T],
    token_ids: &[i64],
    frames: &[Frames],
    per_frame: usize,
) -> (r: (Vec<T>, Vec<Option<usize>>))
    ensures
        r.1@.len() == frames@.len(),
        frames@.len() != token_ids@.len() ==> {
            &&& r.0@ == samples@
            &&& forall|i: int| 0 <= i < r.1@.len() ==> (#[trigger] r.1@[i]) is None
        },
        frames@.len() == token_ids@.len() ==> {
            &&& r.0@ == restored(samples@, token_ids@, frames@, per_frame)
            &&& forall|i: int|
                0 <= i < r.1@.len() ==> (#[trigger] r.1@[i]) == new_len(
                    samples@,
                    token_ids@,
                    frames@,
                    per_frame,
                    i,
                )
        },
{
    let n: usize = frames.len();
    let mut out: Vec<T> = Vec::new();
    let mut lens: Vec<Option<usize>> = Vec::new();
    if n != token_ids.len() {
        push_samples(&mut out, samples);
        let mut i: usize = 0;
        while i < n
            invariant
                0 <= i <= n,
                lens@.len() == i,
                forall|k: int| 0 <= k < i ==> (#[trigger] lens@[k]) is None,
            decreases n - i,
        {
            lens.push(None);
            i = i + 1;
        }
        return (out, lens);
    }
    let puncts: Vec<i64> = punct_ids();
    let len: usize = samples.len();
    let mut cursor: usize = 0;
    let mut i: usize = 0;
    while i < n
        invariant
            0 <= i <= n,
            n == frames@.len(),
            n == token_ids@.len(),
            len == samples@.len(),
            puncts@ == tokens(PUNCTUATION@),
            cursor == token_at(frames@, per_frame, len as int, i as int),
            cursor <= len,
            out@ =~= restored_tokens(samples@, token_ids@, frames@, per_frame, i as int),
            lens@.len() == i,
            forall|k: int|
                0 <= k < i ==> (#[trigger] lens@[k]) == new_len(
                    samples@,
                    token_ids@,
                    frames@,
                    per_frame,
                    k,
                ),
        decreases n - i,
    {
        let heard: usize = to_samples(frames[i].heard, per_frame);
        let start: usize = cursor;
        let end: usize = if len - start < heard {
            len
        } else {
            start + heard
        };
        cursor = end;
        let seg: &[T] = &samples[start..end];
        proof {
            lemma_token_at(frames@, per_frame, len as int, i as int);
            assert(seg@ == heard_part(samples@, frames@, per_frame, i as int));
        }
        let pause: bool = i == 0 || i == n - 1 || has_id(puncts.as_slice(), token_ids[i]);
        if !pause || seg.len() == 0 {
            push_samples(&mut out, seg);
            lens.push(None);
        } else {
            let natural: usize = to_samples(frames[i].natural, per_frame);
            push_cycled(&mut out, seg, natural);
            lens.push(Some(natural));
        }
        i = i + 1;
    }
    push_samples(&mut out, &samples[cursor..len]);
    assert(samples@.subrange(cursor as int, len as int) =~= samples@.skip(cursor as int));
    (out, lens)
}

// ------------------------------------------------------------------------------- laws

/// How many samples token `i` takes once its pause is restored.
pub open spec fn final_len<T>(
    samples: Seq<T>,
    ids: Seq<i64>,
    frames: Seq<Frames>,
    per_frame: usize,
    i: int,
) -> int {
    match new_len(samples, ids, frames, per_frame, i) {
        Some(n) => n as int,
        None => heard_part(samples, frames, per_frame, i).len() as int,
    }
}

/// How many samples the first `k` tokens take once their pauses are restored.
pub open spec fn final_lens<T>(
    samples: Seq<T>,
    ids: Seq<i64>,
    frames: Seq<Frames>,
    per_frame: usize,
    k: int,
) -> int
    decreases k,
{
    if k <= 0 {
        0
    } else {
        final_lens(samples, ids, frames, per_frame, k - 1) + final_len(
            samples,
            ids,
            frames,
            per_frame,
            k - 1,
        )
    }
}

/// The first `k` tokens take as many samples as their lengths say.
pub proof fn lemma_final_lens<T>(
    samples: Seq<T>,
    ids: Seq<i64>,
    frames: Seq<Frames>,
    per_frame: usize,
    k: int,
)
    requires
        0 <= k,
    ensures
        restored_tokens(samples, ids, frames, per_frame, k).len() == final_lens(
            samples,
            ids,
            frames,
            per_frame,
            k,
        ),
    decreases k,
{
    if k > 0 {
        lemma_final_lens(samples, ids, frames, per_frame, k - 1);
    }
}

/// The lengths that are told of the tokens are those of the sound that is given: summed
/// over all tokens, with what no token covers, they are its samples exactly.
pub proof fn law_lengths_match_samples<T>(
    samples: Seq<T>,
    ids: Seq<i64>,
    frames: Seq<Frames>,
    per_frame: usize,
)
    ensures
        restored(samples, ids, frames, per_frame).len() == final_lens(
            samples,
            ids,
            frames,
            per_frame,
            frames.len() as int,
        ) + samples.len() - token_at(
            frames,
            per_frame,
            samples.len() as int,
            frames.len() as int,
        ),
{
    lemma_final_lens(samples, ids, frames, per_frame, frames.len() as int);
    lemma_token_at(frames, per_frame, samples.len() as int, frames.len() as int);
}

/// Speech is left alone: the samples of a token that is no pause stand in the new sound
/// as they were, behind what the tokens before it take.
pub proof fn law_speech_is_kept<T>(
    samples: Seq<T>,
    ids: Seq<i64>,
    frames: Seq<Frames>,
    per_frame: usize,
    i: int,
)
    requires
        0 <= i < frames.len(),
        !is_pause_token(ids, i),
    ensures
        ({
            let at = final_lens(samples, ids, frames, per_frame, i);
            let part = heard_part(samples, frames, per_frame, i);
            restored(samples, ids, frames, per_frame).subrange(at, at + part.len()) == part
        }),
{
    let n = frames.len() as int;
    let at = final_lens(samples, ids, frames, per_frame, i);
    let part = heard_part(samples, frames, per_frame, i);
    let all = restored(samples, ids, frames, per_frame);
    lemma_final_lens(samples, ids, frames, per_frame, i);
    lemma_restored_prefix(samples, ids, frames, per_frame, i + 1, n);
    let upto = restored_tokens(samples, ids, frames, per_frame, i + 1);
    let tokens_part = restored_tokens(samples, ids, frames, per_frame, n);
    assert(upto =~= restored_tokens(samples, ids, frames, per_frame, i) + part);
    assert forall|j: int| 0 <= j < part.len() implies all[at + j] == part[j] by {
        assert(upto[at + j] == part[j]);
        assert(tokens_part.take(upto.len() as int)[at + j] == upto[at + j]);
        assert(all[at + j] == tokens_part[at + j]);
    }
    assert(all.subrange(at, at + part.len()) =~= part);
}

/// What is made of the first tokens begins what is made of more of them.
pub proof fn lemma_restored_prefix<T>(
    samples: Seq<T>,
    ids: Seq<i64>,
    frames: Seq<Frames>,
    per_frame: usize,
    a: int,
    b: int,
)
    requires
        0 <= a <= b,
    ensures
        ({
            let x = restored_tokens(samples, ids, frames, per_frame, a);
            let y = restored_tokens(samples, ids, frames, per_frame, b);
            x.len() <= y.len() && y.take(x.len() as int) == x
        }),
    decreases b - a,
{
    let x = restored_tokens(samples, ids, frames, per_frame, a);
    let y = restored_tokens(samples, ids, frames, per_frame, b);
    if a < b {
        lemma_restored_prefix(samples, ids, frames, per_frame, a, b - 1);
        let z = restored_tokens(samples, ids, frames, per_frame, b - 1);
        assert(y.take(x.len() as int) =~= z.take(x.len() as int));
    } else {
        assert(y.take(x.len() as int) =~= x);
    }
}

/// At normal speed nothing changes: where every pause is heard at its natural length,
/// the sound stays as it was.
pub proof fn law_natural_pauses_change_nothing<T>(
    samples: Seq<T>,
    ids: Seq<i64>,
    frames: Seq<Frames>,
    per_frame: usize,
)
    requires
        forall|i: int|
            0 <= i < frames.len() ==> (#[trigger] new_len(samples, ids, frames, per_frame, i)
                matches Some(n) ==> n == heard_part(samples, frames, per_frame, i).len()),
    ensures
        restored(samples, ids, frames, per_frame) == samples,
{
    lemma_natural(samples, ids, frames, per_frame, frames.len() as int);
    let e = token_at(frames, per_frame, samples.len() as int, frames.len() as int);
    lemma_token_at(frames, per_frame, samples.len() as int, frames.len() as int);
    assert(samples.take(e) + samples.skip(e) =~= samples);
}

/// Tokens with natural pauses are the samples that they cover.
proof fn lemma_natural<T>(
    samples: Seq<T>,
    ids: Seq<i64>,
    frames: Seq<Frames>,
    per_frame: usize,
    k: int,
)
    requires
        0 <= k <= frames.len(),
        forall|i: int|
            0 <= i < frames.len() ==> (#[trigger] new_len(samples, ids, frames, per_frame, i)
                matches Some(n) ==> n == heard_part(samples, frames, per_frame, i).len()),
    ensures
        restored_tokens(samples, ids, frames, per_frame, k) == samples.take(
            token_at(frames, per_frame, samples.len() as int, k),
        ),
    decreases k,
{
    let len = samples.len() as int;
    if k > 0 {
        lemma_natural(samples, ids, frames, per_frame, k - 1);
        lemma_token_at(frames, per_frame, len, k - 1);
        lemma_token_at(frames, per_frame, len, k);
        let part = heard_part(samples, frames, per_frame, k - 1);
        assert(restored_part(samples, ids, frames, per_frame, k - 1) =~= part) by {
            if let Some(n) = new_len(samples, ids, frames, per_frame, k - 1) {
                assert forall|j: int| 0 <= j < part.len() implies #[trigger] part[j % part.len() as int]
                    == part[j] by {
                    vstd::arithmetic::div_mod::lemma_small_mod(j as nat, part.len());
                }
                assert(cycled(part, n as int) =~= part);
            }
        }
        assert(samples.take(token_at(frames, per_frame, len, k - 1)) + part =~= samples.take(
            token_at(frames, per_frame, len, k),
        ));
    } else {
        assert(samples.take(0) =~= Seq::empty());
    }
}

} // verus!
