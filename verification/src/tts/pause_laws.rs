//! What happens to the pauses of a sound, and what does not happen to its speech.

use super::kokoro::{
    cycled, final_len, final_lens, heard_part, is_pause_token, law_speech_is_kept,
    lemma_final_lens, lemma_restored_prefix, lemma_token_at, new_len, restored, restored_part,
    restored_tokens, token_at, Frames,
};
use super::vocab::{all_tokens, lemma_all_tokens_add, tokens, PUNCTUATION};
use vstd::prelude::*;

verus! {

/// Whether `c` is heard as a pause: a space, or punctuation.
pub open spec fn is_silent(c: char) -> bool {
    ||| c == ' '
    ||| c == ';'
    ||| c == ':'
    ||| c == ','
    ||| c == '.'
    ||| c == '!'
    ||| c == '?'
    ||| c == '¡'
    ||| c == '¿'
    ||| c == '—'
    ||| c == '…'
    ||| c == '"'
    ||| c == '«'
    ||| c == '»'
    ||| c == '“'
    ||| c == '”'
}

/// Whether `id` is the token of a space or of punctuation.
pub open spec fn stands_for_pause(id: i64) -> bool {
    exists|c: char| is_silent(c) && #[trigger] all_tokens(seq![c]) == seq![id]
}

/// The tokens of a text are those of its characters.
proof fn lemma_token_of(s: Seq<char>, id: i64)
    ensures
        all_tokens(s).len() <= s.len(),
        all_tokens(s).contains(id) <==> exists|k: int|
            0 <= k < s.len() && all_tokens(seq![#[trigger] s[k]]) == seq![id],
    decreases s.len(),
{
    if s.len() > 0 {
        let init = s.drop_last();
        let c = s.last();
        let n = s.len() - 1;
        lemma_token_of(init, id);
        assert(s =~= init + seq![c]);
        lemma_all_tokens_add(init, seq![c]);
        let a = all_tokens(init);
        let b = all_tokens(seq![c]);
        let all = all_tokens(s);
        assert(all == a + b);
        assert(seq![c].drop_last() =~= Seq::empty());
        assert(all_tokens(seq![c].drop_last()) =~= Seq::empty());
        assert(seq![c].last() == c);
        assert(b.len() <= 1);
        assert(s[n] == c);
        if all.contains(id) {
            let k = choose|k: int| 0 <= k < all.len() && all[k] == id;
            if k < a.len() {
                assert(a[k] == id);
                let j = choose|j: int|
                    0 <= j < init.len() && all_tokens(seq![#[trigger] init[j]]) == seq![id];
                assert(s[j] == init[j]);
            } else {
                assert(b[0] == id);
                assert(b =~= seq![id]);
                assert(all_tokens(seq![s[n]]) == seq![id]);
            }
        }
        if exists|k: int| 0 <= k < s.len() && all_tokens(seq![#[trigger] s[k]]) == seq![id] {
            let k = choose|k: int|
                0 <= k < s.len() && all_tokens(seq![#[trigger] s[k]]) == seq![id];
            if k < n {
                assert(init[k] == s[k]);
                let j = choose|j: int| 0 <= j < a.len() && a[j] == id;
                assert(all[j] == id);
            } else {
                assert(b == seq![id]);
                assert(all[a.len() as int] == b[0]);
            }
        }
    }
}

/// The tokens that count as punctuation are those of the space and of the punctuation.
proof fn lemma_pause_tokens(id: i64)
    ensures
        tokens(PUNCTUATION@).contains(id) <==> stands_for_pause(id),
{
    reveal_strlit(";:,.!?¡¿—…\"«»“” ");
    let s = PUNCTUATION@;
    assert(s.len() == 16);
    lemma_token_of(s, id);
    assert(tokens(s) == all_tokens(s));
    if stands_for_pause(id) {
        let c = choose|c: char| is_silent(c) && #[trigger] all_tokens(seq![c]) == seq![id];
        assert(s[0] == ';' && s[1] == ':' && s[2] == ',' && s[3] == '.' && s[4] == '!' && s[5]
            == '?' && s[6] == '¡' && s[7] == '¿' && s[8] == '—' && s[9] == '…' && s[10] == '"'
            && s[11] == '«' && s[12] == '»' && s[13] == '“' && s[14] == '”' && s[15] == ' ');
    }
    if all_tokens(s).contains(id) {
        let k = choose|k: int| 0 <= k < s.len() && all_tokens(seq![#[trigger] s[k]]) == seq![id];
        assert(is_silent(s[k]));
    }
}

/// Every pause gets its natural length: the first and the last token, and those of spaces
/// and of punctuation, take as many samples as they have frames at normal speed. These are
/// the pause's own samples, and where there are too few of them, they come again from the
/// first. The pause stands behind what the tokens before it take.
pub proof fn law_pauses_get_their_natural_length<T>(
    samples: Seq<T>,
    ids: Seq<i64>,
    frames: Seq<Frames>,
    per_frame: usize,
    i: int,
)
    requires
        ids.len() == frames.len(),
        0 <= i < ids.len(),
        i == 0 || i == ids.len() - 1 || stands_for_pause(ids[i]),
        heard_part(samples, frames, per_frame, i).len() > 0,
        frames[i].natural * per_frame <= usize::MAX,
    ensures
        ({
            let part = heard_part(samples, frames, per_frame, i);
            let n = frames[i].natural * per_frame;
            let at = final_lens(samples, ids, frames, per_frame, i);
            let out = restored(samples, ids, frames, per_frame);
            &&& new_len(samples, ids, frames, per_frame, i) == Some(n as usize)
            &&& final_len(samples, ids, frames, per_frame, i) == n
            &&& 0 <= at <= at + n <= out.len()
            &&& forall|j: int|
                0 <= j < n ==> #[trigger] out.subrange(at, at + n)[j] == part[j % part.len() as int]
        }),
{
    lemma_pause_tokens(ids[i]);
    let n = frames.len() as int;
    let part = heard_part(samples, frames, per_frame, i);
    let at = final_lens(samples, ids, frames, per_frame, i);
    let out = restored(samples, ids, frames, per_frame);
    lemma_final_lens(samples, ids, frames, per_frame, i);
    lemma_restored_prefix(samples, ids, frames, per_frame, i + 1, n);
    assert(frames[i].natural * per_frame >= 0) by (nonlinear_arith);
    let m = frames[i].natural * per_frame;
    let upto = restored_tokens(samples, ids, frames, per_frame, i + 1);
    let all = restored_tokens(samples, ids, frames, per_frame, n);
    assert(restored_part(samples, ids, frames, per_frame, i) == cycled(part, m));
    assert forall|j: int| 0 <= j < m implies #[trigger] out.subrange(at, at + m)[j]
        == part[j % part.len() as int] by {
        assert(upto[at + j] == cycled(part, m)[j]);
        assert(all.take(upto.len() as int)[at + j] == upto[at + j]);
        assert(out[at + j] == all[at + j]);
    }
}

/// Nothing but pauses changes: a token that is neither the first nor the last, nor that of
/// a space or of punctuation, keeps its samples.
pub proof fn law_nothing_but_pauses_changes<T>(
    samples: Seq<T>,
    ids: Seq<i64>,
    frames: Seq<Frames>,
    per_frame: usize,
    i: int,
)
    requires
        ids.len() == frames.len(),
        0 < i < ids.len() - 1,
        !stands_for_pause(ids[i]),
    ensures
        ({
            let at = final_lens(samples, ids, frames, per_frame, i);
            let part = heard_part(samples, frames, per_frame, i);
            &&& new_len(samples, ids, frames, per_frame, i) is None
            &&& final_len(samples, ids, frames, per_frame, i) == part.len()
            &&& restored(samples, ids, frames, per_frame).subrange(at, at + part.len()) == part
        }),
{
    lemma_pause_tokens(ids[i]);
    assert(!is_pause_token(ids, i));
    law_speech_is_kept(samples, ids, frames, per_frame, i);
}

/// A token is heard as long as its frames say: it starts where the token before it ends,
/// the first one with the sound, and takes its frames, as far as there are samples.
pub proof fn law_tokens_are_heard_as_their_frames_say<T>(
    samples: Seq<T>,
    frames: Seq<Frames>,
    per_frame: usize,
    i: int,
)
    requires
        0 <= i < frames.len(),
        samples.len() <= usize::MAX,
    ensures
        ({
            let a = token_at(frames, per_frame, samples.len() as int, i);
            let n = frames[i].heard * per_frame;
            &&& i == 0 ==> a == 0
            &&& 0 <= a <= samples.len()
            &&& a + n <= samples.len() ==> heard_part(samples, frames, per_frame, i)
                == samples.subrange(a, a + n)
            &&& a + n > samples.len() ==> heard_part(samples, frames, per_frame, i) == samples.skip(
                a,
            )
        }),
{
    let len = samples.len() as int;
    lemma_token_at(frames, per_frame, len, i);
    assert(frames[i].heard * per_frame >= 0) by (nonlinear_arith);
    let a = token_at(frames, per_frame, len, i);
    if a + frames[i].heard * per_frame > len {
        assert(samples.subrange(a, len) =~= samples.skip(a));
    }
}

} // verus!
