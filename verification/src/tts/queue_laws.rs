//! What holds of the queue and of its keys.

use crate::hash::{law_hex_text, sha256};
use crate::tts::queue::{identity, key_of, QueueView};
use vstd::prelude::*;
use vstd::utf8::*;

verus! {

// ------------------------------------------------------------------------------- queue

/// A text waits once: after it was asked for, ahead of time or not, it is waiting, so
/// that asking again sends no second job, until it is taken out itself.
pub proof fn law_one_job_per_key<W>(q: QueueView<W>, key: Seq<char>, other: Seq<char>, w: W)
    ensures
        q.requested(key, w).waiting.contains_key(key),
        q.prefetched(key).waiting.contains_key(key),
        q.waiting.contains_key(key) ==> {
            &&& q.requested(other, w).waiting.contains_key(key)
            &&& q.prefetched(other).waiting.contains_key(key)
            &&& other != key ==> q.without(other).waiting.contains_key(key)
        },
{
}

/// Whoever waits for a text goes on waiting, in the same order, whatever else is asked
/// for or taken out; and whoever asks for it waits behind them.
pub proof fn law_everyone_is_answered<W>(q: QueueView<W>, key: Seq<char>, other: Seq<char>, w: W)
    requires
        q.waiting.contains_key(key),
    ensures
        q.requested(key, w).waiting[key].waiters == q.waiting[key].waiters.push(w),
        other != key ==> q.requested(other, w).waiting[key].waiters == q.waiting[key].waiters,
        q.prefetched(other).waiting[key].waiters == q.waiting[key].waiters,
        other != key ==> q.without(other).waiting[key].waiters == q.waiting[key].waiters,
{
}

/// A real request is never dropped: it stays one whatever is asked for, and one is
/// never stale.
pub proof fn law_real_request_is_never_stale<W>(
    q: QueueView<W>,
    key: Seq<char>,
    other: Seq<char>,
    w: W,
)
    ensures
        q.requested(key, w).waiting[key].prefetch_epoch is None,
        q.waiting.contains_key(key) && q.waiting[key].prefetch_epoch is None ==> {
            &&& !q.stale(key)
            &&& q.requested(other, w).waiting[key].prefetch_epoch is None
            &&& q.prefetched(other).waiting[key].prefetch_epoch is None
        },
{
}

/// Asking ahead of time is fresh, also where it renews an older one, and stays so
/// while others ask ahead of time.
pub proof fn law_prefetch_is_fresh<W>(q: QueueView<W>, key: Seq<char>, other: Seq<char>)
    ensures
        !q.prefetched(key).stale(key),
        !q.prefetched(key).prefetched(other).stale(key),
{
}

/// A real request for another text makes what was asked for ahead of time stale, and
/// asking for it again makes it fresh.
pub proof fn law_real_request_outdates_prefetch<W>(
    q: QueueView<W>,
    key: Seq<char>,
    other: Seq<char>,
    w: W,
)
    requires
        other != key,
        !q.waiting.contains_key(key),
        q.epoch < u64::MAX,
    ensures
        q.prefetched(key).requested(other, w).stale(key),
        !q.prefetched(key).requested(other, w).prefetched(key).stale(key),
{
}

/// Dropping a stale request leaves nobody without an answer.
pub proof fn law_dropping_loses_nobody<W>(q: QueueView<W>, key: Seq<char>)
    requires
        q.sound(),
        q.stale(key),
    ensures
        q.waiting[key].waiters.len() == 0,
{
}

/// Everything that happens to a queue keeps it sound.
pub proof fn law_queue_stays_sound<W>(q: QueueView<W>, key: Seq<char>, w: W)
    requires
        q.sound(),
    ensures
        QueueView::<W>::empty().sound(),
        q.requested(key, w).sound(),
        q.prefetched(key).sound(),
        q.without(key).sound(),
{
    let r = q.requested(key, w);
    assert forall|k: Seq<char>| #[trigger] r.waiting.contains_key(k)
        && r.waiting[k].prefetch_epoch is Some implies r.waiting[k].waiters.len() == 0 by {
        assert(q.waiting.contains_key(k));
    }
    let p = q.prefetched(key);
    assert forall|k: Seq<char>| #[trigger] p.waiting.contains_key(k)
        && p.waiting[k].prefetch_epoch is Some implies p.waiting[k].waiters.len() == 0 by {
        if k != key {
            assert(q.waiting.contains_key(k));
        }
    }
    let s = q.without(key);
    assert forall|k: Seq<char>| #[trigger] s.waiting.contains_key(k)
        && s.waiting[k].prefetch_epoch is Some implies s.waiting[k].waiters.len() == 0 by {
        assert(q.waiting.contains_key(k));
    }
}

// -------------------------------------------------------------------------------- keys

/// A character other than zero is encoded without a zero byte.
proof fn lemma_no_zero_in_scalar(c: u32)
    requires
        c != 0,
        is_scalar(c),
    ensures
        forall|i: int| 0 <= i < encode_scalar(c).len() ==> #[trigger] encode_scalar(c)[i] != 0,
{
    assert(c != 0 && c <= 0x7f ==> (c & 0x7F) as u8 != 0) by (bit_vector);
    assert(0xC0u8 | ((c >> 6) & 0x1F) as u8 != 0) by (bit_vector);
    assert(0xE0u8 | ((c >> 12) & 0x0F) as u8 != 0) by (bit_vector);
    assert(0xF0u8 | ((c >> 18) & 0x07) as u8 != 0) by (bit_vector);
    assert(0x80u8 | (c & 0x3F) as u8 != 0) by (bit_vector);
    assert(0x80u8 | ((c >> 6) & 0x3F) as u8 != 0) by (bit_vector);
    assert(0x80u8 | ((c >> 12) & 0x3F) as u8 != 0) by (bit_vector);
}

/// A text without a zero character is encoded without a zero byte.
proof fn lemma_no_zero_byte(s: Seq<char>)
    requires
        !s.contains('\0'),
    ensures
        forall|i: int| 0 <= i < encode_utf8(s).len() ==> #[trigger] encode_utf8(s)[i] != 0,
    decreases s.len(),
{
    if s.len() > 0 {
        let rest = s.drop_first();
        assert(!rest.contains('\0')) by {
            if rest.contains('\0') {
                let k = choose|k: int| 0 <= k < rest.len() && rest[k] == '\0';
                assert(s[k + 1] == '\0');
            }
        }
        lemma_no_zero_byte(rest);
        assert(s[0] != '\0') by {
            if s[0] == '\0' {
                assert(s.contains(s[0]));
            }
        }
        lemma_nonzero_char(s[0]);
        char_is_scalar(s[0]);
        lemma_no_zero_in_scalar(s[0] as u32);
        let head = encode_scalar(s[0] as u32);
        let all = encode_utf8(s);
        assert(all == head + encode_utf8(rest));
        assert forall|i: int| 0 <= i < all.len() implies #[trigger] all[i] != 0 by {
            if i < head.len() {
                assert(all[i] == head[i]);
            } else {
                assert(all[i] == encode_utf8(rest)[i - head.len()]);
            }
        }
    }
}

/// Only the zero character has the code point zero.
proof fn lemma_nonzero_char(c: char)
    requires
        c != '\0',
    ensures
        c as u32 != 0,
{
}

/// Two parts without the closing byte are told apart by where it comes first.
proof fn lemma_split_at_zero(a: Seq<u8>, x: Seq<u8>, b: Seq<u8>, y: Seq<u8>)
    requires
        forall|i: int| 0 <= i < a.len() ==> #[trigger] a[i] != 0,
        forall|i: int| 0 <= i < b.len() ==> #[trigger] b[i] != 0,
        a + seq![0u8] + x == b + seq![0u8] + y,
    ensures
        a == b,
        x == y,
{
    let s = a + seq![0u8] + x;
    let t = b + seq![0u8] + y;
    if a.len() < b.len() {
        assert(s[a.len() as int] == 0);
        assert(t[a.len() as int] == b[a.len() as int]);
    }
    if b.len() < a.len() {
        assert(t[b.len() as int] == 0);
        assert(s[b.len() as int] == a[b.len() as int]);
    }
    assert(a =~= s.take(a.len() as int));
    assert(b =~= t.take(b.len() as int));
    assert(x =~= s.skip(a.len() + 1int));
    assert(y =~= t.skip(b.len() + 1int));
}

/// Clips that differ in text, voice or speed are told apart: what is hashed for their
/// keys differs. Text and voice hold no zero character.
pub proof fn law_identity_tells_apart(
    text1: Seq<char>,
    voice1: Seq<char>,
    speed1: Seq<char>,
    text2: Seq<char>,
    voice2: Seq<char>,
    speed2: Seq<char>,
)
    requires
        !text1.contains('\0'),
        !voice1.contains('\0'),
        !text2.contains('\0'),
        !voice2.contains('\0'),
        identity(text1, voice1, speed1) == identity(text2, voice2, speed2),
    ensures
        text1 == text2,
        voice1 == voice2,
        speed1 == speed2,
{
    lemma_no_zero_byte(text1);
    lemma_no_zero_byte(voice1);
    lemma_no_zero_byte(text2);
    lemma_no_zero_byte(voice2);
    let end = seq![0u8, 0x76u8, 0x33u8];
    let (s1, s2) = (encode_utf8(speed1) + end, encode_utf8(speed2) + end);
    let (v1, v2) = (encode_utf8(voice1), encode_utf8(voice2));
    let (t1, t2) = (encode_utf8(text1), encode_utf8(text2));
    let z = seq![0u8];
    assert(identity(text1, voice1, speed1) =~= t1 + z + (v1 + z + s1));
    assert(identity(text2, voice2, speed2) =~= t2 + z + (v2 + z + s2));
    lemma_split_at_zero(t1, v1 + z + s1, t2, v2 + z + s2);
    lemma_split_at_zero(v1, s1, v2, s2);
    assert(encode_utf8(speed1) =~= s1.take(s1.len() - 3));
    assert(encode_utf8(speed2) =~= s2.take(s2.len() - 3));
    encode_utf8_decode_utf8(text1);
    encode_utf8_decode_utf8(text2);
    encode_utf8_decode_utf8(voice1);
    encode_utf8_decode_utf8(voice2);
    encode_utf8_decode_utf8(speed1);
    encode_utf8_decode_utf8(speed2);
}

/// Clips that differ in text, voice or speed have different keys, unless the hashes of two
/// different identities are the same: that they are not is what the hash is for, and is
/// not shown here. Text and voice hold no zero character.
pub proof fn law_keys_differ_unless_hashes_collide(
    text1: Seq<char>,
    voice1: Seq<char>,
    speed1: Seq<char>,
    text2: Seq<char>,
    voice2: Seq<char>,
    speed2: Seq<char>,
)
    requires
        !text1.contains('\0'),
        !voice1.contains('\0'),
        !text2.contains('\0'),
        !voice2.contains('\0'),
        text1 != text2 || voice1 != voice2 || speed1 != speed2,
    ensures
        identity(text1, voice1, speed1) != identity(text2, voice2, speed2),
        key_of(text1, voice1, speed1) == key_of(text2, voice2, speed2) ==> sha256(
            identity(text1, voice1, speed1),
        ) == sha256(identity(text2, voice2, speed2)),
{
    if identity(text1, voice1, speed1) == identity(text2, voice2, speed2) {
        law_identity_tells_apart(text1, voice1, speed1, text2, voice2, speed2);
    }
    law_hex_text(
        sha256(identity(text1, voice1, speed1)),
        sha256(identity(text2, voice2, speed2)),
    );
}

} // verus!
