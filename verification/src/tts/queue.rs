//! What is asked of the speech worker.
//!
//! There is one worker. A text that is asked for twice is synthesized once: everyone
//! who waits for it is kept with it, under its key. A text may also be asked for ahead
//! of time. Such a request is dropped when it is the worker's turn and a real request
//! has come since, unless someone has asked for the text again in the meantime.

use crate::db::Clip;
use crate::hash::{hex_of, hex_text, is_hex_digit, law_hex_text, sha256, sha256_of};
use crate::text::{chars_of, lemma_trim, push_chars, same_text, string_of, trimmed};
use crate::tts::phonemize::Lang;
use vstd::prelude::*;
use vstd::utf8::encode_utf8;

verus! {

/// What the worker can tell of itself.
#[derive(Debug, Clone)]
pub struct Info {
    /// Whether the model gives the durations of its tokens.
    pub aligned: bool,
    /// The voices that can be asked for.
    pub voices: Vec<String>,
}

/// How many jobs the queue holds where `queue_len` are asked for.
pub fn capacity(queue_len: usize) -> (r: usize)
    ensures
        r == if queue_len < 4 {
            4
        } else {
            queue_len
        },
{
    if queue_len < 4 {
        4
    } else {
        queue_len
    }
}

// -------------------------------------------------------------------------------- keys

/// A text to synthesize.
#[derive(Debug, Clone, PartialEq)]
pub struct Request {
    pub text: String,
    pub voice: String,
    /// The speed with two decimals.
    pub speed: String,
    pub lang: Lang,
}

/// What a clip is known by: text, voice and speed, each closed by a zero byte, and the
/// version of the synthesis, so that clips of an older one are not taken for it.
pub open spec fn identity(text: Seq<char>, voice: Seq<char>, speed: Seq<char>) -> Seq<u8> {
    encode_utf8(text) + seq![0u8] + encode_utf8(voice) + seq![0u8] + encode_utf8(speed) + seq![
        0u8,
        0x76u8,
        0x33u8,
    ]
}

/// The key of a clip: the hash of its [`identity`], in hexadecimal.
pub open spec fn key_of(text: Seq<char>, voice: Seq<char>, speed: Seq<char>) -> Seq<char> {
    hex_text(sha256(identity(text, voice, speed)))
}

impl Request {
    /// The key of the clip: the hash of its [`identity`], in hexadecimal.
    pub fn key(&self) -> (r: String)
        ensures
            r@ == key_of(self.text@, self.voice@, self.speed@),
            r@.len() == 64,
            forall|i: int| 0 <= i < r@.len() ==> is_hex_digit(#[trigger] r@[i]),
    {
        let mut bytes: Vec<u8> = Vec::new();
        bytes.extend_from_slice(self.text.as_str().as_bytes());
        bytes.push(0);
        bytes.extend_from_slice(self.voice.as_str().as_bytes());
        bytes.push(0);
        bytes.extend_from_slice(self.speed.as_str().as_bytes());
        bytes.push(0);
        bytes.push(0x76);
        bytes.push(0x33);
        assert(bytes@ =~= identity(self.text@, self.voice@, self.speed@));
        let hash: Vec<u8> = sha256_of(bytes.as_slice());
        proof {
            law_hex_text(hash@, hash@);
        }
        hex_of(hash.as_slice())
    }
}

/// Where the clip with this key is kept.
pub open spec fn path_of(key: Seq<char>) -> Seq<char> {
    "audio/"@ + key.take(2) + "/"@ + key + ".wav"@
}

/// Where the clip with this key is kept, below the data directory.
pub fn clip_path(key: &str) -> (r: String)
    requires
        key@.len() >= 2,
    ensures
        r@ == path_of(key@),
{
    let cs: Vec<char> = chars_of(key);
    let mut out: Vec<char> = chars_of("audio/");
    push_chars(&mut out, &cs.as_slice()[0..2]);
    push_chars(&mut out, chars_of("/").as_slice());
    push_chars(&mut out, cs.as_slice());
    push_chars(&mut out, chars_of(".wav").as_slice());
    assert(cs@.subrange(0, 2) =~= cs@.take(2));
    string_of(out.as_slice())
}

/// The clip with this key, once its sound is written.
pub fn finished_clip(key: &str, duration_ms: u32, word_timings: String, aligned: bool) -> (r: Clip)
    requires
        key@.len() >= 2,
    ensures
        r.key@ == key@,
        r.path@ == path_of(key@),
        r.duration_ms == duration_ms,
        r.word_timings == word_timings,
        r.aligned == aligned,
{
    Clip {
        key: key.to_owned(),
        path: clip_path(key),
        duration_ms: duration_ms as i64,
        word_timings,
        aligned,
    }
}

/// Whether there is anything to say: phonemes that are not all white space.
pub fn speakable(phonemes: &str) -> (r: bool)
    ensures
        r == !crate::text::blank(phonemes@),
{
    proof {
        lemma_trim(phonemes@);
    }
    trimmed(chars_of(phonemes).as_slice()).len() > 0
}

// ------------------------------------------------------------------------------- queue

/// Why no clip came of a request.
#[derive(Debug, Clone, Copy, PartialEq, Eq, Structural)]
pub enum QueueError {
    /// The queue is full.
    Full,
    /// The worker is gone.
    Closed,
    /// The worker dropped the request.
    Dropped,
}

impl QueueError {
    /// What the client is told.
    pub fn message(self) -> (r: &'static str)
        ensures
            r@ == match self {
                QueueError::Full => "fila de TTS cheia"@,
                QueueError::Closed => "worker de TTS morreu"@,
                QueueError::Dropped => "worker de TTS descartou o pedido"@,
            },
    {
        match self {
            QueueError::Full => "fila de TTS cheia",
            QueueError::Closed => "worker de TTS morreu",
            QueueError::Dropped => "worker de TTS descartou o pedido",
        }
    }
}

/// A text in the queue: who waits for it and, if nobody does, when it was last asked
/// for ahead of time.
pub struct Entry<W> {
    pub key: String,
    pub waiters: Vec<W>,
    pub prefetch_epoch: Option<u64>,
}

/// What an [`Entry`] holds beside its key.
#[verifier::ext_equal]
pub struct EntryView<W> {
    pub waiters: Seq<W>,
    pub prefetch_epoch: Option<u64>,
}

/// The texts that are waiting for the worker. `W` is how someone who waits is told.
pub struct Queue<W> {
    entries: Vec<Entry<W>>,
    epoch: u64,
}

/// The contents of a [`Queue`]: how many real requests there have been, and what waits
/// under each key.
#[verifier::ext_equal]
#[verifier::reject_recursive_types(W)]
pub struct QueueView<W> {
    pub epoch: u64,
    pub waiting: Map<Seq<char>, EntryView<W>>,
}

/// The entries `v` by their keys.
pub open spec fn by_key<W>(v: Seq<Entry<W>>) -> Map<Seq<char>, EntryView<W>>
    decreases v.len(),
{
    if v.len() == 0 {
        Map::empty()
    } else {
        let e = v.last();
        by_key(v.drop_last()).insert(
            e.key@,
            EntryView { waiters: e.waiters@, prefetch_epoch: e.prefetch_epoch },
        )
    }
}

/// Whether no two entries have one key.
pub open spec fn distinct_keys<W>(v: Seq<Entry<W>>) -> bool {
    forall|i: int, j: int|
        0 <= i < j < v.len() ==> (#[trigger] v[i]).key@ != (#[trigger] v[j]).key@
}

impl<W> QueueView<W> {
    /// Nothing is waiting.
    pub open spec fn empty() -> Self {
        QueueView { epoch: 0, waiting: Map::empty() }
    }

    /// Whoever asks ahead of time does not wait: an entry that someone waits for is a
    /// real request.
    pub open spec fn sound(self) -> bool {
        forall|k: Seq<char>|
            #[trigger] self.waiting.contains_key(k) && self.waiting[k].prefetch_epoch is Some
                ==> self.waiting[k].waiters.len() == 0
    }

    /// `w` asks for `key` and waits: with those who wait already, or in a new entry.
    /// The request is real from now on, and there has been one more.
    pub open spec fn requested(self, key: Seq<char>, w: W) -> Self {
        let waiters = if self.waiting.contains_key(key) {
            self.waiting[key].waiters.push(w)
        } else {
            seq![w]
        };
        QueueView {
            epoch: (if self.epoch == u64::MAX {
                0
            } else {
                self.epoch + 1
            }) as u64,
            waiting: self.waiting.insert(key, EntryView { waiters, prefetch_epoch: None }),
        }
    }

    /// `key` is asked for ahead of time: in a new entry, or again. A real request
    /// stays one.
    pub open spec fn prefetched(self, key: Seq<char>) -> Self {
        if self.waiting.contains_key(key) {
            if self.waiting[key].prefetch_epoch is Some {
                QueueView {
                    waiting: self.waiting.insert(
                        key,
                        EntryView {
                            waiters: self.waiting[key].waiters,
                            prefetch_epoch: Some(self.epoch),
                        },
                    ),
                    ..self
                }
            } else {
                self
            }
        } else {
            QueueView {
                waiting: self.waiting.insert(
                    key,
                    EntryView { waiters: Seq::empty(), prefetch_epoch: Some(self.epoch) },
                ),
                ..self
            }
        }
    }

    /// `key` is not waiting any more.
    pub open spec fn without(self, key: Seq<char>) -> Self {
        QueueView { waiting: self.waiting.remove(key), ..self }
    }

    /// Whether `key` was asked for ahead of time only, and not since the last real
    /// request.
    pub open spec fn stale(self, key: Seq<char>) -> bool {
        &&& self.waiting.contains_key(key)
        &&& self.waiting[key].prefetch_epoch matches Some(e) && e < self.epoch
    }
}

/// The keys of entries are the keys that wait, each with its entry.
proof fn lemma_by_key<W>(v: Seq<Entry<W>>)
    requires
        distinct_keys(v),
    ensures
        forall|i: int|
            0 <= i < v.len() ==> {
                &&& by_key(v).contains_key((#[trigger] v[i]).key@)
                &&& by_key(v)[v[i].key@] == (EntryView {
                    waiters: v[i].waiters@,
                    prefetch_epoch: v[i].prefetch_epoch,
                })
            },
        forall|k: Seq<char>| #[trigger]
            by_key(v).contains_key(k) ==> exists|i: int|
                0 <= i < v.len() && (#[trigger] v[i]).key@ == k,
    decreases v.len(),
{
    if v.len() > 0 {
        let init = v.drop_last();
        assert forall|i: int, j: int| 0 <= i < j < init.len() implies (#[trigger] init[i]).key@ != (
        #[trigger] init[j]).key@ by {
            assert(init[i] == v[i] && init[j] == v[j]);
        }
        lemma_by_key(init);
        assert forall|i: int| 0 <= i < v.len() implies {
            &&& by_key(v).contains_key((#[trigger] v[i]).key@)
            &&& by_key(v)[v[i].key@] == (EntryView {
                waiters: v[i].waiters@,
                prefetch_epoch: v[i].prefetch_epoch,
            })
        } by {
            if i < v.len() - 1 {
                assert(init[i] == v[i]);
                assert(v[i].key@ != v[v.len() - 1].key@);
            }
        }
        assert forall|k: Seq<char>| #[trigger] by_key(v).contains_key(k) implies exists|i: int|
            0 <= i < v.len() && (#[trigger] v[i]).key@ == k by {
            if k == v.last().key@ {
                assert(v[v.len() - 1].key@ == k);
            } else {
                let i = choose|i: int| 0 <= i < init.len() && (#[trigger] init[i]).key@ == k;
                assert(v[i].key@ == k);
            }
        }
    }
}

impl<W> View for Queue<W> {
    type V = QueueView<W>;

    closed spec fn view(&self) -> QueueView<W> {
        QueueView { epoch: self.epoch, waiting: by_key(self.entries@) }
    }
}

impl<W> Queue<W> {
    /// No two entries have one key, and nobody waits for what is only asked for ahead
    /// of time.
    pub closed spec fn wf(&self) -> bool {
        distinct_keys(self.entries@) && self@.sound()
    }

    /// An empty queue.
    pub fn new() -> (r: Queue<W>)
        ensures
            r.wf(),
            r@ == QueueView::<W>::empty(),
    {
        Queue { entries: Vec::new(), epoch: 0 }
    }

    /// Where `key` is among the entries.
    fn find(&self, key: &str) -> (r: Option<usize>)
        requires
            self.wf(),
        ensures
            r is Some <==> self@.waiting.contains_key(key@),
            r matches Some(i) ==> i < self.entries@.len() && self.entries@[i as int].key@ == key@,
    {
        proof {
            lemma_by_key(self.entries@);
        }
        let mut i: usize = 0;
        while i < self.entries.len()
            invariant
                0 <= i <= self.entries@.len(),
                self@.waiting == by_key(self.entries@),
                forall|k: int|
                    0 <= k < self.entries@.len() ==> by_key(self.entries@).contains_key(
                        (#[trigger] self.entries@[k]).key@,
                    ),
                forall|k: int| 0 <= k < i ==> (#[trigger] self.entries@[k]).key@ != key@,
            decreases self.entries@.len() - i,
        {
            if same_text(self.entries[i].key.as_str(), key) {
                assert(by_key(self.entries@).contains_key(self.entries@[i as int].key@));
                return Some(i);
            }
            i = i + 1;
        }
        None
    }

    /// `waiter` asks for `key` and waits. Whether a job has to be sent to the worker:
    /// only where none is waiting already.
    pub fn request(&mut self, key: &str, waiter: W) -> (r: bool)
        requires
            old(self).wf(),
        ensures
            final(self).wf(),
            final(self)@ == old(self)@.requested(key@, waiter),
            r == !old(self)@.waiting.contains_key(key@),
    {
        let found: Option<usize> = self.find(key);
        let ghost before = self.entries@;
        proof {
            lemma_by_key(before);
        }
        self.epoch = self.epoch.wrapping_add(1);
        match found {
            Some(i) => {
                let mut e: Entry<W> = self.entries.remove(i);
                e.waiters.push(waiter);
                e.prefetch_epoch = None;
                self.entries.push(e);
                proof {
                    lemma_moved(before, i as int, e);
                    assert(self@ =~= old(self)@.requested(key@, waiter));
                }
                false
            },
            None => {
                let mut waiters: Vec<W> = Vec::new();
                waiters.push(waiter);
                assert(waiters@ =~= seq![waiter]);
                let e = Entry { key: key.to_owned(), waiters, prefetch_epoch: None };
                self.entries.push(e);
                proof {
                    lemma_pushed(before, e);
                    assert(self@ =~= old(self)@.requested(key@, waiter));
                }
                true
            },
        }
    }

    /// `key` is asked for ahead of time. Whether a job has to be sent to the worker:
    /// only where none is waiting already.
    pub fn prefetch(&mut self, key: &str) -> (r: bool)
        requires
            old(self).wf(),
        ensures
            final(self).wf(),
            final(self)@ == old(self)@.prefetched(key@),
            r == !old(self)@.waiting.contains_key(key@),
    {
        let found: Option<usize> = self.find(key);
        let ghost before = self.entries@;
        proof {
            lemma_by_key(before);
        }
        match found {
            Some(i) => {
                if self.entries[i].prefetch_epoch.is_some() {
                    let mut e: Entry<W> = self.entries.remove(i);
                    e.prefetch_epoch = Some(self.epoch);
                    self.entries.push(e);
                    proof {
                        lemma_moved(before, i as int, e);
                        assert(self@ =~= old(self)@.prefetched(key@));
                    }
                }
                false
            },
            None => {
                let e = Entry {
                    key: key.to_owned(),
                    waiters: Vec::new(),
                    prefetch_epoch: Some(self.epoch),
                };
                self.entries.push(e);
                proof {
                    lemma_pushed(before, e);
                    assert(e.waiters@ =~= Seq::empty());
                    assert(self@ =~= old(self)@.prefetched(key@));
                }
                true
            },
        }
    }

    /// Takes `key` out of the queue, and gives back who waited for it. So it goes when
    /// its clip is there, and when its job could not be sent.
    pub fn remove(&mut self, key: &str) -> (r: Vec<W>)
        requires
            old(self).wf(),
        ensures
            final(self).wf(),
            final(self)@ == old(self)@.without(key@),
            r@ == if old(self)@.waiting.contains_key(key@) {
                old(self)@.waiting[key@].waiters
            } else {
                Seq::empty()
            },
    {
        let found: Option<usize> = self.find(key);
        let ghost before = self.entries@;
        proof {
            lemma_by_key(before);
        }
        match found {
            Some(i) => {
                let e: Entry<W> = self.entries.remove(i);
                proof {
                    lemma_removed(before, i as int);
                    assert(self@ =~= old(self)@.without(key@));
                }
                e.waiters
            },
            None => {
                assert(self@ =~= old(self)@.without(key@));
                Vec::new()
            },
        }
    }

    /// It is the turn of `key`. Whether the worker has to do it: a stale request is
    /// dropped instead.
    pub fn start(&mut self, key: &str) -> (r: bool)
        requires
            old(self).wf(),
        ensures
            final(self).wf(),
            r == !old(self)@.stale(key@),
            final(self)@ == if r {
                old(self)@
            } else {
                old(self)@.without(key@)
            },
    {
        proof {
            lemma_by_key(self.entries@);
        }
        let mut stale: bool = false;
        if let Some(i) = self.find(key) {
            if let Some(e) = self.entries[i].prefetch_epoch {
                stale = e < self.epoch;
            }
        }
        if stale {
            let _nobody: Vec<W> = self.remove(key);
        }
        !stale
    }
}

/// What is left when an entry goes.
proof fn lemma_removed<W>(v: Seq<Entry<W>>, i: int)
    requires
        distinct_keys(v),
        0 <= i < v.len(),
    ensures
        distinct_keys(v.remove(i)),
        by_key(v.remove(i)) == by_key(v).remove(v[i].key@),
{
    let rest = v.remove(i);
    assert forall|a: int, b: int| 0 <= a < b < rest.len() implies (#[trigger] rest[a]).key@ != (
    #[trigger] rest[b]).key@ by {
        let a2 = if a < i { a } else { a + 1 };
        let b2 = if b < i { b } else { b + 1 };
        assert(rest[a] == v[a2] && rest[b] == v[b2]);
    }
    lemma_by_key(v);
    lemma_by_key(rest);
    let gone = by_key(v).remove(v[i].key@);
    assert forall|k: Seq<char>| #[trigger] by_key(rest).contains_key(k) == gone.contains_key(k) && (
    gone.contains_key(k) ==> by_key(rest)[k] == gone[k]) by {
        if by_key(rest).contains_key(k) {
            let a = choose|a: int| 0 <= a < rest.len() && (#[trigger] rest[a]).key@ == k;
            let a2 = if a < i { a } else { a + 1 };
            assert(rest[a] == v[a2]);
            if a2 < i {
                assert(v[a2].key@ != v[i].key@);
            } else {
                assert(v[i].key@ != v[a2].key@);
            }
        }
        if gone.contains_key(k) {
            let a2 = choose|a: int| 0 <= a < v.len() && (#[trigger] v[a]).key@ == k;
            let a = if a2 < i { a2 } else { a2 - 1 };
            assert(rest[a] == v[a2]);
        }
    }
    assert(by_key(rest) =~= gone);
}

/// What a new entry adds.
proof fn lemma_pushed<W>(v: Seq<Entry<W>>, e: Entry<W>)
    requires
        distinct_keys(v),
        !by_key(v).contains_key(e.key@),
    ensures
        distinct_keys(v.push(e)),
        by_key(v.push(e)) == by_key(v).insert(
            e.key@,
            EntryView { waiters: e.waiters@, prefetch_epoch: e.prefetch_epoch },
        ),
{
    lemma_by_key(v);
    let all = v.push(e);
    assert(all.drop_last() =~= v);
    assert forall|a: int, b: int| 0 <= a < b < all.len() implies (#[trigger] all[a]).key@ != (
    #[trigger] all[b]).key@ by {
        assert(all[a] == v[a]);
        assert(by_key(v).contains_key(v[a].key@));
        if b < v.len() {
            assert(all[b] == v[b]);
        }
    }
}

/// What becomes of the entries when one of them is changed and put last.
proof fn lemma_moved<W>(v: Seq<Entry<W>>, i: int, e: Entry<W>)
    requires
        distinct_keys(v),
        0 <= i < v.len(),
        e.key@ == v[i].key@,
    ensures
        distinct_keys(v.remove(i).push(e)),
        by_key(v.remove(i).push(e)) == by_key(v).insert(
            e.key@,
            EntryView { waiters: e.waiters@, prefetch_epoch: e.prefetch_epoch },
        ),
{
    lemma_removed(v, i);
    lemma_pushed(v.remove(i), e);
    assert(by_key(v.remove(i).push(e)) =~= by_key(v).insert(
        e.key@,
        EntryView { waiters: e.waiters@, prefetch_epoch: e.prefetch_epoch },
    ));
}

} // verus!
