//! The sound of a paragraph, chunk by chunk.

use crate::db::Clip;
use crate::http::{
    error, found, is_error, ApiError, BAD_REQUEST, CONFLICT, GATEWAY_TIMEOUT, NOT_FOUND,
    SERVICE_UNAVAILABLE,
};
use crate::text::{chars_of, has_string, is_empty, push_chars, same_text, string_of, strs};
use crate::tts::chunk::{chunk_views, chunks, split, Chunk, ChunkView};
use crate::tts::phonemize::{book_lang_of, voice_lang, Lang};
use crate::tts::queue::{key_of, Info, Request};
use crate::tts::{resolve_voice, VoiceDefaults};
use serde_json::value::RawValue;
use vstd::prelude::*;

verus! {

/// How long a client waits for a clip, in seconds.
pub const WAIT_SECS: u64 = 90;

/// How many paragraphs behind the one that is heard are looked at ahead of time.
pub const FOLLOWING: i64 = 3;

// -------------------------------------------------------------------------------- meta

/// A clip as it is shown.
#[derive(Debug)]
pub struct ClipMeta {
    pub key: String,
    pub url: String,
    pub duration_ms: i64,
    /// The timings of the words, as JSON.
    pub word_timings: String,
    pub aligned: bool,
}

/// The value that the JSON text `s` holds, as it is written, or `None` where it is no
/// JSON.
pub uninterp spec fn json_value(s: Seq<char>) -> Option<Seq<char>>;

/// `serde_json::value::RawValue::from_string` and `RawValue::get`: the text of the value
/// that the JSON text `s` holds, without white space around it.
#[verifier::external_body]
fn raw_json(s: String) -> (r: Option<String>)
    ensures
        r is Some <==> json_value(s@) is Some,
        r matches Some(v) ==> json_value(s@) == Some(v@),
{
    RawValue::from_string(s).ok().map(|v| v.get().to_string())
}

/// The timings of a clip: what is stored, or none where it is no JSON.
pub open spec fn shown_timings(s: Seq<char>) -> Seq<char> {
    match json_value(s) {
        Some(v) => v,
        None => "[]"@,
    }
}

/// Whether `m` shows the clip `c` with these timings.
pub open spec fn shows_with(m: ClipMeta, c: Clip, timings: Seq<char>) -> bool {
    &&& m.key == c.key
    &&& m.url@ == "/"@ + c.path@
    &&& m.duration_ms == c.duration_ms
    &&& m.word_timings@ == timings
    &&& m.aligned == c.aligned
}

/// Whether `m` shows the clip `c`.
pub open spec fn shows(m: ClipMeta, c: Clip) -> bool {
    shows_with(m, c, shown_timings(c.word_timings@))
}

/// The clip `c` as it is shown, where its timings read as JSON are `timings`.
pub fn meta_with(c: Clip, timings: Option<String>) -> (r: ClipMeta)
    ensures
        shows_with(
            r,
            c,
            match timings {
                Some(t) => t@,
                None => "[]"@,
            },
        ),
{
    let mut url: Vec<char> = chars_of("/");
    push_chars(&mut url, chars_of(c.path.as_str()).as_slice());
    let word_timings: String = match timings {
        Some(t) => t,
        None => "[]".to_owned(),
    };
    ClipMeta {
        key: c.key,
        url: string_of(url.as_slice()),
        duration_ms: c.duration_ms,
        word_timings,
        aligned: c.aligned,
    }
}

/// The clip `c` as it is shown.
pub fn meta(c: Clip) -> (r: ClipMeta)
    ensures
        shows(r, c),
{
    let timings: Option<String> = raw_json(c.word_timings.clone());
    meta_with(c, timings)
}

// ------------------------------------------------------------------------------ answers

/// The speech worker, if there is one.
pub fn available<T>(tts: Option<T>) -> (r: Result<T, ApiError>)
    ensures
        tts matches Some(t) ==> r == Ok::<T, ApiError>(t),
        tts is None ==> (r matches Err(e) && is_error(
            e,
            SERVICE_UNAVAILABLE,
            "TTS indisponível neste servidor"@,
        )),
{
    match tts {
        Some(t) => Ok(t),
        None => Err(error(SERVICE_UNAVAILABLE, "TTS indisponível neste servidor")),
    }
}

/// The answer where the worker gave no clip.
pub fn failed(why: &str) -> (r: ApiError)
    ensures
        is_error(r, SERVICE_UNAVAILABLE, why@),
{
    error(SERVICE_UNAVAILABLE, why)
}

/// The answer where the clip took too long.
pub fn timed_out() -> (r: ApiError)
    ensures
        is_error(r, GATEWAY_TIMEOUT, "TTS demorou demais"@),
{
    error(GATEWAY_TIMEOUT, "TTS demorou demais")
}

/// The paragraph that was looked up, if it is there.
pub fn known_paragraph<T>(p: Option<T>) -> (r: Result<T, ApiError>)
    ensures
        p matches Some(v) ==> r == Ok::<T, ApiError>(v),
        p is None ==> (r matches Err(e) && is_error(e, NOT_FOUND, "parágrafo não existe"@)),
{
    found(p, "parágrafo não existe")
}

/// The chunk that is asked for; one has to be.
pub fn required_chunk(chunk: Option<usize>) -> (r: Result<usize, ApiError>)
    ensures
        chunk matches Some(i) ==> r == Ok::<usize, ApiError>(i),
        chunk is None ==> (r matches Err(e) && is_error(e, BAD_REQUEST, "chunk obrigatório"@)),
{
    match chunk {
        Some(i) => Ok(i),
        None => Err(error(BAD_REQUEST, "chunk obrigatório")),
    }
}

/// Refuses a voice that is asked for and that there is not.
pub fn check_voice(voices: &[String], voice: Option<&str>) -> (r: Result<(), ApiError>)
    ensures
        match voice {
            Some(v) => if v@.len() > 0 && !strs(voices@).contains(v@) {
                r matches Err(e) && is_error(e, BAD_REQUEST, "voz desconhecida: "@ + v@)
            } else {
                r is Ok
            },
            None => r is Ok,
        },
{
    if let Some(v) = voice {
        if !is_empty(v) && !has_string(voices, v) {
            let mut out: Vec<char> = chars_of("voz desconhecida: ");
            push_chars(&mut out, chars_of(v).as_slice());
            return Err(error(BAD_REQUEST, string_of(out.as_slice()).as_str()));
        }
    }
    Ok(())
}

/// What is told of the voices.
#[derive(Debug)]
pub struct VoicesInfo {
    pub available: bool,
    pub aligned: bool,
    pub voices: Vec<String>,
    pub default_en: String,
    pub default_pt: String,
}

/// What is told of the voices, where the worker tells this, or there is none.
pub fn voices_info(info: Option<&Info>, defaults: &VoiceDefaults) -> (r: VoicesInfo)
    ensures
        r.available == info is Some,
        r.aligned == (info matches Some(i) && i.aligned),
        strs(r.voices@) == match info {
            Some(i) => strs(i.voices@),
            None => Seq::empty(),
        },
        r.default_en@ == defaults.en@,
        r.default_pt@ == defaults.pt@,
{
    let mut voices: Vec<String> = Vec::new();
    let mut aligned: bool = false;
    if let Some(i) = info {
        aligned = i.aligned;
        let mut k: usize = 0;
        while k < i.voices.len()
            invariant
                0 <= k <= i.voices@.len(),
                strs(voices@) =~= strs(i.voices@).take(k as int),
            decreases i.voices@.len() - k,
        {
            let v: String = i.voices[k].clone();
            proof {
                crate::text::lemma_strs_push(voices@, v);
            }
            voices.push(v);
            k = k + 1;
        }
        assert(strs(voices@) =~= strs(i.voices@));
    } else {
        assert(strs(voices@) =~= Seq::empty());
    }
    VoicesInfo {
        available: info.is_some(),
        aligned,
        voices,
        default_en: defaults.en.clone(),
        default_pt: defaults.pt.clone(),
    }
}

// -------------------------------------------------------------------------------- plans

/// What a [`Request`] holds.
#[verifier::ext_equal]
pub struct RequestView {
    pub text: Seq<char>,
    pub voice: Seq<char>,
    pub speed: Seq<char>,
    pub lang: Lang,
}

impl View for Request {
    type V = RequestView;

    open spec fn view(&self) -> RequestView {
        RequestView { text: self.text@, voice: self.voice@, speed: self.speed@, lang: self.lang }
    }
}

/// A request like `q`.
fn copy_request(q: &Request) -> (r: Request)
    ensures
        r@ == q@,
{
    let r = Request {
        text: q.text.clone(),
        voice: q.voice.clone(),
        speed: q.speed.clone(),
        lang: q.lang,
    };
    assert(r@ =~= q@);
    r
}

/// The contents of a list of requests.
pub open spec fn request_views(v: Seq<Request>) -> Seq<RequestView> {
    Seq::new(v.len(), |i: int| v[i]@)
}

/// The requests for the chunks `cs`.
pub open spec fn requests_for(
    cs: Seq<ChunkView>,
    voice: Seq<char>,
    speed: Seq<char>,
    lang: Lang,
) -> Seq<RequestView> {
    Seq::new(cs.len(), |i: int| RequestView { text: cs[i].text, voice, speed, lang })
}

/// How a paragraph is spoken.
#[derive(Debug)]
pub struct ClipPlan {
    pub voice: String,
    pub lang: Lang,
    pub chunks: Vec<Chunk>,
    /// One request for each chunk.
    pub requests: Vec<Request>,
}

/// The voice of a paragraph: the one that is asked for, or the default of the book's
/// language.
pub open spec fn chosen_voice(
    defaults: VoiceDefaults,
    book_lang: Seq<char>,
    voice: Option<Seq<char>>,
) -> Seq<char> {
    match voice {
        Some(v) => if v.len() > 0 {
            v
        } else {
            defaults.voice(book_lang_of(book_lang))
        },
        None => defaults.voice(book_lang_of(book_lang)),
    }
}

/// The language that a voice reads a book in.
pub open spec fn chosen_lang(book_lang: Seq<char>, voice: Seq<char>) -> Lang {
    match voice_lang(voice) {
        Some(lang) => lang,
        None => book_lang_of(book_lang),
    }
}

/// Appends the requests for the chunks `cs` to `out`, until there are `limit`.
fn push_requests(
    out: &mut Vec<Request>,
    cs: &Vec<Chunk>,
    voice: &str,
    speed: &str,
    lang: Lang,
    limit: usize,
)
    requires
        old(out)@.len() <= limit,
    ensures
        ({
            let all = request_views(old(out)@) + requests_for(
                chunk_views(cs@),
                voice@,
                speed@,
                lang,
            );
            request_views(final(out)@) == if all.len() <= limit {
                all
            } else {
                all.take(limit as int)
            }
        }),
        final(out)@.len() <= limit,
{
    let ghost before = request_views(out@);
    let ghost more = requests_for(chunk_views(cs@), voice@, speed@, lang);
    let mut i: usize = 0;
    while i < cs.len() && out.len() < limit
        invariant
            0 <= i <= cs@.len(),
            more == requests_for(chunk_views(cs@), voice@, speed@, lang),
            request_views(out@) =~= before + more.take(i as int),
            out@.len() == before.len() + i,
            out@.len() <= limit,
        decreases cs@.len() - i,
    {
        let r = Request {
            text: cs[i].text.clone(),
            voice: voice.to_owned(),
            speed: speed.to_owned(),
            lang,
        };
        let ghost old_out = out@;
        assert(chunk_views(cs@)[i as int] == cs@[i as int]@);
        assert(r@ =~= more[i as int]);
        out.push(r);
        assert(request_views(out@) =~= request_views(old_out).push(r@));
        i = i + 1;
    }
    proof {
        let all = before + more;
        assert(more.len() == cs@.len());
        if i < cs@.len() {
            assert(request_views(out@) =~= all.take(limit as int));
        } else {
            assert(more.take(i as int) =~= more);
        }
    }
}

/// Plans how a paragraph with this text is spoken, in a book with this language tag.
pub fn plan(
    defaults: &VoiceDefaults,
    text: &str,
    book_lang: &str,
    voice: Option<&str>,
    speed: &str,
) -> (r: ClipPlan)
    ensures
        r.voice@ == chosen_voice(*defaults, book_lang@, crate::http::auth::opt_view(voice)),
        r.lang == chosen_lang(book_lang@, r.voice@),
        chunk_views(r.chunks@) == chunks(text@),
        request_views(r.requests@) == requests_for(chunks(text@), r.voice@, speed@, r.lang),
        r.requests@.len() == r.chunks@.len(),
{
    let (name, lang) = resolve_voice(defaults, book_lang, voice);
    let cs: Vec<Chunk> = split(text);
    let mut requests: Vec<Request> = Vec::new();
    let limit: usize = cs.len();
    assert(request_views(requests@) =~= Seq::empty());
    push_requests(&mut requests, &cs, name.as_str(), speed, lang, limit);
    proof {
        let all = requests_for(chunk_views(cs@), name@, speed@, lang);
        assert(Seq::<RequestView>::empty() + all =~= all);
        assert(chunk_views(cs@).len() == cs@.len());
        assert(request_views(requests@).len() == requests@.len());
    }
    ClipPlan { voice: name, lang, chunks: cs, requests }
}

/// Refuses a chunk that the paragraph does not have, and a key that is not the chunk's.
/// `own` is the key of the chunk, if there is such a chunk.
pub fn check_key(own: Option<&str>, key: &str) -> (r: Result<(), ApiError>)
    ensures
        match own {
            None => r matches Err(e) && is_error(e, NOT_FOUND, "chunk fora do parágrafo"@),
            Some(k) => if k@ == key@ {
                r is Ok
            } else {
                r matches Err(e) && is_error(
                    e,
                    CONFLICT,
                    "key não corresponde a paragraph/chunk/voice/speed"@,
                )
            },
        },
{
    match own {
        None => Err(error(NOT_FOUND, "chunk fora do parágrafo")),
        Some(k) => if same_text(k, key) {
            Ok(())
        } else {
            Err(error(CONFLICT, "key não corresponde a paragraph/chunk/voice/speed"))
        },
    }
}

/// Refuses a chunk that the paragraph does not have, and a key that is not the one of
/// what is asked for.
pub fn check_request(requests: &[Request], chunk: usize, key: &str) -> (r: Result<(), ApiError>)
    ensures
        chunk >= requests@.len() ==> (r matches Err(e) && is_error(
            e,
            NOT_FOUND,
            "chunk fora do parágrafo"@,
        )),
        chunk < requests@.len() ==> {
            let q = requests@[chunk as int];
            if key_of(q.text@, q.voice@, q.speed@) == key@ {
                r is Ok
            } else {
                r matches Err(e) && is_error(
                    e,
                    CONFLICT,
                    "key não corresponde a paragraph/chunk/voice/speed"@,
                )
            }
        },
{
    if chunk >= requests.len() {
        return check_key(None, key);
    }
    let own: String = requests[chunk].key();
    check_key(Some(own.as_str()), key)
}

/// The requests for the paragraphs with these texts, one after the other.
pub open spec fn requests_of_texts(
    texts: Seq<Seq<char>>,
    voice: Seq<char>,
    speed: Seq<char>,
    lang: Lang,
) -> Seq<RequestView>
    decreases texts.len(),
{
    if texts.len() == 0 {
        Seq::empty()
    } else {
        requests_of_texts(texts.drop_last(), voice, speed, lang) + requests_for(
            chunks(texts.last()),
            voice,
            speed,
            lang,
        )
    }
}

/// The first `n` of `v`, or all of them.
pub open spec fn first_of<T>(v: Seq<T>, n: int) -> Seq<T> {
    if v.len() <= n {
        v
    } else {
        v.take(n)
    }
}

/// Whether the rest of a paragraph with `total` chunks, behind `chunk`, is less than
/// what is made ahead of time, so that the following paragraphs are looked at.
pub fn needs_following(total: usize, chunk: usize, prefetch: usize) -> (r: bool)
    requires
        chunk < total,
    ensures
        r == (total - chunk - 1 < prefetch),
{
    total - chunk - 1 < prefetch
}

/// What is made ahead of time once `chunk` is asked for: the rest of the paragraph, and
/// then the following ones, until there are `prefetch`.
pub fn ahead(
    plan: &ClipPlan,
    chunk: usize,
    following: &[String],
    speed: &str,
    prefetch: usize,
) -> (r: Vec<Request>)
    requires
        chunk < plan.requests@.len(),
    ensures
        request_views(r@) == made_ahead(
            *plan,
            chunk as int,
            strs(following@),
            speed@,
            prefetch as int,
        ),
        r@.len() <= prefetch,
{
    let ghost rest = request_views(plan.requests@).skip(chunk + 1);
    let total: usize = plan.requests.len();
    let mut out: Vec<Request> = Vec::new();
    let mut i: usize = chunk + 1;
    while i < total && out.len() < prefetch
        invariant
            chunk < i <= total,
            total == plan.requests@.len(),
            rest == request_views(plan.requests@).skip(chunk + 1),
            out@.len() == i - chunk - 1,
            out@.len() <= prefetch,
            request_views(out@) =~= rest.take(i - chunk - 1),
        decreases total - i,
    {
        let r: Request = copy_request(&plan.requests[i]);
        let ghost before = out@;
        out.push(r);
        assert(request_views(out@) =~= request_views(before).push(r@));
        i = i + 1;
    }
    assert(request_views(out@) =~= first_of(rest, prefetch as int));
    let ghost texts = strs(following@);
    let mut k: usize = 0;
    assert(requests_of_texts(texts.take(0), plan.voice@, speed@, plan.lang) =~= Seq::empty());
    assert(rest + Seq::<RequestView>::empty() =~= rest);
    while k < following.len() && out.len() < prefetch
        invariant
            0 <= k <= following@.len(),
            texts == strs(following@),
            out@.len() <= prefetch,
            request_views(out@) == first_of(
                rest + requests_of_texts(
                    texts.take(k as int),
                    plan.voice@,
                    speed@,
                    plan.lang,
                ),
                prefetch as int,
            ),
        decreases following@.len() - k,
    {
        let ghost sofar = rest + requests_of_texts(
            texts.take(k as int),
            plan.voice@,
            speed@,
            plan.lang,
        );
        let cs: Vec<Chunk> = split(following[k].as_str());
        proof {
            let next = texts.take(k + 1);
            assert(next.drop_last() =~= texts.take(k as int));
            assert(next.last() == following@[k as int]@);
            assert(request_views(out@).len() == out@.len());
            assert(sofar + requests_for(chunk_views(cs@), plan.voice@, speed@, plan.lang) =~= rest
                + requests_of_texts(next, plan.voice@, speed@, plan.lang));
        }
        push_requests(&mut out, &cs, plan.voice.as_str(), speed, plan.lang, prefetch);
        k = k + 1;
    }
    proof {
        let all = rest + requests_of_texts(texts, plan.voice@, speed@, plan.lang);
        assert(request_views(out@).len() == out@.len());
        if k == following@.len() {
            assert(texts.take(k as int) =~= texts);
        } else {
            let sofar = rest + requests_of_texts(
                texts.take(k as int),
                plan.voice@,
                speed@,
                plan.lang,
            );
            lemma_requests_prefix(texts, k as int, plan.voice@, speed@, plan.lang);
            assert(all.take(prefetch as int) =~= first_of(sofar, prefetch as int));
        }
    }
    out
}

/// The requests for the first paragraphs begin those for all of them.
proof fn lemma_requests_prefix(
    texts: Seq<Seq<char>>,
    k: int,
    voice: Seq<char>,
    speed: Seq<char>,
    lang: Lang,
)
    requires
        0 <= k <= texts.len(),
    ensures
        ({
            let a = requests_of_texts(texts.take(k), voice, speed, lang);
            let b = requests_of_texts(texts, voice, speed, lang);
            a.len() <= b.len() && b.take(a.len() as int) == a
        }),
    decreases texts.len(),
{
    let a = requests_of_texts(texts.take(k), voice, speed, lang);
    let b = requests_of_texts(texts, voice, speed, lang);
    if k == texts.len() {
        assert(texts.take(k) =~= texts);
        assert(b.take(a.len() as int) =~= a);
    } else {
        let init = texts.drop_last();
        lemma_requests_prefix(init, k, voice, speed, lang);
        assert(init.take(k) =~= texts.take(k));
        let c = requests_of_texts(init, voice, speed, lang);
        assert(b.take(a.len() as int) =~= c.take(a.len() as int));
    }
}

// ------------------------------------------------------------------------------ asking

/// What is done for a client that asks for a clip.
#[derive(Debug)]
pub enum Step {
    /// Ask the worker for this clip: the one that the client waits for.
    Ask(Request),
    /// Ask the worker for this clip ahead of time.
    Prefetch(Request),
    /// Wait for the clip that was asked for.
    Wait,
}

/// What a [`Step`] holds.
#[verifier::ext_equal]
pub enum StepView {
    Ask(RequestView),
    Prefetch(RequestView),
    Wait,
}

impl View for Step {
    type V = StepView;

    open spec fn view(&self) -> StepView {
        match self {
            Step::Ask(r) => StepView::Ask(r@),
            Step::Prefetch(r) => StepView::Prefetch(r@),
            Step::Wait => StepView::Wait,
        }
    }
}

/// The contents of a list of steps.
pub open spec fn step_views(v: Seq<Step>) -> Seq<StepView> {
    Seq::new(v.len(), |i: int| v[i]@)
}

/// The steps for the clip `r` with the clips `next` made ahead of time: the worker is asked
/// for the clip first, and for those behind it then. Only then is there a wait, so that
/// the worker goes on with the next clip while the client plays this one.
pub open spec fn steps_of(r: RequestView, next: Seq<RequestView>) -> Seq<StepView> {
    seq![StepView::Ask(r)] + Seq::new(next.len(), |i: int| StepView::Prefetch(next[i]))
        + seq![StepView::Wait]
}

/// What is made ahead of time once `chunk` is asked for.
pub open spec fn made_ahead(
    plan: ClipPlan,
    chunk: int,
    following: Seq<Seq<char>>,
    speed: Seq<char>,
    prefetch: int,
) -> Seq<RequestView> {
    first_of(
        request_views(plan.requests@).skip(chunk + 1) + requests_of_texts(
            following,
            plan.voice@,
            speed,
            plan.lang,
        ),
        prefetch,
    )
}

/// Whether `key` is the one of the chunk of the paragraph.
pub open spec fn key_fits(requests: Seq<Request>, chunk: int, key: Seq<char>) -> bool {
    let q = requests[chunk];
    key_of(q.text@, q.voice@, q.speed@) == key
}

/// Whether `r` is the answer to a client that asks for `chunk` under `key`. It is refused,
/// in this order, where there is no worker, where no chunk is named, where the paragraph
/// is not there, where it has no such chunk, and where the key is another one. Nothing is
/// asked of the worker then.
pub open spec fn answers_get(
    tts: bool,
    chunk: Option<usize>,
    plan: Option<&ClipPlan>,
    key: Seq<char>,
    following: Seq<Seq<char>>,
    speed: Seq<char>,
    prefetch: int,
    r: Result<Vec<Step>, ApiError>,
) -> bool {
    if !tts {
        r matches Err(e) && is_error(e, SERVICE_UNAVAILABLE, "TTS indisponível neste servidor"@)
    } else {
        match chunk {
            None => r matches Err(e) && is_error(e, BAD_REQUEST, "chunk obrigatório"@),
            Some(i) => match plan {
                None => r matches Err(e) && is_error(e, NOT_FOUND, "parágrafo não existe"@),
                Some(p) => if i >= p.requests@.len() {
                    r matches Err(e) && is_error(e, NOT_FOUND, "chunk fora do parágrafo"@)
                } else if !key_fits(p.requests@, i as int, key) {
                    r matches Err(e) && is_error(
                        e,
                        CONFLICT,
                        "key não corresponde a paragraph/chunk/voice/speed"@,
                    )
                } else {
                    r matches Ok(steps) && step_views(steps@) == steps_of(
                        p.requests@[i as int]@,
                        made_ahead(*p, i as int, following, speed, prefetch),
                    )
                },
            },
        }
    }
}

/// Whether the texts of the following paragraphs are needed to answer a client that asks
/// for `chunk` under `key`: it is not refused, and the rest of the paragraph is less than
/// what is made ahead of time.
pub fn wants_following(plan: &ClipPlan, chunk: usize, key: &str, prefetch: usize) -> (r: bool)
    ensures
        r == (chunk < plan.requests@.len() && key_fits(plan.requests@, chunk as int, key@)
            && plan.requests@.len() - chunk - 1 < prefetch),
{
    match check_request(plan.requests.as_slice(), chunk, key) {
        Ok(_) => needs_following(plan.requests.len(), chunk, prefetch),
        Err(_) => false,
    }
}

/// What is done for a client that asks for `chunk` of a paragraph under `key`. `tts` says
/// whether there is a worker, `plan` is that of the paragraph, if there is one, and
/// `following` are the texts of the paragraphs behind it.
pub fn get_steps(
    tts: bool,
    chunk: Option<usize>,
    plan: Option<&ClipPlan>,
    key: &str,
    following: &[String],
    speed: &str,
    prefetch: usize,
) -> (r: Result<Vec<Step>, ApiError>)
    ensures
        answers_get(tts, chunk, plan, key@, strs(following@), speed@, prefetch as int, r),
{
    let there: Option<()> = if tts {
        Some(())
    } else {
        None
    };
    if let Err(e) = available(there) {
        return Err(e);
    }
    let i: usize = match required_chunk(chunk) {
        Ok(i) => i,
        Err(e) => {
            return Err(e);
        },
    };
    let p: &ClipPlan = match known_paragraph(plan) {
        Ok(p) => p,
        Err(e) => {
            return Err(e);
        },
    };
    if let Err(e) = check_request(p.requests.as_slice(), i, key) {
        return Err(e);
    }
    let asked: Request = copy_request(&p.requests[i]);
    let next: Vec<Request> = ahead(p, i, following, speed, prefetch);
    let ghost want = request_views(next@);
    let mut out: Vec<Step> = Vec::new();
    out.push(Step::Ask(asked));
    assert(step_views(out@) =~= seq![StepView::Ask(asked@)]);
    let mut k: usize = 0;
    while k < next.len()
        invariant
            0 <= k <= next@.len(),
            want == request_views(next@),
            step_views(out@) =~= seq![StepView::Ask(asked@)] + Seq::new(
                k as nat,
                |j: int| StepView::Prefetch(want[j]),
            ),
        decreases next@.len() - k,
    {
        let step = Step::Prefetch(copy_request(&next[k]));
        assert(step@ == StepView::Prefetch(want[k as int]));
        let ghost before = out@;
        out.push(step);
        assert(step_views(out@) =~= step_views(before).push(step@));
        k = k + 1;
    }
    let ghost before = out@;
    out.push(Step::Wait);
    proof {
        assert(step_views(out@) =~= step_views(before).push(StepView::Wait));
        assert(want.len() == next@.len());
        assert(step_views(out@) =~= steps_of(asked@, want));
    }
    Ok(out)
}

/// The worker is asked for the clip that is waited for before everything else, and the
/// wait comes after everything else.
pub proof fn law_real_request_comes_first(r: RequestView, next: Seq<RequestView>, k: int)
    requires
        0 <= k < steps_of(r, next).len(),
    ensures
        steps_of(r, next)[k] is Ask <==> k == 0,
        steps_of(r, next)[k] is Wait <==> k == steps_of(r, next).len() - 1,
        steps_of(r, next)[0] == StepView::Ask(r),
{
}

// ------------------------------------------------------------------------------ listing

/// A chunk as it is listed. The clip is there only if it is ready.
#[derive(Debug)]
pub struct ChunkInfo {
    pub idx: usize,
    pub offset: usize,
    pub text: String,
    pub key: String,
    pub clip: Option<ClipMeta>,
}

/// Of a list that says which clips are ready, the places of those that are not.
pub open spec fn missing(ready: Seq<bool>) -> Seq<int>
    decreases ready.len(),
{
    if ready.len() == 0 {
        Seq::empty()
    } else if ready.last() {
        missing(ready.drop_last())
    } else {
        missing(ready.drop_last()).push(ready.len() - 1)
    }
}

/// The places `v`.
pub open spec fn places(v: Seq<usize>) -> Seq<int> {
    Seq::new(v.len(), |i: int| v[i] as int)
}

/// The chunks to make ahead of time when a paragraph is listed: the first `prefetch`
/// that are not ready.
pub fn to_prefetch(ready: &[bool], prefetch: usize) -> (r: Vec<usize>)
    ensures
        places(r@) == first_of(missing(ready@), prefetch as int),
        forall|k: int| 0 <= k < r@.len() ==> (#[trigger] r@[k]) < ready@.len(),
{
    let mut out: Vec<usize> = Vec::new();
    let mut i: usize = 0;
    while i < ready.len()
        invariant
            0 <= i <= ready@.len(),
            out@.len() <= prefetch,
            places(out@) =~= first_of(missing(ready@.take(i as int)), prefetch as int),
            forall|k: int| 0 <= k < out@.len() ==> (#[trigger] out@[k]) < i,
        decreases ready@.len() - i,
    {
        assert(ready@.take(i + 1).drop_last() =~= ready@.take(i as int));
        if !ready[i] && out.len() < prefetch {
            let ghost before = out@;
            out.push(i);
            assert(places(out@) =~= places(before).push(i as int));
        }
        i = i + 1;
    }
    assert(ready@.take(i as int) =~= ready@);
    out
}

/// Whether `info` lists the chunk `c` with the clip `clip`.
pub open spec fn lists(info: ChunkInfo, c: Chunk, key: Seq<char>, clip: Option<Clip>) -> bool {
    &&& info.idx == c.idx
    &&& info.offset == c.offset
    &&& info.text@ == c.text@
    &&& info.key@ == key
    &&& match clip {
        Some(x) => info.clip matches Some(m) && shows(m, x),
        None => info.clip is None,
    }
}

/// The chunk `c` as it is listed, with the clip that is ready for it, if one is.
pub fn chunk_info(c: &Chunk, key: &str, clip: Option<Clip>) -> (r: ChunkInfo)
    ensures
        lists(r, *c, key@, clip),
{
    let shown: Option<ClipMeta> = match clip {
        Some(x) => Some(meta(x)),
        None => None,
    };
    ChunkInfo {
        idx: c.idx,
        offset: c.offset,
        text: c.text.clone(),
        key: key.to_owned(),
        clip: shown,
    }
}

} // verus!
