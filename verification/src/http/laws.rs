//! What holds of the answers of the server.

use super::assets::{asset_at, page_of, versioned};
use super::books::{is_safe, safe_chars, safe_name, stored_at, without_end};
use super::clips::{
    chosen_lang, chosen_voice, first_of, made_ahead, missing, request_views, requests_for,
    requests_of_texts, ClipPlan, RequestView,
};
use crate::extract::Kind;
use crate::text::alphanumeric;
use crate::text::edit::{decimal, lowercase, replace};
use crate::text::laws::law_replacing_puts_in;
use crate::tts::chunk::chunks;
use crate::tts::phonemize::{book_lang_of, Lang};
use crate::tts::VoiceDefaults;
use vstd::prelude::*;

verus! {

// -------------------------------------------------------------------------------- voices

/// A book is read in Portuguese where its language tag begins with `pt`, in capitals or
/// not, and in English otherwise.
pub proof fn law_books_are_read_in_their_language(tag: Seq<char>)
    ensures
        book_lang_of(tag) == Lang::PtBr <==> {
            &&& tag.len() >= 2
            &&& tag[0] == 'p' || tag[0] == 'P'
            &&& tag[1] == 't' || tag[1] == 'T'
        },
{
    reveal_strlit("pt");
    let s = lowercase(tag);
    if "pt"@.is_prefix_of(s) {
        assert(s.subrange(0, 2)[0] == 'p' && s.subrange(0, 2)[1] == 't');
    }
    if tag.len() >= 2 && (tag[0] == 'p' || tag[0] == 'P') && (tag[1] == 't' || tag[1] == 'T') {
        assert(s[0] == 'p' && s[1] == 't');
        assert(s.subrange(0, 2) =~= "pt"@);
    }
}

/// A voice that is asked for is used, and otherwise the default for the book's language.
/// A voice whose name begins with `a` or `b` speaks English and one with `p` Portuguese,
/// whatever the book is in; another one speaks the language of the book.
pub proof fn law_voices_speak_their_language(
    defaults: VoiceDefaults,
    tag: Seq<char>,
    voice: Seq<char>,
)
    requires
        voice.len() > 0,
    ensures
        chosen_voice(defaults, tag, Some(voice)) == voice,
        book_lang_of(tag) == Lang::PtBr ==> chosen_voice(defaults, tag, None) == defaults.pt@,
        book_lang_of(tag) == Lang::EnUs ==> chosen_voice(defaults, tag, None) == defaults.en@,
        chosen_voice(defaults, tag, Some(Seq::empty())) == chosen_voice(defaults, tag, None),
        voice[0] == 'a' || voice[0] == 'b' ==> chosen_lang(tag, voice) == Lang::EnUs,
        voice[0] == 'p' ==> chosen_lang(tag, voice) == Lang::PtBr,
        voice[0] != 'a' && voice[0] != 'b' && voice[0] != 'p' ==> chosen_lang(tag, voice)
            == book_lang_of(tag),
{
}

// --------------------------------------------------------------------------------- ahead

/// What is not ready, in order.
proof fn lemma_missing(ready: Seq<bool>)
    ensures
        forall|k: int|
            0 <= k < missing(ready).len() ==> 0 <= #[trigger] missing(ready)[k] < ready.len()
                && !ready[missing(ready)[k]],
        forall|k: int, l: int|
            0 <= k < l < missing(ready).len() ==> #[trigger] missing(ready)[k]
                < #[trigger] missing(ready)[l],
        forall|i: int| 0 <= i < ready.len() && !#[trigger] ready[i] ==> missing(ready).contains(i),
    decreases ready.len(),
{
    if ready.len() > 0 {
        let init = ready.drop_last();
        let n = ready.len() - 1;
        lemma_missing(init);
        let before = missing(init);
        let all = missing(ready);
        assert forall|k: int| 0 <= k < all.len() implies 0 <= #[trigger] all[k] < ready.len()
            && !ready[all[k]] by {
            if k < before.len() {
                assert(all[k] == before[k]);
                assert(init[before[k]] == ready[before[k]]);
            }
        }
        assert forall|k: int, l: int| 0 <= k < l < all.len() implies #[trigger] all[k]
            < #[trigger] all[l] by {
            assert(all[k] == before[k]);
            if l < before.len() {
                assert(all[l] == before[l]);
            }
        }
        assert forall|i: int| 0 <= i < ready.len() && !#[trigger] ready[i] implies all.contains(
            i,
        ) by {
            if i < n {
                assert(init[i] == ready[i]);
                let k = choose|k: int| 0 <= k < before.len() && before[k] == i;
                assert(all[k] == i);
            } else {
                assert(all[before.len() as int] == n);
            }
        }
    }
}

/// When a paragraph is listed, the first chunks that are not ready are made ahead of time,
/// in order: none that is ready, no more than `prefetch`, and none is passed over as long as
/// there is room.
pub proof fn law_the_first_missing_are_made(ready: Seq<bool>, prefetch: int)
    requires
        0 <= prefetch,
    ensures
        ({
            let r = first_of(missing(ready), prefetch);
            &&& r.len() <= prefetch
            &&& forall|k: int| 0 <= k < r.len() ==> 0 <= #[trigger] r[k] < ready.len() && !ready[r[k]]
            &&& forall|k: int, l: int| 0 <= k < l < r.len() ==> #[trigger] r[k] < #[trigger] r[l]
            &&& forall|i: int|
                0 <= i < ready.len() && !#[trigger] ready[i] ==> r.contains(i) || r.len()
                    == prefetch && forall|k: int| 0 <= k < r.len() ==> #[trigger] r[k] < i
        }),
{
    lemma_missing(ready);
    let all = missing(ready);
    let r = first_of(all, prefetch);
    assert forall|k: int| 0 <= k < r.len() implies #[trigger] r[k] == all[k] by {}
    assert forall|i: int| 0 <= i < ready.len() && !#[trigger] ready[i] implies r.contains(i)
        || r.len() == prefetch && forall|k: int| 0 <= k < r.len() ==> #[trigger] r[k] < i by {
        let j = choose|j: int| 0 <= j < all.len() && all[j] == i;
        if j < r.len() {
            assert(r[j] == i);
        } else {
            assert forall|k: int| 0 <= k < r.len() implies #[trigger] r[k] < i by {
                assert(all[k] < all[j]);
            }
        }
    }
}

/// The requests for several paragraphs are those for each of them, in order.
pub proof fn law_paragraphs_follow_each_other(
    a: Seq<Seq<char>>,
    b: Seq<Seq<char>>,
    voice: Seq<char>,
    speed: Seq<char>,
    lang: Lang,
)
    ensures
        requests_of_texts(a + b, voice, speed, lang) == requests_of_texts(a, voice, speed, lang)
            + requests_of_texts(b, voice, speed, lang),
    decreases b.len(),
{
    if b.len() == 0 {
        assert(a + b =~= a);
        assert(requests_of_texts(a, voice, speed, lang) + requests_of_texts(b, voice, speed, lang)
            =~= requests_of_texts(a, voice, speed, lang));
    } else {
        law_paragraphs_follow_each_other(a, b.drop_last(), voice, speed, lang);
        assert((a + b).drop_last() =~= a + b.drop_last());
        assert((a + b).last() == b.last());
        assert(requests_of_texts(a + b, voice, speed, lang) =~= requests_of_texts(
            a,
            voice,
            speed,
            lang,
        ) + requests_of_texts(b, voice, speed, lang));
    }
}

/// What is made ahead of time goes on where the client is: first the rest of the paragraph,
/// chunk by chunk, and then the chunks of the paragraph that follows, in the same voice, at
/// the same speed and in the same language. There are no more than `prefetch` of them, and
/// fewer only where there is nothing left to make.
pub proof fn law_what_is_ahead_is_made(
    plan: ClipPlan,
    chunk: int,
    next: Seq<char>,
    speed: Seq<char>,
    prefetch: int,
    j: int,
)
    requires
        0 <= chunk < plan.requests@.len(),
        0 <= prefetch,
    ensures
        ({
            let made = made_ahead(plan, chunk, seq![next], speed, prefetch);
            let rest = plan.requests@.len() - chunk - 1;
            let total = rest + chunks(next).len();
            &&& made.len() == if total < prefetch {
                total
            } else {
                prefetch
            }
            &&& 0 <= j < rest && j < made.len() ==> made[j] == plan.requests@[chunk + 1 + j]@
            &&& rest <= j < made.len() ==> made[j] == (RequestView {
                text: chunks(next)[j - rest].text,
                voice: plan.voice@,
                speed,
                lang: plan.lang,
            })
        }),
{
    let one = seq![next];
    assert(one.drop_last() =~= Seq::empty());
    let none = requests_of_texts(one.drop_last(), plan.voice@, speed, plan.lang);
    assert(none =~= Seq::empty());
    let more = requests_for(chunks(next), plan.voice@, speed, plan.lang);
    assert(requests_of_texts(one, plan.voice@, speed, plan.lang) =~= more);
    let rest = request_views(plan.requests@).skip(chunk + 1);
    let all = rest + more;
    assert(made_ahead(plan, chunk, one, speed, prefetch) == first_of(all, prefetch));
}

// -------------------------------------------------------------------------------- assets

/// A file is served under its own name, and the page at the root; nothing else is served.
pub proof fn law_files_are_served_under_their_name(path: Seq<char>)
    ensures
        asset_at(path) matches Some(f) ==> path == "/"@ + f || path == "/"@ && f == "index.html"@,
        asset_at("/"@) == Some("index.html"@),
        asset_at("/"@ + "app.js"@) == Some("app.js"@),
        asset_at("/"@ + "style.css"@) == Some("style.css"@),
        asset_at("/"@ + "sw.js"@) == Some("sw.js"@),
        asset_at("/"@ + "manifest.webmanifest"@) == Some("manifest.webmanifest"@),
        asset_at("/"@ + "icon.svg"@) == Some("icon.svg"@),
{
    reveal_strlit("/");
    reveal_strlit("app.js");
    reveal_strlit("style.css");
    reveal_strlit("sw.js");
    reveal_strlit("manifest.webmanifest");
    reveal_strlit("icon.svg");
    reveal_strlit("/app.js");
    reveal_strlit("/style.css");
    reveal_strlit("/sw.js");
    reveal_strlit("/manifest.webmanifest");
    reveal_strlit("/icon.svg");
    assert("/app.js"@ =~= "/"@ + "app.js"@);
    assert("/style.css"@ =~= "/"@ + "style.css"@);
    assert("/sw.js"@ =~= "/"@ + "sw.js"@);
    assert("/manifest.webmanifest"@ =~= "/"@ + "manifest.webmanifest"@);
    assert("/icon.svg"@ =~= "/"@ + "icon.svg"@);
    let a = "/app.js"@;
    let b = "/style.css"@;
    let c = "/sw.js"@;
    let d = "/manifest.webmanifest"@;
    let e = "/icon.svg"@;
    assert(a.len() == 7 && b.len() == 10 && c.len() == 6 && d.len() == 21 && e.len() == 9);
    assert("/"@.len() == 1);
}

/// The page names each of its files with the file's version, so that an old one is not
/// taken for it: wherever `/` and the name stand in quotes, `?v=` and the version follow.
pub proof fn law_the_page_names_versions(
    a: Seq<char>,
    name: Seq<char>,
    b: Seq<char>,
    version: Seq<char>,
)
    requires
        !a.contains('/'),
    ensures
        versioned(a + seq!['/'] + name + seq!['"'] + b, name, version) == a + seq!['/'] + name
            + "?v="@ + version + seq!['"'] + versioned(b, name, version),
        versioned(a, name, version) == a,
{
    let pat = seq!['/'] + name + seq!['"'];
    let with = seq!['/'] + name + "?v="@ + version + seq!['"'];
    assert forall|k: int| 0 <= k < a.len() implies #[trigger] a[k] != pat[0] by {
        assert(a.contains(a[k]));
    }
    law_replacing_puts_in(a, pat, with, b);
    assert(a + pat + b =~= a + seq!['/'] + name + seq!['"'] + b);
    assert(a + with + replace(b, pat, with) =~= a + seq!['/'] + name + "?v="@ + version + seq!['"']
        + replace(b, pat, with));
}

/// The page names the script and the styles with their versions, each with its own.
pub proof fn law_the_page_has_both_versions(
    a: Seq<char>,
    b: Seq<char>,
    c: Seq<char>,
    app_version: Seq<char>,
    style_version: Seq<char>,
)
    requires
        !a.contains('/') && !b.contains('/') && !c.contains('/'),
        !app_version.contains('/'),
    ensures
        page_of(
            a + "/app.js\""@ + b + "/style.css\""@ + c,
            app_version,
            style_version,
        ) == a + "/app.js?v="@ + app_version + seq!['"'] + b + "/style.css?v="@ + style_version
            + seq!['"'] + c,
{
    reveal_strlit("/app.js\"");
    reveal_strlit("/style.css\"");
    reveal_strlit("/app.js?v=");
    reveal_strlit("/style.css?v=");
    reveal_strlit("app.js");
    reveal_strlit("style.css");
    reveal_strlit("?v=");
    let app = "/app.js\""@;
    let style = "/style.css\""@;
    assert(seq!['/'] + "app.js"@ + seq!['"'] =~= app);
    assert(seq!['/'] + "style.css"@ + seq!['"'] =~= style);
    let new_app = "/app.js?v="@ + app_version + seq!['"'];
    let new_style = "/style.css?v="@ + style_version + seq!['"'];
    assert(seq!['/'] + "app.js"@ + "?v="@ + app_version + seq!['"'] =~= new_app);
    assert(seq!['/'] + "style.css"@ + "?v="@ + style_version + seq!['"'] =~= new_style);
    let rest = b + style + c;
    assert(a + app + b + style + c =~= a + app + rest);
    lemma_slashless(a, app);
    law_replacing_puts_in(a, app, new_app, rest);
    lemma_other_file(b, c);
    let half = a + new_app + b + style + c;
    assert(a + new_app + rest =~= half);
    lemma_styles(a, b, c, app_version, new_style);
    assert(a + new_app + b + new_style + c =~= a + "/app.js?v="@ + app_version + seq!['"'] + b
        + "/style.css?v="@ + style_version + seq!['"'] + c);
}

/// What holds no slash holds no name of a file.
proof fn lemma_slashless(a: Seq<char>, pat: Seq<char>)
    requires
        !a.contains('/'),
        pat.len() > 0,
        pat[0] == '/',
    ensures
        forall|k: int| 0 <= k < a.len() ==> #[trigger] a[k] != pat[0],
{
    assert forall|k: int| 0 <= k < a.len() implies #[trigger] a[k] != pat[0] by {
        assert(a.contains(a[k]));
    }
}

/// Past a slash that does not begin what is looked for, the search goes on.
proof fn lemma_past_slash(a: Seq<char>, t: Seq<char>, pat: Seq<char>, with: Seq<char>)
    requires
        !a.contains('/'),
        pat.len() > 1,
        pat[0] == '/',
        t.len() > 1,
        t[1] != pat[1],
    ensures
        replace(a + t, pat, with) == a + seq![t[0]] + replace(t.skip(1), pat, with),
    decreases a.len(),
{
    let s = a + t;
    assert(!pat.is_prefix_of(s)) by {
        if pat.is_prefix_of(s) {
            let head = s.subrange(0, pat.len() as int);
            assert(head[0] == pat[0] && head[1] == pat[1]);
            if a.len() > 0 {
                assert(a.contains(a[0]));
                assert(s[0] == a[0]);
            } else {
                assert(s[1] == t[1]);
            }
        }
    }
    lemma_short(s, pat, with);
    if a.len() == 0 {
        assert(s.skip(1) =~= t.skip(1));
        assert(a + seq![t[0]] + replace(t.skip(1), pat, with) =~= seq![s[0]] + replace(
            s.skip(1),
            pat,
            with,
        ));
    } else {
        let rest = a.skip(1);
        assert(!rest.contains('/')) by {
            if rest.contains('/') {
                let k = choose|k: int| 0 <= k < rest.len() && rest[k] == '/';
                assert(a[k + 1] == '/');
            }
        }
        lemma_past_slash(rest, t, pat, with);
        assert(s.skip(1) =~= rest + t);
        assert(a + seq![t[0]] + replace(t.skip(1), pat, with) =~= seq![s[0]] + replace(
            s.skip(1),
            pat,
            with,
        ));
    }
}

/// A text that does not begin with what is looked for keeps its first character.
proof fn lemma_short(s: Seq<char>, pat: Seq<char>, with: Seq<char>)
    requires
        s.len() > 0,
        pat.len() > 0,
        !pat.is_prefix_of(s),
    ensures
        replace(s, pat, with) == seq![s[0]] + replace(s.skip(1), pat, with),
{
    if s.len() < pat.len() {
        assert(s =~= seq![s[0]] + s.skip(1));
    }
}

/// The name of the styles does not hold that of the script.
proof fn lemma_other_file(b: Seq<char>, c: Seq<char>)
    requires
        !b.contains('/') && !c.contains('/'),
    ensures
        forall|with: Seq<char>|
            #[trigger] replace(b + "/style.css\""@ + c, "/app.js\""@, with) == b + "/style.css\""@
                + c,
{
    reveal_strlit("/app.js\"");
    reveal_strlit("/style.css\"");
    let style = "/style.css\""@;
    let app = "/app.js\""@;
    assert forall|with: Seq<char>| #[trigger] replace(b + style + c, app, with) == b + style + c by {
        let t = style + c;
        assert(b + style + c =~= b + t);
        assert(t[0] == '/' && t[1] == 's');
        lemma_past_slash(b, t, app, with);
        let rest = t.skip(1);
        assert(!rest.contains('/')) by {
            if rest.contains('/') {
                let k = choose|k: int| 0 <= k < rest.len() && rest[k] == '/';
                if k >= style.len() - 1 {
                    assert(c[k + 1 - style.len()] == '/');
                } else {
                    assert(style[k + 1] == '/');
                }
            }
        }
        lemma_slashless(rest, app);
        law_replacing_puts_in(rest, app, with, Seq::empty());
        assert(b + seq![t[0]] + rest =~= b + t);
    }
}

/// The styles get their version behind the script that has its own.
proof fn lemma_styles(
    a: Seq<char>,
    b: Seq<char>,
    c: Seq<char>,
    app_version: Seq<char>,
    new_style: Seq<char>,
)
    requires
        !a.contains('/') && !b.contains('/') && !c.contains('/'),
        !app_version.contains('/'),
    ensures
        ({
            let new_app = "/app.js?v="@ + app_version + seq!['"'];
            replace(a + new_app + b + "/style.css\""@ + c, "/style.css\""@, new_style) == a
                + new_app + b + new_style + c
        }),
{
    reveal_strlit("/style.css\"");
    reveal_strlit("/app.js?v=");
    let style = "/style.css\""@;
    let first = "/app.js?v="@;
    let new_app = first + app_version + seq!['"'];
    let t = new_app + b + style + c;
    assert(a + new_app + b + style + c =~= a + t);
    assert(t[0] == '/' && t[1] == 'a');
    lemma_past_slash(a, t, style, new_style);
    let mid = new_app.skip(1) + b;
    assert(t.skip(1) =~= mid + style + c);
    assert(!mid.contains('/')) by {
        if mid.contains('/') {
            let k = choose|k: int| 0 <= k < mid.len() && mid[k] == '/';
            let n = new_app.len() as int - 1;
            if k >= n {
                assert(b[k - n] == '/');
            } else if k + 1 < first.len() {
                assert(first[k + 1] == '/');
            } else if k + 1 < first.len() + app_version.len() {
                assert(app_version[k + 1 - first.len()] == '/');
            }
        }
    }
    lemma_slashless(mid, style);
    law_replacing_puts_in(mid, style, new_style, c);
    lemma_slashless(c, style);
    law_replacing_puts_in(c, style, new_style, Seq::empty());
    assert(a + seq![t[0]] + (mid + new_style + c) =~= a + new_app + b + new_style + c);
}

// -------------------------------------------------------------------------------- storing

/// Whether `c` may stand in the name of a stored file: a letter, a digit, a dot, a hyphen or
/// an underscore.
pub open spec fn may_stay(c: char) -> bool {
    alphanumeric(c) || c == '.' || c == '-' || c == '_'
}

/// Characters that are safe all stay.
proof fn lemma_safe_all(s: Seq<char>)
    requires
        forall|i: int| 0 <= i < s.len() ==> may_stay(#[trigger] s[i]),
    ensures
        safe_chars(s) == s,
    decreases s.len(),
{
    reveal(Seq::filter);
    if s.len() > 0 {
        let init = s.drop_last();
        assert forall|i: int| 0 <= i < init.len() implies may_stay(#[trigger] init[i]) by {
            assert(init[i] == s[i]);
        }
        lemma_safe_all(init);
        assert(may_stay(s[s.len() - 1]));
        assert(s =~= init.push(s.last()));
    }
}

/// A name of at most 80 characters that are all safe is kept: the file is stored in `books`
/// under the time, the name without its extension, and the extension of its kind. What is
/// not safe is left out, wherever it stands.
pub proof fn law_safe_names_are_kept(
    secs: nat,
    name: Seq<char>,
    c: char,
    rest: Seq<char>,
)
    ensures
        (forall|i: int| 0 <= i < name.len() ==> may_stay(#[trigger] name[i])) && name.len() + 5
            <= 80 && !".pdf"@.is_suffix_of(name) && !".epub"@.is_suffix_of(name) ==> {
            &&& stored_at(secs, name + ".pdf"@, Kind::Pdf) == "books/"@ + decimal(secs) + "-"@
                + name + "."@ + "pdf"@
            &&& stored_at(secs, name + ".epub"@, Kind::Epub) == "books/"@ + decimal(secs) + "-"@
                + name + "."@ + "epub"@
        },
        !may_stay(c) ==> stored_at(secs, name + seq![c] + rest, Kind::Pdf) == stored_at(
            secs,
            name + rest,
            Kind::Pdf,
        ) && stored_at(secs, name + seq![c] + rest, Kind::Epub) == stored_at(
            secs,
            name + rest,
            Kind::Epub,
        ),
{
    reveal_strlit(".pdf");
    reveal_strlit(".epub");
    if (forall|i: int| 0 <= i < name.len() ==> may_stay(#[trigger] name[i])) && name.len() + 5
        <= 80 && !".pdf"@.is_suffix_of(name) && !".epub"@.is_suffix_of(name) {
        lemma_bare(name);
    }
    if !may_stay(c) {
        let f = |d: char| is_safe(d);
        Seq::filter_distributes_over_add(name + seq![c], rest, f);
        Seq::filter_distributes_over_add(name, seq![c], f);
        Seq::filter_distributes_over_add(name, rest, f);
        assert(seq![c].filter(f) =~= Seq::<char>::empty()) by {
            reveal_with_fuel(Seq::filter, 2);
        }
        assert(safe_chars(name + seq![c] + rest) =~= safe_chars(name + rest));
    }
}

/// A text ends with its last part.
proof fn lemma_suffix(a: Seq<char>, b: Seq<char>)
    ensures
        b.is_suffix_of(a + b),
{
    assert((a + b).subrange(a.len() as int, (a + b).len() as int) =~= b);
}

/// The extension is cut off, once.
proof fn lemma_bare(name: Seq<char>)
    requires
        forall|i: int| 0 <= i < name.len() ==> may_stay(#[trigger] name[i]),
        name.len() + 5 <= 80,
        !".pdf"@.is_suffix_of(name),
        !".epub"@.is_suffix_of(name),
    ensures
        without_end(without_end(safe_name(name + ".pdf"@), ".pdf"@), ".epub"@) == name,
        without_end(without_end(safe_name(name + ".epub"@), ".pdf"@), ".epub"@) == name,
{
    reveal_strlit(".pdf");
    reveal_strlit(".epub");
    let p = name + ".pdf"@;
    let e = name + ".epub"@;
    assert(".pdf"@.len() == 4 && ".epub"@.len() == 5);
    lemma_safe_all(p);
    lemma_safe_all(e);
    lemma_suffix(name, ".pdf"@);
    lemma_suffix(name, ".epub"@);
    assert(p.take(p.len() - 4) =~= name);
    assert(e.take(e.len() - 5) =~= name);
    assert(!".pdf"@.is_suffix_of(e)) by {
        if ".pdf"@.is_suffix_of(e) {
            assert(e.subrange(e.len() - 4, e.len() as int)[3] == ".pdf"@[3]);
            assert(e[e.len() - 1] == 'b');
        }
    }
    assert(without_end(name, ".pdf"@) == name);
    assert(without_end(name, ".epub"@) == name);
    assert(without_end(p, ".pdf"@) == name);
    assert(without_end(e, ".pdf"@) == e);
    assert(without_end(e, ".epub"@) == name);
}

} // verus!
