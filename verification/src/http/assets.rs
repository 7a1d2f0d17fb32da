//! The files of the web page.

use crate::hash::{hex_of, hex_text};
use crate::text::edit::{replace, replace_all};
use crate::text::utf8::{decode_lossy, lossy};
use crate::text::{chars_of, push_chars, same_text, string_of};
use vstd::prelude::*;
use vstd::utf8::encode_utf8;

verus! {

/// The file that is served at `path`.
pub open spec fn asset_at(path: Seq<char>) -> Option<Seq<char>> {
    if path == "/"@ {
        Some("index.html"@)
    } else if path == "/app.js"@ {
        Some("app.js"@)
    } else if path == "/style.css"@ {
        Some("style.css"@)
    } else if path == "/sw.js"@ {
        Some("sw.js"@)
    } else if path == "/manifest.webmanifest"@ {
        Some("manifest.webmanifest"@)
    } else if path == "/icon.svg"@ {
        Some("icon.svg"@)
    } else {
        None
    }
}

/// The file that is served at `path`.
pub fn asset_for(path: &str) -> (r: Option<&'static str>)
    ensures
        r is Some <==> asset_at(path@) is Some,
        r matches Some(f) ==> asset_at(path@) == Some(f@),
{
    if same_text(path, "/") {
        Some("index.html")
    } else if same_text(path, "/app.js") {
        Some("app.js")
    } else if same_text(path, "/style.css") {
        Some("style.css")
    } else if same_text(path, "/sw.js") {
        Some("sw.js")
    } else if same_text(path, "/manifest.webmanifest") {
        Some("manifest.webmanifest")
    } else if same_text(path, "/icon.svg") {
        Some("icon.svg")
    } else {
        None
    }
}

/// The media type that `mime_guess` has for a file of this name.
pub uninterp spec fn media_type(path: Seq<char>) -> Seq<char>;

/// `mime_guess::from_path` and `MimeGuess::first_or_octet_stream`: the media type for
/// the extension of `path`.
#[verifier::external_body]
fn guess_media_type(path: &str) -> (r: String)
    ensures
        r@ == media_type(path@),
{
    mime_guess::from_path(path).first_or_octet_stream().as_ref().to_string()
}

/// A file as it is sent.
#[derive(Debug)]
pub struct Served {
    /// The names and the values of the headers, in order.
    pub headers: Vec<(String, String)>,
    pub body: Vec<u8>,
}

/// The headers of the file `path` of this media type. The service worker has to be
/// allowed to control everything, and nothing may be kept without asking.
pub open spec fn headers_of(path: Seq<char>, media: Seq<char>) -> Seq<(Seq<char>, Seq<char>)> {
    let first = seq![("content-type"@, media)];
    let second = if path == "sw.js"@ {
        first.push(("service-worker-allowed"@, "/"@))
    } else {
        first
    };
    second.push(("cache-control"@, "no-cache"@))
}

/// `html` with a version behind each mention of the file `name`.
pub open spec fn versioned(html: Seq<char>, name: Seq<char>, version: Seq<char>) -> Seq<char> {
    replace(
        html,
        seq!['/'] + name + seq!['"'],
        seq!['/'] + name + "?v="@ + version + seq!['"'],
    )
}

/// The page `html`, which names its files with their versions.
pub open spec fn page_of(
    html: Seq<char>,
    app_version: Seq<char>,
    style_version: Seq<char>,
) -> Seq<char> {
    versioned(versioned(html, "app.js"@, app_version), "style.css"@, style_version)
}

/// The body of the file `path` with these contents. The page names its files with their
/// versions, so that an old one is not taken for the new one.
pub open spec fn body_of(
    path: Seq<char>,
    data: Seq<u8>,
    app_version: Seq<char>,
    style_version: Seq<char>,
) -> Seq<u8> {
    if path == "index.html"@ {
        encode_utf8(page_of(lossy(data), app_version, style_version))
    } else {
        data
    }
}

/// Puts a version behind each mention of the file `name`.
fn add_version(html: &[char], name: &str, version: &str) -> (r: Vec<char>)
    ensures
        r@ == versioned(html@, name@, version@),
{
    let mut pat: Vec<char> = Vec::new();
    pat.push('/');
    push_chars(&mut pat, chars_of(name).as_slice());
    pat.push('"');
    let mut with: Vec<char> = Vec::new();
    with.push('/');
    push_chars(&mut with, chars_of(name).as_slice());
    push_chars(&mut with, chars_of("?v=").as_slice());
    push_chars(&mut with, chars_of(version).as_slice());
    with.push('"');
    assert(pat@ =~= seq!['/'] + name@ + seq!['"']);
    assert(with@ =~= seq!['/'] + name@ + "?v="@ + version@ + seq!['"']);
    replace_all(html, pat.as_slice(), with.as_slice())
}

/// The headers of the file `path` of this media type.
pub fn headers(path: &str, media: String) -> (r: Vec<(String, String)>)
    ensures
        crate::extract::xml::pairs_view(r@) == headers_of(path@, media@),
{
    let mut out: Vec<(String, String)> = Vec::new();
    let ghost m = media@;
    out.push(("content-type".to_owned(), media));
    if same_text(path, "sw.js") {
        out.push(("service-worker-allowed".to_owned(), "/".to_owned()));
    }
    out.push(("cache-control".to_owned(), "no-cache".to_owned()));
    assert(crate::extract::xml::pairs_view(out@) =~= headers_of(path@, m));
    out
}

/// Puts the versions of its files into the page `html`.
pub fn page(html: &str, app_version: &str, style_version: &str) -> (r: String)
    ensures
        r@ == page_of(html@, app_version@, style_version@),
{
    let a: Vec<char> = add_version(chars_of(html).as_slice(), "app.js", app_version);
    let b: Vec<char> = add_version(a.as_slice(), "style.css", style_version);
    string_of(b.as_slice())
}

/// The file `path` with these contents as it is sent.
pub fn serve(path: &str, data: &[u8], app_version: &str, style_version: &str) -> (r: Served)
    ensures
        crate::extract::xml::pairs_view(r.headers@) == headers_of(path@, media_type(path@)),
        r.body@ == body_of(path@, data@, app_version@, style_version@),
{
    let mut body: Vec<u8> = Vec::new();
    if same_text(path, "index.html") {
        let html: String = page(decode_lossy(data).as_str(), app_version, style_version);
        body.extend_from_slice(html.as_str().as_bytes());
        assert(body@ =~= body_of(path@, data@, app_version@, style_version@));
    } else {
        body.extend_from_slice(data);
        assert(body@ =~= data@);
    }
    Served { headers: headers(path, guess_media_type(path)), body }
}

/// The version of a file with this hash, or nothing where the file is missing: the first
/// four bytes of the hash in hexadecimal.
pub fn version(hash: Option<&[u8]>) -> (r: String)
    requires
        hash matches Some(h) ==> h@.len() >= 4,
    ensures
        r@ == match hash {
            Some(h) => hex_text(h@.take(4)),
            None => Seq::empty(),
        },
{
    match hash {
        Some(h) => {
            assert(h@.subrange(0, 4) =~= h@.take(4));
            hex_of(&h[0..4])
        },
        None => String::new(),
    }
}

} // verus!
