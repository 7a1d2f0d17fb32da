//! Books as they are uploaded and shown.

use crate::db;
use crate::extract::{detect_kind, error_text, kind_name, kind_of, ExtractError, Kind};
use crate::http::{
    error, found, is_error, ApiError, BAD_REQUEST, NOT_FOUND, UNPROCESSABLE_ENTITY,
    UNSUPPORTED_MEDIA_TYPE,
};
use crate::text::edit::{decimal, decimal_of};
use crate::text::{alphanumeric, chars_of, finishes_with, push_chars, same_text, string_of};
use vstd::prelude::*;

verus! {

// ------------------------------------------------------------------------------ showing

/// A book with its sections.
#[derive(Debug)]
pub struct BookDetail {
    pub book: db::Book,
    pub sections: Vec<db::Section>,
}

/// A section with its paragraphs.
#[derive(Debug)]
pub struct SectionDetail {
    pub id: i64,
    pub idx: i64,
    pub title: String,
    pub paragraphs: Vec<db::Paragraph>,
}

/// Where the reader is in a book.
#[derive(Debug, Clone, Copy, PartialEq, Eq, Structural)]
pub struct Position {
    pub section: i64,
    pub paragraph: i64,
}

/// The book that was looked up, if it is there.
pub fn known_book(book: Option<db::Book>) -> (r: Result<db::Book, ApiError>)
    ensures
        book matches Some(b) ==> r == Ok::<db::Book, ApiError>(b),
        book is None ==> (r matches Err(e) && is_error(e, NOT_FOUND, "livro não existe"@)),
{
    found(book, "livro não existe")
}

/// The section that was looked up, if it is there.
pub fn known_section(section: Option<db::Section>) -> (r: Result<db::Section, ApiError>)
    ensures
        section matches Some(s) ==> r == Ok::<db::Section, ApiError>(s),
        section is None ==> (r matches Err(e) && is_error(e, NOT_FOUND, "seção não existe"@)),
{
    found(section, "seção não existe")
}

/// The section with these paragraphs, as it is shown.
pub fn section_detail(section: db::Section, paragraphs: Vec<db::Paragraph>) -> (r: SectionDetail)
    ensures
        r == (SectionDetail {
            id: section.id,
            idx: section.idx,
            title: section.title,
            paragraphs,
        }),
{
    SectionDetail { id: section.id, idx: section.idx, title: section.title, paragraphs }
}

/// The file of the book that was deleted, if there was one.
pub fn deleted_file(path: Option<String>) -> (r: Result<String, ApiError>)
    ensures
        path matches Some(p) ==> r == Ok::<String, ApiError>(p),
        path is None ==> (r matches Err(e) && is_error(e, NOT_FOUND, "livro não existe"@)),
{
    found(path, "livro não existe")
}

// ---------------------------------------------------------------------------- uploading

/// What an upload has told so far.
#[derive(Debug)]
pub struct UploadForm {
    pub filename: String,
    pub bytes: Option<Vec<u8>>,
}

/// A file of a known kind.
#[derive(Debug)]
pub struct Upload {
    pub filename: String,
    pub bytes: Vec<u8>,
    pub kind: Kind,
}

impl UploadForm {
    /// Nothing was told yet. A file without a name goes by this one.
    pub fn new() -> (r: UploadForm)
        ensures
            r.filename@ == "livro"@,
            r.bytes is None,
    {
        UploadForm { filename: "livro".to_owned(), bytes: None }
    }

    /// Whether the field of this name is the file.
    pub fn wants(name: Option<&str>) -> (r: bool)
        ensures
            r == (name matches Some(n) && n@ == "file"@),
    {
        match name {
            Some(n) => same_text(n, "file"),
            None => false,
        }
    }

    /// A field of the form: of several files the last one counts, and other fields do
    /// not. A file without a name keeps the one that was told before.
    pub fn field(&mut self, name: Option<&str>, file_name: Option<&str>, data: Vec<u8>)
        ensures
            (name matches Some(n) && n@ == "file"@) ==> {
                &&& final(self).bytes == Some(data)
                &&& final(self).filename@ == match file_name {
                    Some(f) => f@,
                    None => old(self).filename@,
                }
            },
            !(name matches Some(n) && n@ == "file"@) ==> *final(self) == *old(self),
    {
        if UploadForm::wants(name) {
            if let Some(f) = file_name {
                self.filename = f.to_owned();
            }
            self.bytes = Some(data);
        }
    }

    /// The file that was uploaded, once the form is complete. A form without a file is
    /// refused, and so is a file of another kind.
    pub fn finish(self) -> (r: Result<Upload, ApiError>)
        ensures
            match self.bytes {
                None => r matches Err(e) && is_error(e, BAD_REQUEST, "campo `file` ausente"@),
                Some(bytes) => match kind_of(self.filename@, bytes@) {
                    None => r matches Err(e) && is_error(
                        e,
                        UNSUPPORTED_MEDIA_TYPE,
                        "só PDF ou EPUB"@,
                    ),
                    Some(kind) => r == Ok::<Upload, ApiError>(
                        Upload { filename: self.filename, bytes, kind },
                    ),
                },
            },
    {
        let UploadForm { filename, bytes } = self;
        match bytes {
            None => Err(error(BAD_REQUEST, "campo `file` ausente")),
            Some(bytes) => match detect_kind(filename.as_str(), bytes.as_slice()) {
                None => Err(error(UNSUPPORTED_MEDIA_TYPE, "só PDF ou EPUB")),
                Some(kind) => Ok(Upload { filename, bytes, kind }),
            },
        }
    }
}

/// The answer where nothing could be extracted from an upload.
pub fn unreadable(e: &ExtractError) -> (r: ApiError)
    ensures
        is_error(r, UNPROCESSABLE_ENTITY, error_text(e@)),
{
    ApiError(UNPROCESSABLE_ENTITY, e.message())
}

// ------------------------------------------------------------------------------ storing

/// How many characters of a name are kept.
pub const NAME_LEN: usize = 80;

/// Whether `c` may stand in the name of a stored file.
pub open spec fn is_safe(c: char) -> bool {
    alphanumeric(c) || c == '.' || c == '-' || c == '_'
}

/// The characters of `name` that may stand in the name of a stored file.
pub open spec fn safe_chars(name: Seq<char>) -> Seq<char> {
    name.filter(|c: char| is_safe(c))
}

/// The first characters of `name` that may stand in the name of a stored file.
pub open spec fn safe_name(name: Seq<char>) -> Seq<char> {
    let all = safe_chars(name);
    if all.len() <= NAME_LEN {
        all
    } else {
        all.take(NAME_LEN as int)
    }
}

/// `s` without `end` at its end, however often it stands there.
pub open spec fn without_end(s: Seq<char>, end: Seq<char>) -> Seq<char>
    decreases s.len(),
{
    if end.len() > 0 && end.is_suffix_of(s) {
        without_end(s.take(s.len() - end.len()), end)
    } else {
        s
    }
}

/// Where a file is stored, below the data directory: under the time of the upload in
/// seconds and what is safe of its name.
pub open spec fn stored_at(secs: nat, filename: Seq<char>, kind: Kind) -> Seq<char> {
    "books/"@ + decimal(secs) + "-"@ + without_end(
        without_end(safe_name(filename), ".pdf"@),
        ".epub"@,
    ) + "."@ + kind_name(kind)
}

/// What is safe of a name.
fn keep_safe(name: &str) -> (r: Vec<char>)
    ensures
        r@ == safe_name(name@),
{
    let cs: Vec<char> = chars_of(name);
    let mut out: Vec<char> = Vec::new();
    let mut i: usize = 0;
    while i < cs.len()
        invariant
            0 <= i <= cs@.len(),
            out@ =~= safe_name(cs@.take(i as int)),
        decreases cs@.len() - i,
    {
        proof {
            reveal(Seq::filter);
            assert(cs@.take(i + 1).drop_last() =~= cs@.take(i as int));
        }
        let c: char = cs[i];
        if c.is_alphanumeric() || c == '.' || c == '-' || c == '_' {
            if out.len() < NAME_LEN {
                out.push(c);
            }
        }
        i = i + 1;
    }
    assert(cs@.take(i as int) =~= cs@);
    out
}

/// `s` without `end` at its end, however often it stands there.
fn cut_end<'a>(s: &'a [char], end: &str) -> (r: &'a [char])
    requires
        end@.len() > 0,
    ensures
        r@ == without_end(s@, end@),
{
    let es: Vec<char> = chars_of(end);
    let mut t: &'a [char] = s;
    while finishes_with(t, es.as_slice())
        invariant
            es@ == end@,
            end@.len() > 0,
            without_end(t@, end@) == without_end(s@, end@),
        decreases t@.len(),
    {
        let n: usize = t.len() - es.len();
        assert(t@.subrange(0, n as int) =~= t@.take(n as int));
        t = &t[0..n];
    }
    t
}

/// Where a file with this name and of this kind is stored that was uploaded `secs`
/// seconds into the epoch.
pub fn stored_path(secs: u64, filename: &str, kind: Kind) -> (r: String)
    ensures
        r@ == stored_at(secs as nat, filename@, kind),
{
    proof {
        reveal_strlit(".pdf");
        reveal_strlit(".epub");
    }
    let safe: Vec<char> = keep_safe(filename);
    let bare: &[char] = cut_end(cut_end(safe.as_slice(), ".pdf"), ".epub");
    let mut out: Vec<char> = chars_of("books/");
    push_chars(&mut out, decimal_of(secs).as_slice());
    push_chars(&mut out, chars_of("-").as_slice());
    push_chars(&mut out, bare);
    push_chars(&mut out, chars_of(".").as_slice());
    push_chars(&mut out, chars_of(kind.as_str()).as_slice());
    string_of(out.as_slice())
}

/// What is cut at the end leaves the start.
proof fn lemma_without_end(s: Seq<char>, end: Seq<char>)
    ensures
        without_end(s, end).len() <= s.len(),
        without_end(s, end) == s.take(without_end(s, end).len() as int),
    decreases s.len(),
{
    if end.len() > 0 && end.is_suffix_of(s) {
        let t = s.take(s.len() - end.len());
        lemma_without_end(t, end);
        assert(t.take(without_end(t, end).len() as int) =~= s.take(
            without_end(t, end).len() as int,
        ));
    } else {
        assert(s.take(s.len() as int) =~= s);
    }
}

/// The name of a stored file holds nothing but what is safe, so that it names a file in
/// the directory of the books: no slash, whatever the upload was called. It is bounded,
/// too.
pub proof fn law_stored_name_is_safe(filename: Seq<char>)
    ensures
        ({
            let name = without_end(without_end(safe_name(filename), ".pdf"@), ".epub"@);
            &&& name.len() <= NAME_LEN
            &&& forall|i: int|
                0 <= i < name.len() ==> is_safe(#[trigger] name[i]) && name[i] != '/'
        }),
{
    let safe = safe_name(filename);
    let p = |c: char| is_safe(c);
    assert forall|i: int| 0 <= i < safe.len() implies is_safe(#[trigger] safe[i]) by {
        filename.lemma_filter_pred(p, i);
        assert(safe[i] == safe_chars(filename)[i]);
    }
    lemma_without_end(safe, ".pdf"@);
    let once = without_end(safe, ".pdf"@);
    lemma_without_end(once, ".epub"@);
    let name = without_end(once, ".epub"@);
    assert forall|i: int| 0 <= i < name.len() implies is_safe(#[trigger] name[i]) && name[i]
        != '/' by {
        assert(name[i] == once[i]);
        assert(once[i] == safe[i]);
    }
}

} // verus!
