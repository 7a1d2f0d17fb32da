//! From a file to sections of paragraphs.

pub mod epub;
pub mod epub_laws;
pub mod html;
pub mod line_laws;
pub mod name_laws;
pub mod paragraphs;
pub mod paths;
pub mod pdf;
pub mod pdf_laws;

pub mod xml;

use crate::text::edit::{ascii_lowercase, lowercase};
use crate::text::{blank, chars_of, finishes_with, lemma_trim, push_chars, string_of, trimmed};
use paths::{file_name, file_stem, stem};
use vstd::prelude::*;

verus! {

// ------------------------------------------------------------------------------- types

/// A paragraph of a book.
#[derive(Debug, Clone, PartialEq, Eq)]
pub struct Paragraph {
    /// `h1` to `h6`, `p`, `li` or `blockquote`.
    pub kind: String,
    pub text: String,
}

/// A section of a book.
#[derive(Debug, Clone, Default, PartialEq, Eq)]
pub struct Section {
    pub title: String,
    pub paragraphs: Vec<Paragraph>,
}

/// What a file holds.
#[derive(Debug, Clone)]
pub struct Extracted {
    pub title: String,
    /// The language tag, or nothing where it is not known.
    pub lang: String,
    pub sections: Vec<Section>,
}

/// The contents of a [`Paragraph`].
#[verifier::ext_equal]
pub struct ParagraphView {
    pub kind: Seq<char>,
    pub text: Seq<char>,
}

/// The contents of a [`Section`].
#[verifier::ext_equal]
pub struct SectionView {
    pub title: Seq<char>,
    pub paragraphs: Seq<ParagraphView>,
}

/// The contents of an [`Extracted`].
#[verifier::ext_equal]
pub struct ExtractedView {
    pub title: Seq<char>,
    pub lang: Seq<char>,
    pub sections: Seq<SectionView>,
}

impl View for Paragraph {
    type V = ParagraphView;

    open spec fn view(&self) -> ParagraphView {
        ParagraphView { kind: self.kind@, text: self.text@ }
    }
}

/// The contents of a list of paragraphs.
pub open spec fn paragraphs_view(v: Seq<Paragraph>) -> Seq<ParagraphView> {
    Seq::new(v.len(), |i: int| v[i]@)
}

impl View for Section {
    type V = SectionView;

    open spec fn view(&self) -> SectionView {
        SectionView { title: self.title@, paragraphs: paragraphs_view(self.paragraphs@) }
    }
}

/// The contents of a list of sections.
pub open spec fn sections_view(v: Seq<Section>) -> Seq<SectionView> {
    Seq::new(v.len(), |i: int| v[i]@)
}

impl View for Extracted {
    type V = ExtractedView;

    open spec fn view(&self) -> ExtractedView {
        ExtractedView {
            title: self.title@,
            lang: self.lang@,
            sections: sections_view(self.sections@),
        }
    }
}

/// Why nothing could be extracted from a file. Where something outside found the fault,
/// what it says of it comes last.
#[derive(Debug)]
pub enum ExtractError {
    /// The file is no archive.
    NotArchive(String),
    /// The archive has nothing under this name.
    Missing(String, String),
    /// What the archive has under this name cannot be read as text.
    Unreadable(String, String),
    /// The list of packages is not XML.
    Container(String),
    /// The list of packages names none.
    NoRootfile,
    /// The package is not XML.
    Package(String),
    /// Nothing that the package lists holds text.
    NoText,
    /// The pages of a PDF could not be had, for this reason.
    Pages(String),
    /// There is no section.
    Empty,
}

/// The contents of an [`ExtractError`].
pub enum ExtractErrorView {
    NotArchive(Seq<char>),
    Missing(Seq<char>, Seq<char>),
    Unreadable(Seq<char>, Seq<char>),
    Container(Seq<char>),
    NoRootfile,
    Package(Seq<char>),
    NoText,
    Pages(Seq<char>),
    Empty,
}

impl View for ExtractError {
    type V = ExtractErrorView;

    open spec fn view(&self) -> ExtractErrorView {
        match self {
            ExtractError::NotArchive(c) => ExtractErrorView::NotArchive(c@),
            ExtractError::Missing(p, c) => ExtractErrorView::Missing(p@, c@),
            ExtractError::Unreadable(p, c) => ExtractErrorView::Unreadable(p@, c@),
            ExtractError::Container(c) => ExtractErrorView::Container(c@),
            ExtractError::NoRootfile => ExtractErrorView::NoRootfile,
            ExtractError::Package(c) => ExtractErrorView::Package(c@),
            ExtractError::NoText => ExtractErrorView::NoText,
            ExtractError::Pages(e) => ExtractErrorView::Pages(e@),
            ExtractError::Empty => ExtractErrorView::Empty,
        }
    }
}

/// The contents of what extracting gives.
pub open spec fn outcome_view(r: Result<Extracted, ExtractError>) -> Result<
    ExtractedView,
    ExtractErrorView,
> {
    match r {
        Ok(ex) => Ok(ex@),
        Err(e) => Err(e@),
    }
}

/// What the user is told of an error: what went wrong, and the cause behind a colon.
pub open spec fn error_text(e: ExtractErrorView) -> Seq<char> {
    match e {
        ExtractErrorView::NotArchive(c) => "abrindo zip do EPUB: "@ + c,
        ExtractErrorView::Missing(p, c) => p + " não existe no EPUB: "@ + c,
        ExtractErrorView::Unreadable(p, c) => "lendo "@ + p + ": "@ + c,
        ExtractErrorView::Container(c) => "container.xml: "@ + c,
        ExtractErrorView::NoRootfile => "container.xml sem rootfile"@,
        ExtractErrorView::Package(c) => "OPF: "@ + c,
        ExtractErrorView::NoText => "EPUB sem texto legível no spine"@,
        ExtractErrorView::Pages(e) => e,
        ExtractErrorView::Empty => "nenhum texto legível encontrado"@,
    }
}

/// Two texts, one behind the other.
fn both(a: &str, b: &str) -> (r: String)
    ensures
        r@ == a@ + b@,
{
    let mut out: Vec<char> = chars_of(a);
    push_chars(&mut out, chars_of(b).as_slice());
    string_of(out.as_slice())
}

impl ExtractError {
    /// What the user is told.
    pub fn message(&self) -> (r: String)
        ensures
            r@ == error_text(self@),
    {
        match self {
            ExtractError::NotArchive(c) => both("abrindo zip do EPUB: ", c.as_str()),
            ExtractError::Missing(p, c) => both(
                both(p.as_str(), " não existe no EPUB: ").as_str(),
                c.as_str(),
            ),
            ExtractError::Unreadable(p, c) => both(
                both(both("lendo ", p.as_str()).as_str(), ": ").as_str(),
                c.as_str(),
            ),
            ExtractError::Container(c) => both("container.xml: ", c.as_str()),
            ExtractError::NoRootfile => "container.xml sem rootfile".to_owned(),
            ExtractError::Package(c) => both("OPF: ", c.as_str()),
            ExtractError::NoText => "EPUB sem texto legível no spine".to_owned(),
            ExtractError::Pages(e) => e.clone(),
            ExtractError::Empty => "nenhum texto legível encontrado".to_owned(),
        }
    }
}

/// The tools that text is extracted from PDF with.
#[derive(Debug)]
pub struct ExtractOptions<'a> {
    /// Where `pdftotext` is, if it is used in place of the built-in reader.
    pub pdftotext: Option<&'a str>,
    /// `ebook-convert`, through which every PDF goes first.
    pub ebook_convert: &'a str,
    /// `epubcheck`, which the converted book has to pass, if it is there.
    pub epubcheck: Option<&'a str>,
}

// ------------------------------------------------------------------------------- kinds

/// The kinds of files that can be read.
#[derive(Debug, Clone, Copy, PartialEq, Eq, Structural)]
pub enum Kind {
    Pdf,
    Epub,
}

/// The name of a kind, which is also the extension of its files.
pub open spec fn kind_name(kind: Kind) -> Seq<char> {
    match kind {
        Kind::Pdf => "pdf"@,
        Kind::Epub => "epub"@,
    }
}

impl Kind {
    /// The name of the kind.
    pub fn as_str(self) -> (r: &'static str)
        ensures
            r@ == kind_name(self),
    {
        match self {
            Kind::Pdf => "pdf",
            Kind::Epub => "epub",
        }
    }
}

/// The kind of a file: by how it begins, and only then by its name.
pub open spec fn kind_of(filename: Seq<char>, bytes: Seq<u8>) -> Option<Kind> {
    if seq![0x25u8, 0x50, 0x44, 0x46].is_prefix_of(bytes) {
        Some(Kind::Pdf)
    } else if seq![0x50u8, 0x4b, 3, 4].is_prefix_of(bytes) {
        Some(Kind::Epub)
    } else if ".pdf"@.is_suffix_of(lowercase(filename)) {
        Some(Kind::Pdf)
    } else if ".epub"@.is_suffix_of(lowercase(filename)) {
        Some(Kind::Epub)
    } else {
        None
    }
}

/// Whether `bytes` begin with these four.
fn begins_with_bytes(bytes: &[u8], a: u8, b: u8, c: u8, d: u8) -> (r: bool)
    ensures
        r == seq![a, b, c, d].is_prefix_of(bytes@),
{
    let r: bool = bytes.len() >= 4 && bytes[0] == a && bytes[1] == b && bytes[2] == c && bytes[3]
        == d;
    proof {
        let four = seq![a, b, c, d];
        if r {
            assert(four =~= bytes@.subrange(0, 4));
        } else if four.is_prefix_of(bytes@) {
            let head = bytes@.subrange(0, 4);
            assert(head == four);
            assert(head[0] == bytes@[0] && head[1] == bytes@[1] && head[2] == bytes@[2] && head[3]
                == bytes@[3]);
        }
    }
    r
}

/// The kind of a file with this name and these contents.
pub fn detect_kind(filename: &str, bytes: &[u8]) -> (r: Option<Kind>)
    ensures
        r == kind_of(filename@, bytes@),
{
    if begins_with_bytes(bytes, 0x25, 0x50, 0x44, 0x46) {
        return Some(Kind::Pdf);
    }
    if begins_with_bytes(bytes, 0x50, 0x4b, 3, 4) {
        return Some(Kind::Epub);
    }
    let lower: Vec<char> = ascii_lowercase(chars_of(filename).as_slice());
    if finishes_with(lower.as_slice(), chars_of(".pdf").as_slice()) {
        Some(Kind::Pdf)
    } else if finishes_with(lower.as_slice(), chars_of(".epub").as_slice()) {
        Some(Kind::Epub)
    } else {
        None
    }
}

// -------------------------------------------------------------------------- extracting

/// The title of a file that does not say its own: its name without the extension.
pub open spec fn fallback_title(filename: Seq<char>) -> Seq<char> {
    match file_name(filename) {
        Some(name) => stem(name),
        None => "Sem título"@,
    }
}

/// What was extracted from a file, with a title in any case. Without a section there
/// is nothing.
pub open spec fn finished(filename: Seq<char>, ex: ExtractedView) -> Result<
    ExtractedView,
    ExtractErrorView,
> {
    if ex.sections.len() == 0 {
        Err(ExtractErrorView::Empty)
    } else if blank(ex.title) {
        Ok(ExtractedView { title: fallback_title(filename), ..ex })
    } else {
        Ok(ex)
    }
}

/// Gives what was extracted from a file a title, where it has none, and refuses it
/// where it has no section.
pub fn finish(filename: &str, ex: Extracted) -> (r: Result<Extracted, ExtractError>)
    ensures
        outcome_view(r) == finished(filename@, ex@),
{
    let Extracted { title, lang, sections } = ex;
    assert(sections_view(sections@).len() == sections@.len());
    if sections.len() == 0 {
        return Err(ExtractError::Empty);
    }
    proof {
        lemma_trim(title@);
    }
    if trimmed(chars_of(title.as_str()).as_slice()).len() > 0 {
        return Ok(Extracted { title, lang, sections });
    }
    let title: String = match file_stem(filename) {
        Some(s) => s,
        None => "Sem título".to_owned(),
    };
    Ok(Extracted { title, lang, sections })
}

/// What extracting gave, finished where it gave something.
pub open spec fn finished_outcome(
    filename: Seq<char>,
    r: Result<ExtractedView, ExtractErrorView>,
) -> Result<ExtractedView, ExtractErrorView> {
    match r {
        Ok(ex) => finished(filename, ex),
        Err(e) => Err(e),
    }
}

/// Extracts the text of a file of this kind, with this name and these contents. Of a
/// PDF it takes the EPUB that it was converted to, if it was, and where that is not
/// good, asks for the pages.
pub fn extract<F: FnOnce() -> Result<Vec<String>, String>>(
    kind: Kind,
    filename: &str,
    bytes: &[u8],
    converted: Option<&[u8]>,
    pages: F,
) -> (r: Result<Extracted, ExtractError>)
    requires
        pages.requires(()),
    ensures
        kind == Kind::Epub ==> outcome_view(r) == finished_outcome(filename@, epub::book(bytes@)),
        converted matches Some(b) ==> (kind == Kind::Pdf && epub::book(b@) is Ok ==> outcome_view(r)
            == finished_outcome(filename@, epub::book(b@))),
        kind == Kind::Pdf && pdf::converts(converted) ==> outcome_view(r) == finished_outcome(
            filename@,
            epub::book(converted->0@),
        ),
        kind == Kind::Pdf && !pdf::converts(converted) ==> exists|
            out: Result<Vec<String>, String>,
        | #[trigger]
            pages.ensures((), out) && outcome_view(r) == finished_outcome(
                filename@,
                pdf::paged_outcome(out),
            ),
{
    let got: Result<Extracted, ExtractError> = match kind {
        Kind::Epub => epub::extract(bytes),
        Kind::Pdf => pdf::extract(converted, pages),
    };
    match got {
        Ok(ex) => finish(filename, ex),
        Err(e) => Err(e),
    }
}

// ------------------------------------------------------------------------------- laws

/// Whether every section has a paragraph, and every paragraph has text.
pub open spec fn has_text(sections: Seq<SectionView>) -> bool {
    forall|i: int|
        0 <= i < sections.len() ==> {
            &&& (#[trigger] sections[i]).paragraphs.len() > 0
            &&& forall|j: int|
                0 <= j < sections[i].paragraphs.len() ==> (
                #[trigger] sections[i].paragraphs[j]).text.len() > 0
        }
}

/// The paragraphs of a document have text.
proof fn lemma_read_paragraphs(els: Seq<html::HtmlElementView>)
    ensures
        forall|j: int|
            0 <= j < epub::read_paragraphs(els).len() ==> (
            #[trigger] epub::read_paragraphs(els)[j]).text.len() > 0,
    decreases els.len(),
{
    if els.len() > 0 {
        lemma_read_paragraphs(els.drop_last());
        let all = epub::read_paragraphs(els);
        let init = epub::read_paragraphs(els.drop_last());
        assert forall|j: int| 0 <= j < all.len() implies (#[trigger] all[j]).text.len() > 0 by {
            if j < init.len() {
                assert(all[j] == init[j]);
            }
        }
    }
}

/// The sections of documents have text.
proof fn lemma_document_sections(docs: Seq<Option<epub::DocumentView>>)
    ensures
        has_text(epub::sections_of(docs)),
    decreases docs.len(),
{
    if docs.len() > 0 {
        lemma_document_sections(docs.drop_last());
        let all = epub::sections_of(docs);
        let init = epub::sections_of(docs.drop_last());
        assert forall|i: int| 0 <= i < all.len() implies {
            &&& (#[trigger] all[i]).paragraphs.len() > 0
            &&& forall|j: int|
                0 <= j < all[i].paragraphs.len() ==> (#[trigger] all[i].paragraphs[j]).text.len()
                    > 0
        } by {
            if i < init.len() {
                assert(all[i] == init[i]);
            } else {
                lemma_read_paragraphs(docs.last()->0.blocks);
            }
        }
    }
}

/// The sections of pages have text.
proof fn lemma_page_sections(pages: Seq<Seq<char>>, k: int)
    ensures
        has_text(pdf::page_sections(pages, k)),
    decreases k,
{
    if k > 0 {
        lemma_page_sections(pages, k - 1);
        let all = pdf::page_sections(pages, k);
        let init = pdf::page_sections(pages, k - 1);
        let ps = paragraphs::paragraphs(crate::text::edit::lines(pdf::clean_text(pages[k - 1])));
        assert forall|i: int| 0 <= i < all.len() implies {
            &&& (#[trigger] all[i]).paragraphs.len() > 0
            &&& forall|j: int|
                0 <= j < all[i].paragraphs.len() ==> (#[trigger] all[i].paragraphs[j]).text.len()
                    > 0
        } by {
            if i < init.len() {
                assert(all[i] == init[i]);
            } else {
                assert forall|j: int| 0 <= j < all[i].paragraphs.len() implies (
                #[trigger] all[i].paragraphs[j]).text.len() > 0 by {
                    paragraphs::law_paragraphs_are_tight(
                        crate::text::edit::lines(pdf::clean_text(pages[k - 1])),
                        j,
                    );
                    assert(all[i].paragraphs[j].text == ps[j]);
                }
            }
        }
    }
}

/// Whatever comes of a file has a section, every section has a paragraph, and every
/// paragraph has text: for an EPUB as for the pages of a PDF.
pub proof fn law_extracted_has_text(filename: Seq<char>, bytes: Seq<u8>, pages: Seq<Seq<char>>)
    ensures
        finished_outcome(filename, epub::book(bytes)) matches Ok(ex) ==> ex.sections.len() > 0
            && has_text(ex.sections),
        finished(filename, pdf::paged(pages)) matches Ok(ex) ==> ex.sections.len() > 0 && has_text(
            ex.sections,
        ),
{
    if let Ok(ex) = epub::book(bytes) {
        let container = epub::text_entry(bytes, "META-INF/container.xml"@)->Ok_0;
        let opf = epub::package_path(xml::xml_nodes(container)->Ok_0)->0;
        let nodes = xml::xml_nodes(epub::text_entry(bytes, opf)->Ok_0)->Ok_0;
        lemma_document_sections(epub::documents(bytes, epub::spine(opf, nodes)));
    }
    lemma_page_sections(pages, pages.len() as int);
}

} // verus!
