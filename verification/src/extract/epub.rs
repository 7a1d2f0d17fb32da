//! From an EPUB to one section for each item of its spine.
//!
//! An EPUB is an archive. One entry in it names the package, an XML document that
//! lists what the book is made of (the manifest) and in what order it is read (the
//! spine). What is read is XHTML, often not well-formed.

use crate::archive::{
    archive_entry, archive_fault, archive_source, archive_text_fault, open_archive, read_text,
};
use crate::extract::html::{
    elements_view, html_elements, is_tag, select_elements, HtmlElement, HtmlElementView,
};
use crate::extract::paragraphs::texts;
use crate::extract::paths::{
    folder, folder_of, normalize_path, percent_decode, plain_path, unescaped,
};
use crate::extract::xml::{
    attribute_of, find_node, node_from, nodes_view, parse_xml, xml_nodes, XmlNode, XmlNodeView,
};
use crate::extract::{
    outcome_view, paragraphs_view, sections_view, ExtractError, ExtractErrorView, Extracted,
    ExtractedView, Paragraph, ParagraphView, Section, SectionView,
};
use crate::text::edit::{
    ascii_lowercase, decimal, decimal_of, find, find_char, lowercase,
};
use crate::text::{
    chars_of, collapse, collapse_spaces, push_chars, same_text, string_of, trim, trimmed,
};
use std::io::Cursor;
use vstd::prelude::*;
use vstd::utf8::{decode_utf8, valid_utf8};
use zip::ZipArchive;

verus! {

// ----------------------------------------------------------------------------- package

/// The path of the package that a container names.
pub open spec fn package_path(nodes: Seq<XmlNodeView>) -> Option<Seq<char>> {
    match node_from(nodes, "rootfile"@, 0) {
        Some(n) => attribute_of(n, "full-path"@),
        None => None,
    }
}

/// The path of the package that a container with these nodes names: the first one.
pub fn opf_path(nodes: &[XmlNode]) -> (r: Option<String>)
    ensures
        r is Some <==> package_path(nodes_view(nodes@)) is Some,
        r matches Some(p) ==> package_path(nodes_view(nodes@)) == Some(p@),
{
    match find_node(nodes, "rootfile") {
        Some(n) => match n.attribute("full-path") {
            Some(p) => Some(p.to_owned()),
            None => None,
        },
        None => None,
    }
}

/// What a package says of itself under `name`.
pub open spec fn metadata(nodes: Seq<XmlNodeView>, name: Seq<char>) -> Seq<char> {
    match node_from(nodes, name, 0) {
        Some(n) => match n.text {
            Some(t) => collapse(t),
            None => Seq::empty(),
        },
        None => Seq::empty(),
    }
}

/// What a package with these nodes says of itself under `name`, with one space
/// between words.
pub fn meta_text(nodes: &[XmlNode], name: &str) -> (r: String)
    ensures
        r@ == metadata(nodes_view(nodes@), name@),
{
    match find_node(nodes, name) {
        Some(n) => match &n.text {
            Some(t) => string_of(collapse_spaces(chars_of(t.as_str()).as_slice()).as_slice()),
            None => String::new(),
        },
        None => String::new(),
    }
}

/// Where the manifest has the item `id`: of several the last. Items without an id or
/// without a place do not count.
pub open spec fn manifest_href(nodes: Seq<XmlNodeView>, id: Seq<char>) -> Option<Seq<char>>
    decreases nodes.len(),
{
    if nodes.len() == 0 {
        None
    } else {
        let n = nodes.last();
        if n.name == "item"@ && attribute_of(n, "id"@) == Some(id) && attribute_of(
            n,
            "href"@,
        ) is Some {
            attribute_of(n, "href"@)
        } else {
            manifest_href(nodes.drop_last(), id)
        }
    }
}

/// Where the manifest has the item `id`.
fn find_href<'a>(nodes: &'a [XmlNode], id: &str) -> (r: Option<&'a str>)
    ensures
        r is Some <==> manifest_href(nodes_view(nodes@), id@) is Some,
        r matches Some(h) ==> manifest_href(nodes_view(nodes@), id@) == Some(h@),
{
    let ghost all = nodes_view(nodes@);
    let mut k: usize = nodes.len();
    assert(all.take(k as int) =~= all);
    while k > 0
        invariant
            0 <= k <= nodes@.len(),
            all == nodes_view(nodes@),
            manifest_href(all.take(k as int), id@) == manifest_href(all, id@),
        decreases k,
    {
        let n: &'a XmlNode = &nodes[k - 1];
        assert(all.take(k as int).drop_last() =~= all.take(k - 1));
        assert(all.take(k as int).last() == n@);
        if same_text(n.name.as_str(), "item") {
            if let Some(its) = n.attribute("id") {
                if same_text(its, id) {
                    if let Some(href) = n.attribute("href") {
                        return Some(href);
                    }
                }
            }
        }
        k = k - 1;
    }
    None
}

/// The place of `href` in the archive, for a package in the folder `base`: what comes
/// behind `#` is no part of it.
pub open spec fn item_path(base: Seq<char>, href: Seq<char>) -> Seq<char> {
    plain_path(base + unescaped(href.take(find(href, '#', 0))))
}

/// The place that a node of the spine leads to.
pub open spec fn spine_path(
    base: Seq<char>,
    nodes: Seq<XmlNodeView>,
    n: XmlNodeView,
) -> Option<Seq<char>> {
    if n.name != "itemref"@ {
        None
    } else {
        match attribute_of(n, "idref"@) {
            Some(id) => match manifest_href(nodes, id) {
                Some(href) => Some(item_path(base, href)),
                None => None,
            },
            None => None,
        }
    }
}

/// The places that the spine leads to among the first `k` nodes, in order.
pub open spec fn spine_to(base: Seq<char>, nodes: Seq<XmlNodeView>, k: int) -> Seq<Seq<char>>
    decreases k,
{
    if k <= 0 {
        Seq::empty()
    } else {
        match spine_path(base, nodes, nodes[k - 1]) {
            Some(p) => spine_to(base, nodes, k - 1).push(p),
            None => spine_to(base, nodes, k - 1),
        }
    }
}

/// The places of what is read, in order, for a package at `opf` with these nodes.
pub open spec fn spine(opf: Seq<char>, nodes: Seq<XmlNodeView>) -> Seq<Seq<char>> {
    spine_to(folder(opf), nodes, nodes.len() as int)
}

/// The place of `href` in the archive.
fn item_at(base: &[char], href: &str) -> (r: String)
    ensures
        r@ == item_path(base@, href@),
{
    let cs: Vec<char> = chars_of(href);
    let e: usize = find_char(cs.as_slice(), '#', 0);
    assert(cs@.subrange(0, e as int) =~= cs@.take(e as int));
    let plain: String = percent_decode(string_of(&cs.as_slice()[0..e]).as_str());
    let mut full: Vec<char> = Vec::new();
    push_chars(&mut full, base);
    push_chars(&mut full, chars_of(plain.as_str()).as_slice());
    assert(full@ =~= base@ + unescaped(href@.take(find(href@, '#', 0))));
    normalize_path(string_of(full.as_slice()).as_str())
}

/// The places of what is read, in order, for a package at `opf` with these nodes.
pub fn spine_paths(opf: &str, nodes: &[XmlNode]) -> (r: Vec<String>)
    ensures
        crate::text::strs(r@) == spine(opf@, nodes_view(nodes@)),
{
    let base: Vec<char> = folder_of(chars_of(opf).as_slice());
    let ghost all = nodes_view(nodes@);
    let mut out: Vec<String> = Vec::new();
    let mut i: usize = 0;
    while i < nodes.len()
        invariant
            0 <= i <= nodes@.len(),
            all == nodes_view(nodes@),
            base@ == folder(opf@),
            crate::text::strs(out@) =~= spine_to(base@, all, i as int),
        decreases nodes@.len() - i,
    {
        let n: &XmlNode = &nodes[i];
        assert(all[i as int] == n@);
        if same_text(n.name.as_str(), "itemref") {
            if let Some(id) = n.attribute("idref") {
                if let Some(href) = find_href(nodes, id) {
                    let path: String = item_at(base.as_slice(), href);
                    proof {
                        crate::text::lemma_strs_push(out@, path);
                    }
                    out.push(path);
                }
            }
        }
        i = i + 1;
    }
    out
}

// ---------------------------------------------------------------------------- sections

/// The elements that are paragraphs.
pub open spec fn block_tags() -> Seq<Seq<char>> {
    seq!["h1"@, "h2"@, "h3"@, "h4"@, "h5"@, "h6"@, "p"@, "li"@, "blockquote"@]
}

/// What stands in these elements is not read.
pub open spec fn is_skipped(name: Seq<char>) -> bool {
    ||| name == "script"@
    ||| name == "style"@
    ||| name == "nav"@
    ||| name == "svg"@
    ||| name == "math"@
    ||| name == "figure"@
    ||| name == "table"@
}

/// Whether something around the element is not read.
pub open spec fn in_skipped(el: HtmlElementView) -> bool {
    exists|i: int|
        0 <= i < el.ancestors.len() && (#[trigger] el.ancestors[i] matches Some(a) && is_skipped(a))
}

/// Whether the element is a paragraph: it stands in nothing that is not read, holds no
/// other paragraph, and has text.
pub open spec fn is_read(el: HtmlElementView) -> bool {
    !in_skipped(el) && el.inside.len() == 0 && collapse(el.text).len() > 0
}

/// The paragraph that the element is.
pub open spec fn paragraph_of(el: HtmlElementView) -> ParagraphView {
    ParagraphView { kind: lowercase(el.name), text: collapse(el.text) }
}

/// The paragraphs among the elements, in order.
pub open spec fn read_paragraphs(els: Seq<HtmlElementView>) -> Seq<ParagraphView>
    decreases els.len(),
{
    if els.len() == 0 {
        Seq::empty()
    } else if is_read(els.last()) {
        read_paragraphs(els.drop_last()).push(paragraph_of(els.last()))
    } else {
        read_paragraphs(els.drop_last())
    }
}

/// The text of the first heading among the paragraphs, or nothing.
pub open spec fn heading(ps: Seq<ParagraphView>) -> Seq<char>
    decreases ps.len(),
{
    if ps.len() == 0 {
        Seq::empty()
    } else {
        let before = heading(ps.drop_last());
        if before.len() == 0 && ps.last().kind.len() > 0 && ps.last().kind[0] == 'h' {
            ps.last().text
        } else {
            before
        }
    }
}

/// The title of a section without a heading: the document's, or the section's number.
pub open spec fn other_title(titles: Seq<HtmlElementView>, ordinal: nat) -> Seq<char> {
    if titles.len() > 0 && trim(titles[0].text).len() > 0 {
        trim(titles[0].text)
    } else {
        "Seção "@ + decimal(ordinal)
    }
}

/// The section that a document with these paragraphs and titles is, unless there is
/// nothing to read in it.
pub open spec fn section_of(
    blocks: Seq<HtmlElementView>,
    titles: Seq<HtmlElementView>,
    ordinal: nat,
) -> Option<SectionView> {
    let ps = read_paragraphs(blocks);
    if ps.len() == 0 {
        None
    } else if heading(ps).len() > 0 {
        Some(SectionView { title: heading(ps), paragraphs: ps })
    } else {
        Some(SectionView { title: other_title(titles, ordinal), paragraphs: ps })
    }
}

/// Whether something around the element is not read.
fn has_skip_ancestor(el: &HtmlElement) -> (r: bool)
    ensures
        r == in_skipped(el@),
{
    let mut i: usize = 0;
    while i < el.ancestors.len()
        invariant
            0 <= i <= el.ancestors@.len(),
            forall|k: int|
                0 <= k < i ==> !(#[trigger] el@.ancestors[k] matches Some(a) && is_skipped(a)),
        decreases el.ancestors@.len() - i,
    {
        if let Some(a) = &el.ancestors[i] {
            let name: &str = a.as_str();
            let skipped: bool = same_text(name, "script") || same_text(name, "style") || same_text(
                name,
                "nav",
            ) || same_text(name, "svg") || same_text(name, "math") || same_text(name, "figure")
                || same_text(name, "table");
            if skipped {
                assert(el@.ancestors[i as int] == Some(a@));
                return true;
            }
        }
        i = i + 1;
    }
    false
}

/// The contents of an optional section.
pub open spec fn opt_section_view(s: Option<Section>) -> Option<SectionView> {
    match s {
        Some(s) => Some(s@),
        None => None,
    }
}

/// The section that a document with these paragraphs and titles is.
pub fn section_from_elements(blocks: &[HtmlElement], titles: &[HtmlElement], ordinal: u64) -> (r:
    Option<Section>)
    ensures
        opt_section_view(r) == section_of(
            elements_view(blocks@),
            elements_view(titles@),
            ordinal as nat,
        ),
{
    let ghost all = elements_view(blocks@);
    let mut ps: Vec<Paragraph> = Vec::new();
    let mut title: Vec<char> = Vec::new();
    let mut i: usize = 0;
    while i < blocks.len()
        invariant
            0 <= i <= blocks@.len(),
            all == elements_view(blocks@),
            paragraphs_view(ps@) =~= read_paragraphs(all.take(i as int)),
            title@ == heading(read_paragraphs(all.take(i as int))),
        decreases blocks@.len() - i,
    {
        let el: &HtmlElement = &blocks[i];
        proof {
            assert(all.take(i + 1).drop_last() =~= all.take(i as int));
            assert(all.take(i + 1).last() == el@);
            assert(el@.inside.len() == el.inside@.len());
        }
        if !has_skip_ancestor(el) && el.inside.len() == 0 {
            let text: Vec<char> = collapse_spaces(chars_of(el.text.as_str()).as_slice());
            if text.len() > 0 {
                let kind: Vec<char> = ascii_lowercase(chars_of(el.name.as_str()).as_slice());
                let p = Paragraph {
                    kind: string_of(kind.as_slice()),
                    text: string_of(text.as_slice()),
                };
                let ghost before = ps@;
                proof {
                    let grown = paragraphs_view(before).push(p@);
                    assert(p@ =~= paragraph_of(el@));
                    assert(grown.drop_last() =~= paragraphs_view(before));
                    assert(grown.last() == p@);
                }
                if title.len() == 0 && kind.len() > 0 && kind[0] == 'h' {
                    title = text;
                }
                ps.push(p);
                assert(paragraphs_view(ps@) =~= paragraphs_view(before).push(p@));
            }
        }
        i = i + 1;
    }
    assert(all.take(i as int) =~= all);
    assert(paragraphs_view(ps@).len() == ps@.len());
    if ps.len() == 0 {
        return None;
    }
    if title.len() == 0 {
        if titles.len() > 0 {
            assert(elements_view(titles@)[0] == titles@[0]@);
            let text: Vec<char> = chars_of(titles[0].text.as_str());
            push_chars(&mut title, trimmed(text.as_slice()));
        }
        if title.len() == 0 {
            title = chars_of("Seção ");
            push_chars(&mut title, decimal_of(ordinal).as_slice());
        }
    }
    Some(Section { title: string_of(title.as_slice()), paragraphs: ps })
}

/// A document of a book.
#[derive(Debug)]
pub struct Document {
    /// The elements that can be paragraphs.
    pub blocks: Vec<HtmlElement>,
    /// The elements that hold the title.
    pub titles: Vec<HtmlElement>,
}

/// What a [`Document`] holds.
#[verifier::ext_equal]
pub struct DocumentView {
    pub blocks: Seq<HtmlElementView>,
    pub titles: Seq<HtmlElementView>,
}

impl View for Document {
    type V = DocumentView;

    open spec fn view(&self) -> DocumentView {
        DocumentView { blocks: elements_view(self.blocks@), titles: elements_view(self.titles@) }
    }
}

/// The document that `html` is.
pub open spec fn document_of(html: Seq<char>) -> DocumentView {
    DocumentView {
        blocks: html_elements(html, block_tags()),
        titles: html_elements(html, seq!["title"@]),
    }
}

/// The document that `html` is.
fn read_document(html: &str) -> (r: Document)
    ensures
        r@ == document_of(html@),
{
    let tags: Vec<&str> = vec!["h1", "h2", "h3", "h4", "h5", "h6", "p", "li", "blockquote"];
    proof {
        reveal_strlit("h1");
        reveal_strlit("h2");
        reveal_strlit("h3");
        reveal_strlit("h4");
        reveal_strlit("h5");
        reveal_strlit("h6");
        reveal_strlit("p");
        reveal_strlit("li");
        reveal_strlit("blockquote");
        reveal_strlit("title");
        assert(texts(tags@) =~= block_tags());
        assert forall|i: int| 0 <= i < tags@.len() implies is_tag((#[trigger] tags@[i])@) by {
            assert(texts(tags@)[i] == tags@[i]@);
        }
    }
    let blocks: Vec<HtmlElement> = select_elements(html, tags.as_slice());
    let title_tag: Vec<&str> = vec!["title"];
    proof {
        assert(texts(title_tag@) =~= seq!["title"@]);
    }
    Document { blocks, titles: select_elements(html, title_tag.as_slice()) }
}

/// The section that the document `html` is.
pub open spec fn html_section(html: Seq<char>, ordinal: nat) -> Option<SectionView> {
    section_of(document_of(html).blocks, document_of(html).titles, ordinal)
}

/// The section that the document `html` is, unless there is nothing to read in it.
pub fn section_from_xhtml(html: &str, ordinal: u64) -> (r: Option<Section>)
    ensures
        opt_section_view(r) == html_section(html@, ordinal as nat),
{
    let d: Document = read_document(html);
    section_from_elements(d.blocks.as_slice(), d.titles.as_slice(), ordinal)
}

/// The sections that these documents are. One that cannot be read, or that holds nothing
/// to read, is passed over; sections are numbered without them.
pub open spec fn sections_of(docs: Seq<Option<DocumentView>>) -> Seq<SectionView>
    decreases docs.len(),
{
    if docs.len() == 0 {
        Seq::empty()
    } else {
        let before = sections_of(docs.drop_last());
        match docs.last() {
            Some(d) => match section_of(d.blocks, d.titles, before.len() + 1) {
                Some(s) => before.push(s),
                None => before,
            },
            None => before,
        }
    }
}

/// The book whose package has these nodes, and which is made of these documents.
pub open spec fn book_from(nodes: Seq<XmlNodeView>, docs: Seq<Option<DocumentView>>) -> Result<
    ExtractedView,
    ExtractErrorView,
> {
    if sections_of(docs).len() == 0 {
        Err(ExtractErrorView::NoText)
    } else {
        Ok(
            ExtractedView {
                title: metadata(nodes, "title"@),
                lang: metadata(nodes, "language"@),
                sections: sections_of(docs),
            },
        )
    }
}

/// The contents of a list of documents.
pub open spec fn documents_view(v: Seq<Option<Document>>) -> Seq<Option<DocumentView>> {
    Seq::new(
        v.len(),
        |i: int|
            match v[i] {
                Some(d) => Some(d@),
                None => None,
            },
    )
}

/// The book whose package has these nodes, and which is made of these documents in
/// order. `None` stands for one that cannot be read.
pub fn assemble_book(nodes: &[XmlNode], docs: &[Option<Document>]) -> (r: Result<
    Extracted,
    ExtractError,
>)
    ensures
        outcome_view(r) == book_from(nodes_view(nodes@), documents_view(docs@)),
{
    let ghost all = documents_view(docs@);
    let mut sections: Vec<Section> = Vec::new();
    let mut i: usize = 0;
    while i < docs.len()
        invariant
            0 <= i <= docs@.len(),
            all == documents_view(docs@),
            sections_view(sections@) =~= sections_of(all.take(i as int)),
            sections@.len() <= i,
        decreases docs@.len() - i,
    {
        proof {
            assert(all.take(i + 1).drop_last() =~= all.take(i as int));
            assert(all.take(i + 1).last() == all[i as int]);
        }
        let number: u64 = sections.len() as u64 + 1;
        if let Some(d) = &docs[i] {
            assert(all[i as int] == Some(d@));
            let s: Option<Section> = section_from_elements(
                d.blocks.as_slice(),
                d.titles.as_slice(),
                number,
            );
            if let Some(s) = s {
                let ghost before = sections@;
                sections.push(s);
                assert(sections_view(sections@) =~= sections_view(before).push(s@));
            }
        }
        i = i + 1;
    }
    assert(all.take(i as int) =~= all);
    assert(sections_view(sections@).len() == sections@.len());
    if sections.len() == 0 {
        return Err(ExtractError::NoText);
    }
    Ok(
        Extracted {
            title: meta_text(nodes, "title"),
            lang: meta_text(nodes, "language"),
            sections,
        },
    )
}

// ------------------------------------------------------------------------------- books

/// The text that the archive `bytes` has at `path`.
pub open spec fn text_entry(bytes: Seq<u8>, path: Seq<char>) -> Result<Seq<char>, ExtractErrorView> {
    match archive_entry(bytes, path) {
        Ok(Ok(data)) => if valid_utf8(data) {
            Ok(decode_utf8(data))
        } else {
            Err(ExtractErrorView::Unreadable(path, archive_text_fault(bytes, path)))
        },
        Ok(Err(_)) => Err(ExtractErrorView::Unreadable(path, archive_text_fault(bytes, path))),
        Err(e) => Err(ExtractErrorView::Missing(path, e)),
    }
}

/// The document that the archive `bytes` has at `path`, if it can be read.
pub open spec fn document_at(bytes: Seq<u8>, path: Seq<char>) -> Option<DocumentView> {
    match text_entry(bytes, path) {
        Ok(html) => Some(document_of(html)),
        Err(_) => None,
    }
}

/// The documents that the archive `bytes` has at these places.
pub open spec fn documents(bytes: Seq<u8>, paths: Seq<Seq<char>>) -> Seq<Option<DocumentView>> {
    Seq::new(paths.len(), |i: int| document_at(bytes, paths[i]))
}

/// The book in the archive `bytes` whose package is at `opf` and has these nodes.
pub open spec fn book_of(bytes: Seq<u8>, opf: Seq<char>, nodes: Seq<XmlNodeView>) -> Result<
    ExtractedView,
    ExtractErrorView,
> {
    book_from(nodes, documents(bytes, spine(opf, nodes)))
}

/// The book in the archive `bytes` whose package is at `opf`.
pub open spec fn package_book(bytes: Seq<u8>, opf: Seq<char>) -> Result<
    ExtractedView,
    ExtractErrorView,
> {
    match text_entry(bytes, opf) {
        Err(e) => Err(e),
        Ok(text) => match xml_nodes(text) {
            Err(e) => Err(ExtractErrorView::Package(e)),
            Ok(nodes) => book_of(bytes, opf, nodes),
        },
    }
}

/// The book that an EPUB with these bytes is.
pub open spec fn book(bytes: Seq<u8>) -> Result<ExtractedView, ExtractErrorView> {
    match archive_fault(bytes) {
        Some(e) => Err(ExtractErrorView::NotArchive(e)),
        None => match text_entry(bytes, "META-INF/container.xml"@) {
            Err(e) => Err(e),
            Ok(text) => match xml_nodes(text) {
                Err(e) => Err(ExtractErrorView::Container(e)),
                Ok(nodes) => match package_path(nodes) {
                    None => Err(ExtractErrorView::NoRootfile),
                    Some(opf) => package_book(bytes, opf),
                },
            },
        },
    }
}

/// The contents of what reading a text gives.
pub open spec fn text_view(r: Result<String, ExtractError>) -> Result<Seq<char>, ExtractErrorView> {
    match r {
        Ok(s) => Ok(s@),
        Err(e) => Err(e@),
    }
}

/// The text that the archive has at `path`.
fn read_string(zip: &mut ZipArchive<Cursor<&[u8]>>, path: &str) -> (r: Result<
    String,
    ExtractError,
>)
    ensures
        text_view(r) == text_entry(archive_source(*old(zip)), path@),
        archive_source(*final(zip)) == archive_source(*old(zip)),
{
    match read_text(zip, path) {
        Ok(Ok(s)) => Ok(s),
        Ok(Err(e)) => Err(ExtractError::Unreadable(path.to_owned(), e)),
        Err(e) => Err(ExtractError::Missing(path.to_owned(), e)),
    }
}

/// The book in the archive whose package is at `opf`.
fn read_package(zip: &mut ZipArchive<Cursor<&[u8]>>, opf: &str) -> (r: Result<
    Extracted,
    ExtractError,
>)
    ensures
        outcome_view(r) == package_book(archive_source(*old(zip)), opf@),
{
    let ghost bytes = archive_source(*zip);
    let text: String = match read_string(zip, opf) {
        Ok(s) => s,
        Err(e) => {
            return Err(e);
        },
    };
    let nodes: Vec<XmlNode> = match parse_xml(text.as_str()) {
        Ok(v) => v,
        Err(e) => {
            return Err(ExtractError::Package(e));
        },
    };
    let paths: Vec<String> = spine_paths(opf, nodes.as_slice());
    let ghost places = spine(opf@, nodes_view(nodes@));
    assert(crate::text::strs(paths@).len() == paths@.len());
    let mut docs: Vec<Option<Document>> = Vec::new();
    let mut i: usize = 0;
    while i < paths.len()
        invariant
            0 <= i <= paths@.len(),
            crate::text::strs(paths@) == places,
            places.len() == paths@.len(),
            archive_source(*zip) == bytes,
            documents_view(docs@) =~= documents(bytes, places).take(i as int),
        decreases paths@.len() - i,
    {
        assert(places[i as int] == paths@[i as int]@);
        let d: Option<Document> = match read_string(zip, paths[i].as_str()) {
            Ok(html) => Some(read_document(html.as_str())),
            Err(_) => None,
        };
        let ghost before = docs@;
        docs.push(d);
        assert(documents_view(docs@) =~= documents_view(before).push(
            documents_view(docs@).last(),
        ));
        i = i + 1;
    }
    assert(documents_view(docs@) =~= documents(bytes, places));
    assemble_book(nodes.as_slice(), docs.as_slice())
}

/// Extracts the book that an EPUB with these bytes is.
pub fn extract(bytes: &[u8]) -> (r: Result<Extracted, ExtractError>)
    ensures
        outcome_view(r) == book(bytes@),
{
    let mut zip: ZipArchive<Cursor<&[u8]>> = match open_archive(bytes) {
        Ok(a) => a,
        Err(e) => {
            return Err(ExtractError::NotArchive(e));
        },
    };
    let text: String = match read_string(&mut zip, "META-INF/container.xml") {
        Ok(s) => s,
        Err(e) => {
            return Err(e);
        },
    };
    let nodes: Vec<XmlNode> = match parse_xml(text.as_str()) {
        Ok(v) => v,
        Err(e) => {
            return Err(ExtractError::Container(e));
        },
    };
    match opf_path(nodes.as_slice()) {
        Some(opf) => read_package(&mut zip, opf.as_str()),
        None => Err(ExtractError::NoRootfile),
    }
}

} // verus!
