//! What of an EPUB is read, and in which order.

use super::epub::{
    book_from, heading, html_section, is_read, is_skipped, item_path, manifest_href,
    paragraph_of, read_paragraphs, section_of, sections_of, spine, spine_path, spine_to,
    DocumentView,
};
use super::html::{html_elements, HtmlElementView};
use super::paths::folder;
use super::xml::{attribute_of, node_from, XmlNodeView};
use super::{ParagraphView, SectionView};
use crate::text::edit::{decimal, lowercase};
use crate::text::{
    blank, collapse, is_whitespace, lemma_spans, lemma_trim, lemma_word_end, spans_from, trim,
    words,
};
use vstd::prelude::*;

verus! {

/// Whether `v` are places below `n`, in order.
pub open spec fn rising(v: Seq<int>, n: int) -> bool {
    &&& forall|k: int| 0 <= k < v.len() ==> 0 <= #[trigger] v[k] < n
    &&& forall|k: int, l: int| 0 <= k < l < v.len() ==> #[trigger] v[k] < #[trigger] v[l]
}

/// One place more.
proof fn lemma_rising_push(v: Seq<int>, n: int)
    requires
        rising(v, n),
        0 <= n,
    ensures
        rising(v, n + 1),
        rising(v.push(n), n + 1),
{
}

// ---------------------------------------------------------------------------- paragraphs

/// Whether what stands in an element of this name is left out: scripts, styles,
/// navigation, drawings, formulas, figures and tables.
pub open spec fn left_out(name: Seq<char>) -> bool {
    ||| name == "script"@
    ||| name == "style"@
    ||| name == "nav"@
    ||| name == "svg"@
    ||| name == "math"@
    ||| name == "figure"@
    ||| name == "table"@
}

/// Whether the element is there to be read: it holds more than white space, no other
/// element that can be a paragraph stands in it, and nothing around it is left out.
pub open spec fn to_be_read(el: HtmlElementView) -> bool {
    &&& !blank(el.text)
    &&& el.inside.len() == 0
    &&& forall|i: int|
        0 <= i < el.ancestors.len() ==> match #[trigger] el.ancestors[i] {
            Some(name) => !left_out(name),
            None => true,
        }
}

/// There are words from `i` on exactly where there is more than white space.
proof fn lemma_spans_blank(s: Seq<char>, i: int)
    requires
        0 <= i <= s.len(),
    ensures
        spans_from(s, i).len() == 0 <==> forall|k: int|
            i <= k < s.len() ==> is_whitespace(#[trigger] s[k]),
    decreases s.len() - i,
{
    if i < s.len() {
        if is_whitespace(s[i]) {
            lemma_spans_blank(s, i + 1);
        } else {
            lemma_word_end(s, i);
        }
    }
}

/// Nothing is left of a text exactly where it is blank.
pub proof fn lemma_collapse_blank(s: Seq<char>)
    ensures
        collapse(s).len() == 0 <==> blank(s),
{
    lemma_spans_blank(s, 0);
    lemma_spans(s, 0);
    let ws = words(s);
    if ws.len() > 0 {
        assert(ws.last() == ws[ws.len() - 1]);
        assert(ws[ws.len() - 1].len() > 0);
    }
}

/// What is read is what is there to be read.
proof fn lemma_is_read(el: HtmlElementView)
    ensures
        is_read(el) == to_be_read(el),
{
    lemma_collapse_blank(el.text);
    if to_be_read(el) {
        assert forall|i: int| 0 <= i < el.ancestors.len() implies !(#[trigger] el.ancestors[i]
            matches Some(a) && is_skipped(a)) by {}
    } else if is_read(el) {
        let i = choose|i: int|
            0 <= i < el.ancestors.len() && !(match #[trigger] el.ancestors[i] {
                Some(name) => !left_out(name),
                None => true,
            });
        assert(el.ancestors[i] matches Some(a) && is_skipped(a));
    }
}

/// Where the paragraphs come from.
proof fn lemma_read_from(els: Seq<HtmlElementView>) -> (from: Seq<int>)
    ensures
        from.len() == read_paragraphs(els).len(),
        rising(from, els.len() as int),
        forall|k: int|
            0 <= k < from.len() ==> to_be_read(els[#[trigger] from[k]]) && read_paragraphs(els)[k]
                == paragraph_of(els[from[k]]),
        forall|i: int|
            0 <= i < els.len() && to_be_read(#[trigger] els[i]) ==> from.contains(i),
    decreases els.len(),
{
    if els.len() == 0 {
        Seq::empty()
    } else {
        let init = els.drop_last();
        let n = els.len() - 1;
        let before = lemma_read_from(init);
        lemma_is_read(els.last());
        lemma_rising_push(before, n);
        let from = if is_read(els.last()) {
            before.push(n)
        } else {
            before
        };
        assert forall|k: int| 0 <= k < from.len() implies to_be_read(els[#[trigger] from[k]])
            && read_paragraphs(els)[k] == paragraph_of(els[from[k]]) by {
            if k < before.len() {
                assert(from[k] == before[k]);
                assert(init[before[k]] == els[before[k]]);
            }
        }
        assert forall|i: int| 0 <= i < els.len() && to_be_read(#[trigger] els[i]) implies
            from.contains(i) by {
            if i < n {
                assert(init[i] == els[i]);
                let k = choose|k: int| 0 <= k < before.len() && before[k] == i;
                assert(from[k] == i);
            } else {
                assert(from[before.len() as int] == n);
            }
        }
        from
    }
}

/// Nothing that is there to be read is lost, and nothing else is read: the section has one
/// paragraph for each element that is to be read, in document order, with the element's
/// name and its text; paragraph `k` is the element at place `from[k]`. There is no section
/// where there is nothing to be read.
pub proof fn law_what_is_to_be_read_is_read(
    blocks: Seq<HtmlElementView>,
    titles: Seq<HtmlElementView>,
    ordinal: nat,
) -> (from: Seq<int>)
    ensures
        rising(from, blocks.len() as int),
        forall|k: int| 0 <= k < from.len() ==> to_be_read(blocks[#[trigger] from[k]]),
        forall|i: int|
            0 <= i < blocks.len() && to_be_read(#[trigger] blocks[i]) ==> from.contains(i),
        match section_of(blocks, titles, ordinal) {
            None => from.len() == 0,
            Some(s) => {
                &&& from.len() > 0
                &&& s.paragraphs.len() == from.len()
                &&& forall|k: int|
                    0 <= k < from.len() ==> (#[trigger] s.paragraphs[k]).text == collapse(
                        blocks[from[k]].text,
                    ) && s.paragraphs[k].kind == lowercase(blocks[from[k]].name)
            },
        },
{
    let from = lemma_read_from(blocks);
    let ps = read_paragraphs(blocks);
    assert forall|k: int| 0 <= k < from.len() implies (#[trigger] ps[k]).text == collapse(
        blocks[from[k]].text,
    ) && ps[k].kind == lowercase(blocks[from[k]].name) by {
        assert(to_be_read(blocks[from[k]]));
    }
    from
}

/// What is read of an HTML document are its headings, its paragraphs, its list items and
/// its quotations, those that are to be read, all of them and in order.
pub proof fn law_a_document_is_read(html: Seq<char>, ordinal: nat) -> (from: Seq<int>)
    ensures
        ({
            let blocks = html_elements(
                html,
                seq!["h1"@, "h2"@, "h3"@, "h4"@, "h5"@, "h6"@, "p"@, "li"@, "blockquote"@],
            );
            &&& rising(from, blocks.len() as int)
            &&& forall|k: int| 0 <= k < from.len() ==> to_be_read(blocks[#[trigger] from[k]])
            &&& forall|i: int|
                0 <= i < blocks.len() && to_be_read(#[trigger] blocks[i]) ==> from.contains(i)
            &&& match html_section(html, ordinal) {
                None => from.len() == 0,
                Some(s) => {
                    &&& from.len() > 0
                    &&& s.paragraphs.len() == from.len()
                    &&& forall|k: int|
                        0 <= k < from.len() ==> (#[trigger] s.paragraphs[k]).text == collapse(
                            blocks[from[k]].text,
                        ) && s.paragraphs[k].kind == lowercase(blocks[from[k]].name)
                },
            }
        }),
{
    let blocks = html_elements(
        html,
        seq!["h1"@, "h2"@, "h3"@, "h4"@, "h5"@, "h6"@, "p"@, "li"@, "blockquote"@],
    );
    law_what_is_to_be_read_is_read(blocks, html_elements(html, seq!["title"@]), ordinal)
}

// -------------------------------------------------------------------------------- titles

/// Whether the paragraph is a heading.
pub open spec fn is_heading(p: ParagraphView) -> bool {
    p.kind.len() > 0 && p.kind[0] == 'h'
}

/// The first heading among paragraphs that are not empty.
proof fn lemma_heading(ps: Seq<ParagraphView>)
    requires
        forall|k: int| 0 <= k < ps.len() ==> (#[trigger] ps[k]).text.len() > 0,
    ensures
        forall|k: int|
            0 <= k < ps.len() && is_heading(#[trigger] ps[k]) && (forall|j: int|
                0 <= j < k ==> !is_heading(#[trigger] ps[j])) ==> heading(ps) == ps[k].text,
        (forall|k: int| 0 <= k < ps.len() ==> !is_heading(#[trigger] ps[k])) ==> heading(ps).len()
            == 0,
        heading(ps).len() == 0 ==> forall|k: int|
            0 <= k < ps.len() ==> !is_heading(#[trigger] ps[k]),
    decreases ps.len(),
{
    if ps.len() > 0 {
        let init = ps.drop_last();
        let z = ps.last();
        assert(z == ps[ps.len() - 1]);
        assert(forall|k: int| 0 <= k < init.len() ==> #[trigger] init[k] == ps[k]);
        lemma_heading(init);
        assert forall|k: int|
            0 <= k < ps.len() && is_heading(#[trigger] ps[k]) && (forall|j: int|
                0 <= j < k ==> !is_heading(#[trigger] ps[j])) implies heading(ps)
            == ps[k].text by {
            if k < init.len() {
                assert(is_heading(init[k]));
                assert(heading(init) == init[k].text);
            }
        }
        if forall|k: int| 0 <= k < ps.len() ==> !is_heading(#[trigger] ps[k]) {
            assert(forall|k: int| 0 <= k < init.len() ==> !is_heading(#[trigger] init[k]));
        }
        if heading(ps).len() == 0 {
            assert forall|k: int| 0 <= k < ps.len() implies !is_heading(#[trigger] ps[k]) by {
                if k < init.len() {
                    assert(!is_heading(init[k]));
                }
            }
        }
    }
}

/// A section is called after its first heading. Without one it is called after the
/// document's title, without white space at the ends, and without that it has its number
/// for a name.
pub proof fn law_sections_are_called_after_their_heading(
    blocks: Seq<HtmlElementView>,
    titles: Seq<HtmlElementView>,
    ordinal: nat,
)
    ensures
        section_of(blocks, titles, ordinal) matches Some(s) ==> {
            &&& forall|k: int|
                0 <= k < s.paragraphs.len() && is_heading(#[trigger] s.paragraphs[k]) && (forall|
                    j: int,
                |
                    0 <= j < k ==> !is_heading(#[trigger] s.paragraphs[j])) ==> s.title
                    == s.paragraphs[k].text
            &&& (forall|k: int|
                0 <= k < s.paragraphs.len() ==> !is_heading(#[trigger] s.paragraphs[k]))
                ==> s.title == if titles.len() > 0 && !blank(titles[0].text) {
                trim(titles[0].text)
            } else {
                "Seção "@ + decimal(ordinal)
            }
        },
{
    let from = lemma_read_from(blocks);
    let ps = read_paragraphs(blocks);
    assert forall|k: int| 0 <= k < ps.len() implies (#[trigger] ps[k]).text.len() > 0 by {
        assert(to_be_read(blocks[from[k]]));
        lemma_collapse_blank(blocks[from[k]].text);
    }
    lemma_heading(ps);
    if titles.len() > 0 {
        lemma_trim(titles[0].text);
    }
    if let Some(s) = section_of(blocks, titles, ordinal) {
        assert(s.paragraphs == ps);
        assert forall|k: int|
            0 <= k < s.paragraphs.len() && is_heading(#[trigger] s.paragraphs[k]) && (forall|
                j: int,
            |
                0 <= j < k ==> !is_heading(#[trigger] s.paragraphs[j])) implies s.title
            == s.paragraphs[k].text by {
            assert(is_heading(ps[k]));
            assert(heading(ps) == ps[k].text);
        }
    }
}

// -------------------------------------------------------------------------------- books

/// The section that a document is as section number `n`, if it can be read.
pub open spec fn numbered(d: Option<DocumentView>, n: nat) -> Option<SectionView> {
    match d {
        Some(d) => section_of(d.blocks, d.titles, n),
        None => None,
    }
}

/// Whether there is something to be read in the document.
pub open spec fn has_text(d: Option<DocumentView>) -> bool {
    d matches Some(d) && exists|i: int|
        0 <= i < d.blocks.len() && to_be_read(#[trigger] d.blocks[i])
}

/// A document is a section exactly where there is something to be read in it.
proof fn lemma_has_text(d: Option<DocumentView>, n: nat)
    ensures
        numbered(d, n) is Some <==> has_text(d),
{
    if let Some(d) = d {
        let from = law_what_is_to_be_read_is_read(d.blocks, d.titles, n);
        if from.len() > 0 {
            assert(to_be_read(d.blocks[from[0]]));
        }
    }
}

/// The sections of a book are its documents, in order: those in which there is something
/// to be read, all of them and no other. They are numbered from one on; section `k` is the
/// document at place `from[k]`.
pub proof fn law_sections_follow_the_documents(docs: Seq<Option<DocumentView>>) -> (from: Seq<int>)
    ensures
        from.len() == sections_of(docs).len(),
        rising(from, docs.len() as int),
        forall|k: int|
            0 <= k < from.len() ==> has_text(docs[#[trigger] from[k]]) && numbered(
                docs[from[k]],
                (k + 1) as nat,
            ) == Some(sections_of(docs)[k]),
        forall|i: int| 0 <= i < docs.len() && has_text(#[trigger] docs[i]) ==> from.contains(i),
    decreases docs.len(),
{
    if docs.len() == 0 {
        Seq::empty()
    } else {
        let init = docs.drop_last();
        let n = docs.len() - 1;
        let before = law_sections_follow_the_documents(init);
        let sections = sections_of(init);
        lemma_has_text(docs.last(), sections.len() + 1);
        lemma_rising_push(before, n);
        let from = if has_text(docs.last()) {
            before.push(n)
        } else {
            before
        };
        assert forall|k: int| 0 <= k < from.len() implies has_text(docs[#[trigger] from[k]])
            && numbered(docs[from[k]], (k + 1) as nat) == Some(sections_of(docs)[k]) by {
            if k < before.len() {
                assert(from[k] == before[k]);
                assert(init[before[k]] == docs[before[k]]);
            }
        }
        assert forall|i: int| 0 <= i < docs.len() && has_text(#[trigger] docs[i]) implies
            from.contains(i) by {
            if i < n {
                assert(init[i] == docs[i]);
                let k = choose|k: int| 0 <= k < before.len() && before[k] == i;
                assert(from[k] == i);
            } else {
                assert(from[before.len() as int] == n);
            }
        }
        from
    }
}

/// A book is refused exactly where there is nothing to be read in any of its documents.
pub proof fn law_a_book_has_text(nodes: Seq<XmlNodeView>, docs: Seq<Option<DocumentView>>)
    ensures
        match book_from(nodes, docs) {
            Ok(b) => b.sections == sections_of(docs) && exists|i: int|
                0 <= i < docs.len() && has_text(#[trigger] docs[i]),
            Err(e) => e is NoText && forall|i: int|
                0 <= i < docs.len() ==> !has_text(#[trigger] docs[i]),
        },
{
    let from = law_sections_follow_the_documents(docs);
    if from.len() > 0 {
        assert(has_text(docs[from[0]]));
    }
}

/// The first node of a name.
proof fn lemma_node_from(nodes: Seq<XmlNodeView>, name: Seq<char>, i: int)
    requires
        0 <= i <= nodes.len(),
    ensures
        forall|k: int|
            i <= k < nodes.len() && (#[trigger] nodes[k]).name == name && (forall|j: int|
                i <= j < k ==> (#[trigger] nodes[j]).name != name) ==> node_from(nodes, name, i)
                == Some(nodes[k]),
        (forall|k: int| i <= k < nodes.len() ==> (#[trigger] nodes[k]).name != name) ==> node_from(
            nodes,
            name,
            i,
        ) is None,
    decreases nodes.len() - i,
{
    if i < nodes.len() && nodes[i].name != name {
        lemma_node_from(nodes, name, i + 1);
    }
}

/// The title and the language of a book are the text of the first `title` and the first
/// `language` of its package, with one space between words, and nothing where there is no
/// such text.
pub proof fn law_a_book_is_called_by_its_package(
    nodes: Seq<XmlNodeView>,
    docs: Seq<Option<DocumentView>>,
    t: int,
    l: int,
)
    requires
        0 <= t < nodes.len() && nodes[t].name == "title"@ && nodes[t].text is Some,
        forall|j: int| 0 <= j < t ==> (#[trigger] nodes[j]).name != "title"@,
        0 <= l < nodes.len() && nodes[l].name == "language"@ && nodes[l].text is Some,
        forall|j: int| 0 <= j < l ==> (#[trigger] nodes[j]).name != "language"@,
    ensures
        book_from(nodes, docs) matches Ok(b) ==> b.title == collapse(nodes[t].text->0) && b.lang
            == collapse(nodes[l].text->0),
{
    lemma_node_from(nodes, "title"@, 0);
    lemma_node_from(nodes, "language"@, 0);
}

// --------------------------------------------------------------------------------- spine

/// Whether the node at place `j` is what the manifest has for `id`: an item with this id
/// and a place, and the last one of this kind.
pub open spec fn stands_for(nodes: Seq<XmlNodeView>, id: Seq<char>, j: int) -> bool {
    &&& 0 <= j < nodes.len()
    &&& nodes[j].name == "item"@
    &&& attribute_of(nodes[j], "id"@) == Some(id)
    &&& attribute_of(nodes[j], "href"@) is Some
    &&& forall|m: int|
        j < m < nodes.len() && (#[trigger] nodes[m]).name == "item"@ && attribute_of(
            nodes[m],
            "id"@,
        ) == Some(id) ==> attribute_of(nodes[m], "href"@) is None
}

/// What the manifest has for `id` is the place of the last item.
proof fn lemma_manifest(nodes: Seq<XmlNodeView>, id: Seq<char>)
    ensures
        manifest_href(nodes, id) is None ==> forall|j: int| !#[trigger] stands_for(nodes, id, j),
        manifest_href(nodes, id) matches Some(h) ==> exists|j: int| #[trigger]
            stands_for(nodes, id, j) && attribute_of(nodes[j], "href"@) == Some(h),
    decreases nodes.len(),
{
    if nodes.len() > 0 {
        let init = nodes.drop_last();
        let n = nodes.len() - 1;
        let z = nodes.last();
        lemma_manifest(init, id);
        if z.name == "item"@ && attribute_of(z, "id"@) == Some(id) && attribute_of(
            z,
            "href"@,
        ) is Some {
            assert(stands_for(nodes, id, n));
        } else {
            assert forall|j: int| #[trigger] stands_for(nodes, id, j) == stands_for(init, id, j) by {
                if 0 <= j < n {
                    assert(init[j] == nodes[j]);
                    if stands_for(init, id, j) {
                        assert forall|m: int|
                            j < m < nodes.len() && (#[trigger] nodes[m]).name == "item"@
                                && attribute_of(nodes[m], "id"@) == Some(id) implies attribute_of(
                            nodes[m],
                            "href"@,
                        ) is None by {
                            if m < n {
                                assert(init[m] == nodes[m]);
                            }
                        }
                    }
                    if stands_for(nodes, id, j) {
                        assert forall|m: int|
                            j < m < init.len() && (#[trigger] init[m]).name == "item"@
                                && attribute_of(init[m], "id"@) == Some(id) implies attribute_of(
                            init[m],
                            "href"@,
                        ) is None by {
                            assert(init[m] == nodes[m]);
                        }
                    }
                }
            }
            if let Some(h) = manifest_href(init, id) {
                let j = choose|j: int| #[trigger] stands_for(init, id, j) && attribute_of(
                    init[j],
                    "href"@,
                ) == Some(h);
                assert(init[j] == nodes[j]);
                assert(stands_for(nodes, id, j));
            }
        }
    }
}

/// Whether the node names something that the manifest has.
pub open spec fn leads_on(nodes: Seq<XmlNodeView>, n: XmlNodeView) -> bool {
    n.name == "itemref"@ && exists|j: int|
        attribute_of(n, "idref"@) is Some && #[trigger] stands_for(
            nodes,
            attribute_of(n, "idref"@)->0,
            j,
        )
}

/// Whether `path` is where the node leads: the place of what it names, counted from the
/// folder `base`.
pub open spec fn leads_to(
    base: Seq<char>,
    nodes: Seq<XmlNodeView>,
    n: XmlNodeView,
    path: Seq<char>,
) -> bool {
    exists|j: int|
        #[trigger] stands_for(nodes, attribute_of(n, "idref"@)->0, j) && path == item_path(
            base,
            attribute_of(nodes[j], "href"@)->0,
        )
}

/// Where a node of the spine leads.
proof fn lemma_leads(base: Seq<char>, nodes: Seq<XmlNodeView>, n: XmlNodeView)
    ensures
        spine_path(base, nodes, n) is Some <==> leads_on(nodes, n),
        spine_path(base, nodes, n) matches Some(p) ==> leads_to(base, nodes, n, p),
{
    if let Some(id) = attribute_of(n, "idref"@) {
        lemma_manifest(nodes, id);
    }
}

/// The places of the first nodes.
proof fn lemma_spine_from(base: Seq<char>, nodes: Seq<XmlNodeView>, n: int) -> (from: Seq<int>)
    requires
        0 <= n <= nodes.len(),
    ensures
        from.len() == spine_to(base, nodes, n).len(),
        rising(from, n),
        forall|k: int|
            0 <= k < from.len() ==> leads_on(nodes, nodes[#[trigger] from[k]]) && leads_to(
                base,
                nodes,
                nodes[from[k]],
                spine_to(base, nodes, n)[k],
            ),
        forall|i: int| 0 <= i < n && leads_on(nodes, #[trigger] nodes[i]) ==> from.contains(i),
    decreases n,
{
    if n <= 0 {
        Seq::empty()
    } else {
        let before = lemma_spine_from(base, nodes, n - 1);
        lemma_leads(base, nodes, nodes[n - 1]);
        lemma_rising_push(before, n - 1);
        let from = if leads_on(nodes, nodes[n - 1]) {
            before.push(n - 1)
        } else {
            before
        };
        assert forall|k: int| 0 <= k < from.len() implies leads_on(nodes, nodes[#[trigger] from[k]])
            && leads_to(base, nodes, nodes[from[k]], spine_to(base, nodes, n)[k]) by {
            if k < before.len() {
                assert(from[k] == before[k]);
            }
        }
        assert forall|i: int| 0 <= i < n && leads_on(nodes, #[trigger] nodes[i]) implies
            from.contains(i) by {
            if i < n - 1 {
                let k = choose|k: int| 0 <= k < before.len() && before[k] == i;
                assert(from[k] == i);
            } else {
                assert(from[before.len() as int] == i);
            }
        }
        from
    }
}

/// What is read follows the spine: one place for each `itemref` whose `idref` the manifest
/// has, in the order of the package, and the place is that of the item; place `k` comes
/// from the node `from[k]`.
pub proof fn law_the_spine_is_followed(opf: Seq<char>, nodes: Seq<XmlNodeView>) -> (from: Seq<int>)
    ensures
        from.len() == spine(opf, nodes).len(),
        rising(from, nodes.len() as int),
        forall|k: int|
            0 <= k < from.len() ==> leads_on(nodes, nodes[#[trigger] from[k]]) && leads_to(
                folder(opf),
                nodes,
                nodes[from[k]],
                spine(opf, nodes)[k],
            ),
        forall|i: int|
            0 <= i < nodes.len() && leads_on(nodes, #[trigger] nodes[i]) ==> from.contains(i),
{
    lemma_spine_from(folder(opf), nodes, nodes.len() as int)
}

} // verus!
