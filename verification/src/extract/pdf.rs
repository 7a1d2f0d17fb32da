//! From a PDF to sections.
//!
//! A PDF is first converted to an EPUB, which has real chapters and headings. Where
//! that does not work out, its pages are taken as they are: one section for each page,
//! with the lines grouped into paragraphs.

use crate::extract::epub;
use crate::extract::epub::book;
use crate::extract::paragraphs::{group_rows, paragraphs};
use crate::extract::{
    outcome_view, paragraphs_view, sections_view, ExtractError, ExtractErrorView, Extracted,
    ExtractedView, Paragraph, ParagraphView, Section, SectionView,
};
use crate::text::edit::{
    decimal, decimal_of, find, lemma_find, lines, lines_from, parts, split_at_char, split_lines,
};
use crate::text::utf8::{decode_lossy, lossy};
use crate::text::{
    char_is_control, chars_of, is_control, push_chars, rows, string_of, strings_of, strs,
};
use vstd::prelude::*;

verus! {

// -------------------------------------------------------------------------- conversion

/// What to do next in converting a PDF to an EPUB.
#[derive(Debug)]
pub enum Conversion {
    /// Convert to this version of EPUB, and check the result.
    Try(&'static str),
    /// The last try is good: read it.
    Read,
    /// No try is good.
    GiveUp,
}

/// The version to try after this one: first the one that is checked less strictly.
pub open spec fn next_version(tried: Option<Seq<char>>) -> Option<Seq<char>> {
    match tried {
        None => Some("2"@),
        Some(v) => if v == "2"@ {
            Some("3"@)
        } else {
            None
        },
    }
}

/// What to do next: `tried` is the version that was last converted to, and whether it
/// was good.
pub fn next_conversion(tried: Option<(&str, bool)>) -> (r: Conversion)
    ensures
        match tried {
            None => r matches Conversion::Try(v) && next_version(None) == Some(v@),
            Some((v, good)) => if good {
                r is Read
            } else {
                match next_version(Some(v@)) {
                    Some(n) => r matches Conversion::Try(w) && w@ == n,
                    None => r is GiveUp,
                }
            },
        },
{
    match tried {
        None => Conversion::Try("2"),
        Some((v, good)) => if good {
            Conversion::Read
        } else if crate::text::same_text(v, "2") {
            Conversion::Try("3")
        } else {
            Conversion::GiveUp
        },
    }
}

/// The arguments of the converter, behind the two files, for this version of EPUB.
pub fn converter_args(version: &str) -> (r: Vec<String>)
    ensures
        strs(r@) == seq!["--enable-heuristics"@, "--filter-css"@, "--epub-version"@, version@],
{
    let mut out: Vec<String> = Vec::new();
    out.push("--enable-heuristics".to_owned());
    out.push("--filter-css".to_owned());
    out.push("--epub-version".to_owned());
    out.push(version.to_owned());
    assert(strs(out@) =~= seq![
        "--enable-heuristics"@,
        "--filter-css"@,
        "--epub-version"@,
        version@,
    ]);
    out
}

/// A number that tells the temporary files of one conversion from those of others: made
/// of the clock's nanoseconds and of how many conversions there have been.
pub fn unique_suffix(nanos: u64, n: u64) -> (r: u64)
    ensures
        r == (nanos * 1_000_003 + n) % 0x1_0000_0000_0000_0000,
{
    let a: u64 = nanos.wrapping_mul(1_000_003);
    let r: u64 = a.wrapping_add(n);
    proof {
        let m: int = 0x1_0000_0000_0000_0000;
        let x: int = nanos * 1_000_003;
        assert(a == x % m);
        vstd::arithmetic::div_mod::lemma_add_mod_noop(x, n as int, m);
        vstd::arithmetic::div_mod::lemma_small_mod(n as nat, m as nat);
        vstd::arithmetic::div_mod::lemma_mod_twice(x, m);
    }
    r
}

/// The name of the temporary files of a conversion, without the extension.
pub fn temp_stem(pid: u32, suffix: u64) -> (r: String)
    ensures
        r@ == "reader-pdf2epub-"@ + decimal(pid as nat) + seq!['-'] + decimal(suffix as nat),
{
    let mut out: Vec<char> = chars_of("reader-pdf2epub-");
    push_chars(&mut out, decimal_of(pid as u64).as_slice());
    out.push('-');
    push_chars(&mut out, decimal_of(suffix).as_slice());
    assert(out@ =~= "reader-pdf2epub-"@ + decimal(pid as nat) + seq!['-'] + decimal(
        suffix as nat,
    ));
    string_of(out.as_slice())
}

// ------------------------------------------------------------------------------- pages

/// What stands for `c` in the text of a page: a space for a control character, which
/// is what a glyph that is no character comes out as. A line feed stays.
pub open spec fn clean_char(c: char) -> char {
    if c != '\n' && is_control(c) {
        ' '
    } else {
        c
    }
}

/// `s` with every character clean.
pub open spec fn clean_text(s: Seq<char>) -> Seq<char> {
    Seq::new(s.len(), |i: int| clean_char(s[i]))
}

/// Puts a space in place of every control character but the line feed.
fn clean(s: &str) -> (r: Vec<char>)
    ensures
        r@ == clean_text(s@),
{
    let cs: Vec<char> = chars_of(s);
    let mut out: Vec<char> = Vec::new();
    let mut i: usize = 0;
    while i < cs.len()
        invariant
            0 <= i <= cs@.len(),
            out@ =~= clean_text(cs@).take(i as int),
        decreases cs@.len() - i,
    {
        let c: char = cs[i];
        if c != '\n' && char_is_control(c) {
            out.push(' ');
        } else {
            out.push(c);
        }
        i = i + 1;
    }
    assert(out@ =~= clean_text(cs@));
    out
}

/// Puts a space in place of every control character but the line feed, so that no two
/// words are joined.
pub fn strip_bad_chars(s: &str) -> (r: String)
    ensures
        r@ == clean_text(s@),
{
    string_of(clean(s).as_slice())
}

/// The pages in what `pdftotext` wrote: a form feed separates them.
pub fn pages_of_output(stdout: &[u8]) -> (r: Vec<String>)
    ensures
        strs(r@) == parts(lossy(stdout@), '\u{c}'),
{
    let text: String = decode_lossy(stdout);
    strings_of(&split_at_char(chars_of(text.as_str()).as_slice(), '\u{c}'))
}

/// The paragraphs of a page.
pub open spec fn page_paragraphs(page: Seq<char>) -> Seq<ParagraphView> {
    let ps = paragraphs(lines(clean_text(page)));
    Seq::new(ps.len(), |i: int| ParagraphView { kind: "p"@, text: ps[i] })
}

/// The sections that the first `k` pages are. A page without text is none, but counts.
pub open spec fn page_sections(pages: Seq<Seq<char>>, k: int) -> Seq<SectionView>
    decreases k,
{
    if k <= 0 {
        Seq::empty()
    } else {
        let before = page_sections(pages, k - 1);
        let ps = page_paragraphs(pages[k - 1]);
        if ps.len() == 0 {
            before
        } else {
            before.push(
                SectionView { title: "Página "@ + decimal(k as nat), paragraphs: ps },
            )
        }
    }
}

/// The paragraphs of a page.
fn read_page(page: &str) -> (r: Vec<Paragraph>)
    ensures
        paragraphs_view(r@) == page_paragraphs(page@),
{
    let cs: Vec<char> = clean(page);
    let ls: Vec<Vec<char>> = split_lines(cs.as_slice());
    let ps: Vec<Vec<char>> = group_rows(&ls);
    let mut out: Vec<Paragraph> = Vec::new();
    let mut i: usize = 0;
    while i < ps.len()
        invariant
            0 <= i <= ps@.len(),
            rows(ps@) == paragraphs(lines(clean_text(page@))),
            paragraphs_view(out@) =~= page_paragraphs(page@).take(i as int),
        decreases ps@.len() - i,
    {
        let p = Paragraph { kind: "p".to_owned(), text: string_of(ps[i].as_slice()) };
        assert(rows(ps@)[i as int] == ps@[i as int]@);
        let ghost before = out@;
        out.push(p);
        assert(paragraphs_view(out@) =~= paragraphs_view(before).push(p@));
        i = i + 1;
    }
    assert(rows(ps@).len() == ps@.len());
    out
}

/// The sections that the pages are: one for each page with text.
pub fn pages_to_sections(pages: &[String]) -> (r: Vec<Section>)
    ensures
        sections_view(r@) == page_sections(strs(pages@), pages@.len() as int),
{
    let mut out: Vec<Section> = Vec::new();
    let mut i: usize = 0;
    while i < pages.len()
        invariant
            0 <= i <= pages@.len(),
            sections_view(out@) =~= page_sections(strs(pages@), i as int),
        decreases pages@.len() - i,
    {
        assert(strs(pages@)[i as int] == pages@[i as int]@);
        let ps: Vec<Paragraph> = read_page(pages[i].as_str());
        assert(paragraphs_view(ps@).len() == ps@.len());
        if ps.len() > 0 {
            let mut title: Vec<char> = chars_of("Página ");
            push_chars(&mut title, decimal_of(i as u64 + 1).as_slice());
            let s = Section { title: string_of(title.as_slice()), paragraphs: ps };
            let ghost before = out@;
            out.push(s);
            assert(sections_view(out@) =~= sections_view(before).push(s@));
        }
        i = i + 1;
    }
    out
}

/// What the pages of a PDF hold.
pub open spec fn paged(pages: Seq<Seq<char>>) -> ExtractedView {
    ExtractedView {
        title: Seq::empty(),
        lang: Seq::empty(),
        sections: page_sections(pages, pages.len() as int),
    }
}

/// Takes the pages of a PDF as they are.
pub fn extract_direct(pages: &[String]) -> (r: Extracted)
    ensures
        r@ == paged(strs(pages@)),
{
    assert(strs(pages@).len() == pages@.len());
    Extracted { title: String::new(), lang: String::new(), sections: pages_to_sections(pages) }
}

/// What a PDF holds where its pages were asked for and `out` came of it.
pub open spec fn paged_outcome(out: Result<Vec<String>, String>) -> Result<
    ExtractedView,
    ExtractErrorView,
> {
    match out {
        Ok(pages) => Ok(paged(strs(pages@))),
        Err(e) => Err(ExtractErrorView::Pages(e@)),
    }
}

/// Whether the EPUB that a PDF was converted to holds a book.
pub open spec fn converts(converted: Option<&[u8]>) -> bool {
    converted matches Some(bytes) && book(bytes@) is Ok
}

/// Extracts the text of a PDF. `converted` is the EPUB that it was converted to, if it
/// was; where that holds a book, it is the result. Otherwise `pages` is asked for the
/// pages.
pub fn extract<F: FnOnce() -> Result<Vec<String>, String>>(converted: Option<&[u8]>, pages: F) -> (r:
    Result<Extracted, ExtractError>)
    requires
        pages.requires(()),
    ensures
        converted matches Some(b) ==> (book(b@) is Ok ==> outcome_view(r) == book(b@)),
        converts(converted) ==> outcome_view(r) == book(converted->0@),
        !converts(converted) ==> exists|out: Result<Vec<String>, String>| #[trigger]
            pages.ensures((), out) && outcome_view(r) == paged_outcome(out),
{
    if let Some(bytes) = converted {
        if let Ok(ex) = epub::extract(bytes) {
            return Ok(ex);
        }
    }
    let out: Result<Vec<String>, String> = pages();
    match out {
        Ok(p) => Ok(extract_direct(p.as_slice())),
        Err(e) => Err(ExtractError::Pages(e)),
    }
}

// ------------------------------------------------------------------------------- laws

/// Line feeds stay where they are.
proof fn lemma_clean_find(s: Seq<char>, i: int)
    requires
        0 <= i <= s.len(),
    ensures
        find(clean_text(s), '\n', i) == find(s, '\n', i),
    decreases s.len() - i,
{
    if i < s.len() {
        assert(clean_text(s)[i] == clean_char(s[i]));
        lemma_clean_find(s, i + 1);
    }
}

/// A text has as many lines from `i` on when it is clean.
proof fn lemma_clean_lines(s: Seq<char>, i: int)
    requires
        0 <= i <= s.len(),
    ensures
        lines_from(clean_text(s), i).len() == lines_from(s, i).len(),
    decreases s.len() - i,
{
    if i < s.len() {
        lemma_clean_find(s, i);
        lemma_find(s, '\n', i);
        let e = find(s, '\n', i);
        if e < s.len() {
            lemma_clean_lines(s, e + 1);
        }
    }
}

/// A clean text holds no control character but line feeds, so that a zero cannot cut it
/// short, and no character and no line more or less than before.
pub proof fn law_clean_text(s: Seq<char>)
    ensures
        forall|i: int|
            0 <= i < clean_text(s).len() ==> (#[trigger] clean_text(s)[i]) == '\n' || !is_control(
                clean_text(s)[i],
            ),
        clean_text(s).len() == s.len(),
        lines(clean_text(s)).len() == lines(s).len(),
{
    lemma_clean_lines(s, 0);
}

} // verus!
