//! What the pages of a PDF become.

use super::epub_laws::{lemma_collapse_blank, rising};
use super::line_laws::{
    belongs, law_paragraphs_end_where_their_lines_do, one_paragraph, tidy,
};
use super::paragraphs::{paragraphs, short_limit};
use super::pdf::{clean_char, clean_text, page_paragraphs, page_sections, paged};
use super::ParagraphView;
use crate::text::edit::{decimal, find, lemma_find, lines, lines_from, without_cr};
use crate::text::{blank, collapse, is_control, is_whitespace};
use vstd::prelude::*;

verus! {

/// Whether there is something to be read on the page: more than white space and control
/// characters.
pub open spec fn has_ink(page: Seq<char>) -> bool {
    exists|i: int| 0 <= i < page.len() && !is_whitespace(#[trigger] page[i]) && !is_control(page[i])
}

/// Whether one of the lines is not blank.
spec fn some_line(v: Seq<Seq<char>>) -> bool {
    exists|k: int| 0 <= k < v.len() && !blank(#[trigger] v[k])
}

/// A line loses nothing but white space with its end.
proof fn lemma_without_cr(s: Seq<char>)
    ensures
        blank(without_cr(s)) == blank(s),
{
    if s.len() > 0 && s.last() == '\r' {
        let t = s.drop_last();
        if blank(t) {
            assert forall|k: int| 0 <= k < s.len() implies is_whitespace(#[trigger] s[k]) by {
                if k < t.len() {
                    assert(t[k] == s[k]);
                }
            }
        } else {
            let k = choose|k: int| 0 <= k < t.len() && !is_whitespace(#[trigger] t[k]);
            assert(!is_whitespace(s[k]));
        }
    }
}

/// One of the lines from `i` on is not blank exactly where the text from `i` on is not.
proof fn lemma_some_line(s: Seq<char>, i: int)
    requires
        0 <= i <= s.len(),
    ensures
        some_line(lines_from(s, i)) <==> exists|k: int|
            i <= k < s.len() && !is_whitespace(#[trigger] s[k]),
    decreases s.len() - i,
{
    if i < s.len() {
        lemma_find(s, '\n', i);
        let e = find(s, '\n', i);
        let all = lines_from(s, i);
        let t = s.subrange(i, e);
        lemma_without_cr(t);
        if e < s.len() {
            lemma_some_line(s, e + 1);
            let rest = lines_from(s, e + 1);
            assert(all[0] == without_cr(t));
            if some_line(all) {
                let k = choose|k: int| 0 <= k < all.len() && !blank(#[trigger] all[k]);
                if k == 0 {
                    let j = choose|j: int| 0 <= j < t.len() && !is_whitespace(#[trigger] t[j]);
                    assert(!is_whitespace(s[i + j]));
                } else {
                    assert(!blank(rest[k - 1]));
                }
            }
            if exists|k: int| i <= k < s.len() && !is_whitespace(#[trigger] s[k]) {
                let k = choose|k: int| i <= k < s.len() && !is_whitespace(#[trigger] s[k]);
                if k < e {
                    assert(!is_whitespace(t[k - i]));
                    assert(!blank(all[0]));
                } else {
                    assert(s[e] == '\n');
                    assert(k > e);
                    let j = choose|j: int| 0 <= j < rest.len() && !blank(#[trigger] rest[j]);
                    assert(all[j + 1] == rest[j]);
                }
            }
        } else {
            assert(all[0] == s.subrange(i, s.len() as int));
            if some_line(all) {
                let j = choose|j: int| 0 <= j < t.len() && !is_whitespace(#[trigger] t[j]);
                assert(!is_whitespace(s[i + j]));
            }
            if exists|k: int| i <= k < s.len() && !is_whitespace(#[trigger] s[k]) {
                let k = choose|k: int| i <= k < s.len() && !is_whitespace(#[trigger] s[k]);
                assert(!is_whitespace(t[k - i]));
                assert(!blank(all[0]));
            }
        }
    }
}

/// There are paragraphs exactly where one of the lines is not blank.
proof fn lemma_some_paragraph(v: Seq<Seq<char>>)
    ensures
        paragraphs(v).len() > 0 <==> some_line(v),
{
    let cut = law_paragraphs_end_where_their_lines_do(v);
    let t = tidy(v);
    if paragraphs(v).len() > 0 {
        assert(one_paragraph(t, short_limit(t), cut[0].0, cut[0].1));
        let i = cut[0].0;
        assert(t[i] == collapse(v[i]));
        lemma_collapse_blank(v[i]);
    }
    if some_line(v) {
        let k = choose|k: int| 0 <= k < v.len() && !blank(#[trigger] v[k]);
        lemma_collapse_blank(v[k]);
        assert(t[k] == collapse(v[k]));
        assert(belongs(cut, k));
    }
}

/// A page has paragraphs exactly where there is something to be read on it.
proof fn lemma_page(page: Seq<char>)
    ensures
        page_paragraphs(page).len() > 0 <==> has_ink(page),
{
    let s = clean_text(page);
    lemma_some_paragraph(lines(s));
    lemma_some_line(s, 0);
    assert forall|k: int| 0 <= k < s.len() implies (!is_whitespace(#[trigger] s[k]) <==> (
    !is_whitespace(page[k]) && !is_control(page[k]))) by {
        assert(s[k] == clean_char(page[k]));
    }
    if has_ink(page) {
        let i = choose|i: int|
            0 <= i < page.len() && !is_whitespace(#[trigger] page[i]) && !is_control(page[i]);
        assert(!is_whitespace(s[i]));
    }
    if exists|k: int| 0 <= k < s.len() && !is_whitespace(#[trigger] s[k]) {
        let k = choose|k: int| 0 <= k < s.len() && !is_whitespace(#[trigger] s[k]);
        assert(!is_whitespace(page[k]));
    }
}

/// Whether the paragraphs `ps` are those of the page: what the lines of the page group to,
/// with a space in place of every control character but the line feed.
pub open spec fn of_page(ps: Seq<ParagraphView>, page: Seq<char>) -> bool {
    let text = Seq::new(
        page.len(),
        |i: int|
            if is_control(page[i]) && page[i] != '\n' {
                ' '
            } else {
                page[i]
            },
    );
    &&& ps.len() == paragraphs(lines(text)).len()
    &&& forall|j: int|
        0 <= j < ps.len() ==> (#[trigger] ps[j]).kind == "p"@ && ps[j].text == paragraphs(
            lines(text),
        )[j]
}

/// The paragraphs of a page are its own.
proof fn lemma_of_page(page: Seq<char>)
    ensures
        of_page(page_paragraphs(page), page),
{
    let text = Seq::new(
        page.len(),
        |i: int|
            if is_control(page[i]) && page[i] != '\n' {
                ' '
            } else {
                page[i]
            },
    );
    assert(text =~= clean_text(page));
}

/// Where the sections of the first `n` pages come from.
proof fn lemma_pages(pages: Seq<Seq<char>>, n: int) -> (from: Seq<int>)
    requires
        0 <= n <= pages.len(),
    ensures
        from.len() == page_sections(pages, n).len(),
        rising(from, n),
        forall|k: int|
            0 <= k < from.len() ==> has_ink(pages[#[trigger] from[k]]) && page_sections(
                pages,
                n,
            )[k].title == "Página "@ + decimal((from[k] + 1) as nat) && of_page(
                page_sections(pages, n)[k].paragraphs,
                pages[from[k]],
            ),
        forall|i: int| 0 <= i < n && has_ink(#[trigger] pages[i]) ==> from.contains(i),
    decreases n,
{
    if n <= 0 {
        Seq::empty()
    } else {
        let before = lemma_pages(pages, n - 1);
        lemma_page(pages[n - 1]);
        lemma_of_page(pages[n - 1]);
        let from = if has_ink(pages[n - 1]) {
            before.push(n - 1)
        } else {
            before
        };
        let all = page_sections(pages, n);
        assert forall|k: int| 0 <= k < from.len() implies has_ink(pages[#[trigger] from[k]])
            && all[k].title == "Página "@ + decimal((from[k] + 1) as nat) && of_page(
            all[k].paragraphs,
            pages[from[k]],
        ) by {
            if k < before.len() {
                assert(from[k] == before[k]);
                assert(all[k] == page_sections(pages, n - 1)[k]);
            }
        }
        assert forall|i: int| 0 <= i < n && has_ink(#[trigger] pages[i]) implies from.contains(
            i,
        ) by {
            if i < n - 1 {
                let k = choose|k: int| 0 <= k < before.len() && before[k] == i;
                assert(from[k] == i);
            } else {
                assert(from[before.len() as int] == i);
            }
        }
        from
    }
}

/// Every page on which there is something to be read is a section, in order, and is called
/// by its number among all the pages; section `k` is the page at place `from[k]`. A PDF
/// that is read page by page has neither title nor language.
pub proof fn law_pages_become_sections(pages: Seq<Seq<char>>) -> (from: Seq<int>)
    ensures
        paged(pages).title.len() == 0,
        paged(pages).lang.len() == 0,
        from.len() == paged(pages).sections.len(),
        rising(from, pages.len() as int),
        forall|k: int|
            0 <= k < from.len() ==> has_ink(pages[#[trigger] from[k]]) && paged(
                pages,
            ).sections[k].title == "Página "@ + decimal((from[k] + 1) as nat) && of_page(
                paged(pages).sections[k].paragraphs,
                pages[from[k]],
            ),
        forall|i: int| 0 <= i < pages.len() && has_ink(#[trigger] pages[i]) ==> from.contains(i),
{
    lemma_pages(pages, pages.len() as int)
}

} // verus!
