//! What the database holds.

use crate::extract;
use vstd::prelude::*;

verus! {

/// A book in the library.
#[derive(Debug, Clone)]
pub struct Book {
    pub id: i64,
    pub title: String,
    pub lang: String,
    pub kind: String,
    pub section_count: i64,
    pub pos_section: i64,
    pub pos_paragraph: i64,
    pub created_at: String,
    pub opened_at: String,
}

/// A section of a book.
#[derive(Debug, Clone)]
pub struct Section {
    pub id: i64,
    pub idx: i64,
    pub title: String,
}

/// A paragraph of a section.
#[derive(Debug, Clone)]
pub struct Paragraph {
    pub id: i64,
    pub section_id: i64,
    pub idx: i64,
    pub kind: String,
    pub text: String,
}

/// The sound of a chunk.
#[derive(Debug, Clone)]
pub struct Clip {
    pub key: String,
    pub path: String,
    pub duration_ms: i64,
    /// The timings of the words, as JSON.
    pub word_timings: String,
    pub aligned: bool,
}

// --------------------------------------------------------------------------- migrations

/// The versions among `all` that are not applied yet, in order.
pub open spec fn not_applied(all: Seq<i64>, applied: Seq<i64>) -> Seq<i64> {
    all.filter(|v: i64| !applied.contains(v))
}

/// The migrations that have to be run: those of `all` that are not among `applied`.
pub fn pending_migrations(all: &[i64], applied: &[i64]) -> (r: Vec<i64>)
    ensures
        r@ == not_applied(all@, applied@),
{
    let mut out: Vec<i64> = Vec::new();
    let mut i: usize = 0;
    while i < all.len()
        invariant
            0 <= i <= all@.len(),
            out@ =~= not_applied(all@.take(i as int), applied@),
        decreases all@.len() - i,
    {
        proof {
            reveal(Seq::filter);
            assert(all@.take(i + 1).drop_last() =~= all@.take(i as int));
        }
        let mut known: bool = false;
        let mut j: usize = 0;
        while j < applied.len()
            invariant
                0 <= i < all@.len(),
                0 <= j <= applied@.len(),
                known == exists|k: int| 0 <= k < j && #[trigger] applied@[k] == all@[i as int],
            decreases applied@.len() - j,
        {
            if applied[j] == all[i] {
                known = true;
            }
            j = j + 1;
        }
        assert(known == applied@.contains(all@[i as int]));
        if !known {
            out.push(all[i]);
        }
        i = i + 1;
    }
    assert(all@.take(i as int) =~= all@);
    out
}

// --------------------------------------------------------------------------------- rows

/// A paragraph as it is written: its place in the section, its kind and its text.
#[derive(Debug)]
pub struct ParagraphRow {
    pub idx: i64,
    pub kind: String,
    pub text: String,
}

/// A section as it is written: its place in the book, its title and its paragraphs.
#[derive(Debug)]
pub struct SectionRow {
    pub idx: i64,
    pub title: String,
    pub paragraphs: Vec<ParagraphRow>,
}

/// A book as it is written: how many sections it has, and the sections.
#[derive(Debug)]
pub struct BookRows {
    pub section_count: i64,
    pub sections: Vec<SectionRow>,
}

/// Whether the row `r` is the paragraph `p` at place `idx`.
pub open spec fn is_paragraph_row(r: ParagraphRow, p: extract::ParagraphView, idx: int) -> bool {
    r.idx == idx && r.kind@ == p.kind && r.text@ == p.text
}

/// Whether the row `r` is the section `s` at place `idx`.
pub open spec fn is_section_row(r: SectionRow, s: extract::SectionView, idx: int) -> bool {
    &&& r.idx == idx
    &&& r.title@ == s.title
    &&& r.paragraphs@.len() == s.paragraphs.len()
    &&& forall|j: int|
        0 <= j < s.paragraphs.len() ==> is_paragraph_row(
            #[trigger] r.paragraphs@[j],
            s.paragraphs[j],
            j,
        )
}

/// The rows of the paragraphs `ps`.
fn paragraph_rows(ps: &Vec<extract::Paragraph>) -> (r: Vec<ParagraphRow>)
    requires
        ps@.len() <= i64::MAX,
    ensures
        r@.len() == ps@.len(),
        forall|j: int| 0 <= j < r@.len() ==> is_paragraph_row(#[trigger] r@[j], ps@[j]@, j),
{
    let mut out: Vec<ParagraphRow> = Vec::new();
    let mut j: usize = 0;
    while j < ps.len()
        invariant
            0 <= j <= ps@.len(),
            ps@.len() <= i64::MAX,
            out@.len() == j,
            forall|k: int| 0 <= k < j ==> is_paragraph_row(#[trigger] out@[k], ps@[k]@, k),
        decreases ps@.len() - j,
    {
        out.push(
            ParagraphRow { idx: j as i64, kind: ps[j].kind.clone(), text: ps[j].text.clone() },
        );
        j = j + 1;
    }
    out
}

/// The rows of a book with these sections: sections and paragraphs are numbered from
/// zero, each paragraph within its section.
pub fn book_rows(sections: &[extract::Section]) -> (r: BookRows)
    requires
        sections@.len() <= i64::MAX,
        forall|i: int|
            0 <= i < sections@.len() ==> (#[trigger] sections@[i]).paragraphs@.len() <= i64::MAX,
    ensures
        r.section_count == sections@.len(),
        r.sections@.len() == sections@.len(),
        forall|i: int|
            0 <= i < sections@.len() ==> is_section_row(
                #[trigger] r.sections@[i],
                sections@[i]@,
                i,
            ),
{
    let mut out: Vec<SectionRow> = Vec::new();
    let mut i: usize = 0;
    while i < sections.len()
        invariant
            0 <= i <= sections@.len(),
            sections@.len() <= i64::MAX,
            forall|k: int|
                0 <= k < sections@.len() ==> (#[trigger] sections@[k]).paragraphs@.len()
                    <= i64::MAX,
            out@.len() == i,
            forall|k: int|
                0 <= k < i ==> is_section_row(#[trigger] out@[k], sections@[k]@, k),
        decreases sections@.len() - i,
    {
        let s: &extract::Section = &sections[i];
        let rows: Vec<ParagraphRow> = paragraph_rows(&s.paragraphs);
        let row = SectionRow { idx: i as i64, title: s.title.clone(), paragraphs: rows };
        assert(is_section_row(row, s@, i as int));
        out.push(row);
        i = i + 1;
    }
    BookRows { section_count: sections.len() as i64, sections: out }
}

} // verus!
