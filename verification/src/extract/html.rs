//! Elements of HTML documents.

use crate::extract::paragraphs::texts;
use crate::text::strs;
use scraper::{ElementRef, Html, Selector};
use vstd::prelude::*;

verus! {

/// An element that was selected from a document.
#[derive(Debug)]
pub struct HtmlElement {
    pub name: String,
    /// The names of what the element stands in, from the inside out; `None` for what
    /// is no element.
    pub ancestors: Vec<Option<String>>,
    /// The names of the selected elements that stand in the element.
    pub inside: Vec<String>,
    /// All the text in the element.
    pub text: String,
}

/// What an [`HtmlElement`] holds.
pub struct HtmlElementView {
    pub name: Seq<char>,
    pub ancestors: Seq<Option<Seq<char>>>,
    pub inside: Seq<Seq<char>>,
    pub text: Seq<char>,
}

impl View for HtmlElement {
    type V = HtmlElementView;

    open spec fn view(&self) -> HtmlElementView {
        HtmlElementView {
            name: self.name@,
            ancestors: crate::archive::names_view(self.ancestors@),
            inside: strs(self.inside@),
            text: self.text@,
        }
    }
}

/// The contents of a list of elements.
pub open spec fn elements_view(v: Seq<HtmlElement>) -> Seq<HtmlElementView> {
    Seq::new(v.len(), |i: int| v[i]@)
}

/// Whether `s` is the name of an element as HTML writes it: a lower-case letter, and
/// lower-case letters and digits.
pub open spec fn is_tag(s: Seq<char>) -> bool {
    &&& s.len() > 0
    &&& 'a' <= s[0] <= 'z'
    &&& forall|i: int|
        0 <= i < s.len() ==> 'a' <= #[trigger] s[i] <= 'z' || '0' <= s[i] <= '9'
}

/// The elements of the document `html` with one of the names `tags`, as `scraper`
/// finds them.
pub uninterp spec fn html_elements(html: Seq<char>, tags: Seq<Seq<char>>) -> Seq<HtmlElementView>;

/// `scraper::Html::parse_document`, and `Html::select` with the tags as a list of
/// selectors. Of each element that is found come its name, the names of what it stands
/// in (`ancestors`), the names of what `ElementRef::select` finds in it, which is not
/// the element itself, and its text.
#[verifier::external_body]
pub(crate) fn select_elements(html: &str, tags: &[&str]) -> (r: Vec<HtmlElement>)
    requires
        tags@.len() > 0,
        forall|i: int| 0 <= i < tags@.len() ==> is_tag((#[trigger] tags@[i])@),
    ensures
        elements_view(r@) == html_elements(html@, texts(tags@)),
{
    let name = |e: ElementRef<'_>| e.value().name().to_string();
    let sel = Selector::parse(&tags.join(",")).unwrap();
    let element = |e: ElementRef<'_>| HtmlElement {
        name: name(e),
        ancestors: e.ancestors().map(|n| ElementRef::wrap(n).map(name)).collect(),
        inside: e.select(&sel).map(name).collect(),
        text: e.text().collect(),
    };
    Html::parse_document(html).select(&sel).map(element).collect()
}

} // verus!
