//! XML documents as lists of nodes.

use crate::text::same_text;
use vstd::prelude::*;

verus! {

/// A node of an XML document.
#[derive(Debug)]
pub struct XmlNode {
    /// The local name of an element, and nothing for other nodes.
    pub name: String,
    /// The local names of the attributes and their values, in order.
    pub attributes: Vec<(String, String)>,
    /// The text that the node begins with.
    pub text: Option<String>,
}

/// What an [`XmlNode`] holds.
pub struct XmlNodeView {
    pub name: Seq<char>,
    pub attributes: Seq<(Seq<char>, Seq<char>)>,
    pub text: Option<Seq<char>>,
}

/// The contents of a list of pairs of strings.
pub open spec fn pairs_view(v: Seq<(String, String)>) -> Seq<(Seq<char>, Seq<char>)> {
    Seq::new(v.len(), |i: int| (v[i].0@, v[i].1@))
}

impl View for XmlNode {
    type V = XmlNodeView;

    open spec fn view(&self) -> XmlNodeView {
        XmlNodeView {
            name: self.name@,
            attributes: pairs_view(self.attributes@),
            text: match self.text {
                Some(t) => Some(t@),
                None => None,
            },
        }
    }
}

/// The contents of a list of nodes.
pub open spec fn nodes_view(v: Seq<XmlNode>) -> Seq<XmlNodeView> {
    Seq::new(v.len(), |i: int| v[i]@)
}

/// The nodes of the document `text` in document order, as `roxmltree` parses it, or what
/// it says against the text.
pub uninterp spec fn xml_nodes(text: Seq<char>) -> Result<Seq<XmlNodeView>, Seq<char>>;

/// The contents of what parsing gives.
pub open spec fn parsed_view(r: Result<Vec<XmlNode>, String>) -> Result<
    Seq<XmlNodeView>,
    Seq<char>,
> {
    match r {
        Ok(v) => Ok(nodes_view(v@)),
        Err(e) => Err(e@),
    }
}

/// `roxmltree::Document::parse`, and `Document::descendants` with, of each node,
/// `Node::tag_name`, `Node::attributes` and `Node::text`. Where the text is not parsed
/// comes what `roxmltree::Error` says.
#[verifier::external_body]
pub(crate) fn parse_xml(text: &str) -> (r: Result<Vec<XmlNode>, String>)
    ensures
        parsed_view(r) == xml_nodes(text@),
{
    let doc = roxmltree::Document::parse(text).map_err(|e| e.to_string())?;
    let node = |n: roxmltree::Node<'_, '_>| XmlNode {
        name: n.tag_name().name().to_string(),
        attributes: n.attributes().map(|a| (a.name().to_string(), a.value().to_string())).collect(),
        text: n.text().map(|t| t.to_string()),
    };
    Ok(doc.descendants().map(node).collect())
}

/// The first node with this name from node `i` on.
pub open spec fn node_from(nodes: Seq<XmlNodeView>, name: Seq<char>, i: int) -> Option<XmlNodeView>
    decreases nodes.len() - i,
{
    if 0 <= i < nodes.len() {
        if nodes[i].name == name {
            Some(nodes[i])
        } else {
            node_from(nodes, name, i + 1)
        }
    } else {
        None
    }
}

/// The value of the first attribute with this name from attribute `i` on.
pub open spec fn attribute_from(
    attributes: Seq<(Seq<char>, Seq<char>)>,
    name: Seq<char>,
    i: int,
) -> Option<Seq<char>>
    decreases attributes.len() - i,
{
    if 0 <= i < attributes.len() {
        if attributes[i].0 == name {
            Some(attributes[i].1)
        } else {
            attribute_from(attributes, name, i + 1)
        }
    } else {
        None
    }
}

/// The value of the node's attribute of this name.
pub open spec fn attribute_of(node: XmlNodeView, name: Seq<char>) -> Option<Seq<char>> {
    attribute_from(node.attributes, name, 0)
}

impl XmlNode {
    /// The value of the node's attribute of this name: of several the first.
    pub fn attribute(&self, name: &str) -> (r: Option<&str>)
        ensures
            r is Some <==> attribute_of(self@, name@) is Some,
            r matches Some(v) ==> attribute_of(self@, name@) == Some(v@),
    {
        let mut i: usize = 0;
        while i < self.attributes.len()
            invariant
                0 <= i <= self.attributes@.len(),
                attribute_from(self@.attributes, name@, i as int) == attribute_of(self@, name@),
            decreases self.attributes@.len() - i,
        {
            assert(self@.attributes[i as int] == (
                self.attributes@[i as int].0@,
                self.attributes@[i as int].1@,
            ));
            if same_text(self.attributes[i].0.as_str(), name) {
                return Some(self.attributes[i].1.as_str());
            }
            i = i + 1;
        }
        None
    }
}

/// The first node with this name.
pub fn find_node<'a>(nodes: &'a [XmlNode], name: &str) -> (r: Option<&'a XmlNode>)
    ensures
        r is Some <==> node_from(nodes_view(nodes@), name@, 0) is Some,
        r matches Some(n) ==> node_from(nodes_view(nodes@), name@, 0) == Some(n@),
{
    let mut i: usize = 0;
    while i < nodes.len()
        invariant
            0 <= i <= nodes@.len(),
            node_from(nodes_view(nodes@), name@, i as int) == node_from(
                nodes_view(nodes@),
                name@,
                0,
            ),
        decreases nodes@.len() - i,
    {
        assert(nodes_view(nodes@)[i as int] == nodes@[i as int]@);
        if same_text(nodes[i].name.as_str(), name) {
            return Some(&nodes[i]);
        }
        i = i + 1;
    }
    None
}

} // verus!
