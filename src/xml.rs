//! The outline of an XML document: its elements in document order, each with
//! its depth, tag, leading text and attributes.
use crate::paths::opt_text;
use vstd::prelude::*;

verus! {

/// One node of a document, in document order.
#[derive(Debug, Clone)]
pub struct XmlNode {
    /// How many nodes enclose this one, the node itself included.
    pub depth: usize,
    /// The local tag name; empty for text, comments and the like.
    pub tag: String,
    /// The text that starts the node's content, if any.
    pub text: Option<String>,
    /// The attributes, as (name, value) pairs.
    pub attributes: Vec<(String, String)>,
}

/// Depth, tag, leading text and attributes of a node.
pub type NodeView = (nat, Seq<char>, Option<Seq<char>>, Seq<(Seq<char>, Seq<char>)>);

pub open spec fn attr_view(a: (String, String)) -> (Seq<char>, Seq<char>) {
    (a.0@, a.1@)
}

impl View for XmlNode {
    type V = NodeView;

    open spec fn view(&self) -> NodeView {
        (self.depth as nat, self.tag@, opt_text(self.text), self.attributes@.map_values(|a: (String, String)| attr_view(a)))
    }
}

pub open spec fn nodes_view(v: Seq<XmlNode>) -> Seq<NodeView> {
    v.map_values(|n: XmlNode| n@)
}

/// The nodes of the document `text` from its root element on, or `None`
/// when it is not well-formed XML.
pub uninterp spec fn xml_nodes(text: Seq<char>) -> Option<Seq<NodeView>>;

/// Relies on `roxmltree::Document::parse_with_options`, with document type
/// declarations allowed, and on its node accessors: the root element and its
/// descendants in document order, or the parser's message.
#[verifier::external_body]
pub(crate) fn parse_xml(text: &str) -> (r: Result<Vec<XmlNode>, String>)
    ensures
        match r {
            Ok(v) => xml_nodes(text@) == Some(nodes_view(v@)),
            Err(_) => xml_nodes(text@) is None,
        },
{
    let opt = roxmltree::ParsingOptions { allow_dtd: true, ..roxmltree::ParsingOptions::default() };
    let doc = roxmltree::Document::parse_with_options(text, opt).map_err(|e| e.to_string())?;
    Ok(doc.root_element().descendants().map(|n| XmlNode {
        depth: n.ancestors().count(),
        tag: n.tag_name().name().to_string(),
        text: n.text().map(|t| t.to_string()),
        attributes: n.attributes().map(|a| (a.name().to_string(), a.value().to_string())).collect(),
    }).collect())
}

/// The value of the attribute called `name`, if present.
pub open spec fn attr_value(attrs: Seq<(Seq<char>, Seq<char>)>, name: Seq<char>) -> Option<Seq<char>>
    decreases attrs.len(),
{
    if attrs.len() == 0 {
        None
    } else if attrs[0].0 == name {
        Some(attrs[0].1)
    } else {
        attr_value(attrs.drop_first(), name)
    }
}

/// The value of the attribute of `node` called `name`, if present.
pub fn attribute(node: &XmlNode, name: &str) -> (r: Option<String>)
    ensures
        opt_text(r) == attr_value(node@.3, name@),
{
    let query = name.to_owned();
    let ghost attrs = node@.3;
    let mut i: usize = 0;
    assert(attrs.subrange(0, attrs.len() as int) == attrs);
    while i < node.attributes.len()
        invariant
            i <= node.attributes.len(),
            query@ == name@,
            attrs == node@.3,
            attr_value(attrs, name@) == attr_value(attrs.subrange(i as int, attrs.len() as int), name@),
        decreases node.attributes.len() - i,
    {
        let ghost rest = attrs.subrange(i as int, attrs.len() as int);
        assert(rest[0] == attr_view(node.attributes@[i as int]));
        assert(rest.drop_first() =~= attrs.subrange(i as int + 1, attrs.len() as int));
        if node.attributes[i].0 == query {
            return Some(node.attributes[i].1.clone());
        }
        i = i + 1;
    }
    assert(attrs.subrange(i as int, attrs.len() as int).len() == 0);
    None
}

} // verus!
