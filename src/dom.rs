//! The document tree.
use vstd::prelude::*;

use crate::keyed::KeyedMap;
use crate::text::{split_on, split_text};

verus! {

/// Attributes of an element, by name.
pub type AttrMap = KeyedMap<String>;

/// A node of the document tree; it owns its children.
#[derive(Debug, PartialEq)]
pub struct Node {
    pub children: Vec<Node>,
    pub node_type: NodeType,
}

#[derive(Debug, PartialEq)]
pub enum NodeType {
    Text(String),
    Element(ElementData),
}

#[derive(Debug, PartialEq)]
pub struct ElementData {
    pub tag_name: String,
    pub attributes: AttrMap,
}

/// A text node.
pub fn text(data: String) -> (r: Node)
    ensures
        r.children@.len() == 0,
        r.node_type == NodeType::Text(data),
{
    Node { children: Vec::new(), node_type: NodeType::Text(data) }
}

/// An element node with the given tag name, attributes and children.
pub fn elem(name: String, attrs: AttrMap, children: Vec<Node>) -> (r: Node)
    ensures
        r.children == children,
        r.node_type == NodeType::Element(ElementData { tag_name: name, attributes: attrs }),
{
    Node { children, node_type: NodeType::Element(ElementData { tag_name: name, attributes: attrs }) }
}

impl ElementData {
    /// The names in the `class` attribute, split at each space; none when
    /// the attribute is absent.
    pub open spec fn class_list(&self) -> Seq<Seq<char>> {
        if self.attributes@.contains_key("class"@) {
            split_on(self.attributes@["class"@]@, ' ')
        } else {
            Seq::empty()
        }
    }

    /// The value of the `id` attribute, if any.
    pub fn id(&self) -> (r: Option<&String>)
        ensures
            r is Some == self.attributes@.contains_key("id"@),
            r is Some ==> *(r->0) == self.attributes@["id"@],
    {
        self.attributes.get("id")
    }

    /// The class names of the element.
    pub fn classes(&self) -> (r: Vec<String>)
        ensures
            r@.len() == self.class_list().len(),
            forall|i: int| 0 <= i < r@.len() ==> #[trigger] r@[i]@ == self.class_list()[i],
    {
        match self.attributes.get("class") {
            Some(classlist) => split_text(classlist.as_str(), ' '),
            None => Vec::new(),
        }
    }
}

} // verus!
