//! Parsed XML documents as plain values: the nodes in document order, each with the index of
//! its parent.
use vstd::prelude::*;

use crate::text::{str_eq, utf8};
use roxmltree::{Document, NodeType};
use std::ops::Range;

verus! {

/// Kinds of XML nodes.
#[derive(Clone, Copy, PartialEq, Eq, Structural, Debug)]
pub enum XmlNodeKind {
    Root,
    Element,
    Pi,
    Comment,
    Text,
}

/// An attribute: its local name, its decoded value, and the bytes of the value in the source,
/// quotes excluded.
#[derive(Clone, Debug)]
pub struct XmlAttribute {
    pub name: String,
    pub value: String,
    pub start: usize,
    pub end: usize,
}

/// A node: its kind, tag (empty but for elements), attributes, bytes in the source, the index
/// of its parent, and its text (of an element: the text that starts its content).
#[derive(Clone, Debug)]
pub struct XmlNode {
    pub kind: XmlNodeKind,
    pub tag: String,
    pub attributes: Vec<XmlAttribute>,
    pub start: usize,
    pub end: usize,
    pub parent: Option<usize>,
    pub text: Option<String>,
}

/// A source text with the nodes that the parser found in it.
#[derive(Clone, Debug)]
pub struct XmlDocument {
    pub text: String,
    pub nodes: Vec<XmlNode>,
}

/// Value of an [`XmlAttribute`].
pub ghost struct AttributeView {
    pub name: Seq<char>,
    pub value: Seq<char>,
    pub start: usize,
    pub end: usize,
}

/// Value of an [`XmlNode`].
pub ghost struct NodeView {
    pub kind: XmlNodeKind,
    pub tag: Seq<char>,
    pub attributes: Seq<AttributeView>,
    pub start: usize,
    pub end: usize,
    pub parent: Option<usize>,
    pub text: Option<Seq<char>>,
}

/// Value of an [`XmlDocument`].
pub ghost struct DocumentView {
    pub text: Seq<char>,
    pub nodes: Seq<NodeView>,
}

/// What the XML parser makes of a text: its nodes in document order, or nothing when the text is
/// no well-formed document.
pub uninterp spec fn parsed_nodes(text: Seq<char>) -> Option<Seq<NodeView>>;

pub open spec fn nodes_view(nodes: Seq<XmlNode>) -> Seq<NodeView> {
    nodes.map_values(|n: XmlNode| n@)
}

impl View for XmlAttribute {
    type V = AttributeView;

    open spec fn view(&self) -> AttributeView {
        AttributeView { name: self.name@, value: self.value@, start: self.start, end: self.end }
    }
}

impl View for XmlNode {
    type V = NodeView;

    open spec fn view(&self) -> NodeView {
        NodeView {
            kind: self.kind,
            tag: self.tag@,
            attributes: self.attributes@.map_values(|a: XmlAttribute| a@),
            start: self.start,
            end: self.end,
            parent: self.parent,
            text: match self.text {
                Some(text) => Some(text@),
                None => None,
            },
        }
    }
}

impl View for XmlDocument {
    type V = DocumentView;

    open spec fn view(&self) -> DocumentView {
        DocumentView { text: self.text@, nodes: nodes_view(self.nodes@) }
    }
}

impl NodeView {
    /// Whether the bytes of the node and of its attribute values lie where they belong, the values
    /// inside the node and one after the other.
    pub open spec fn ranges_wf(self, len: nat) -> bool {
        &&& self.start <= self.end <= len
        &&& forall|k: int|
            0 <= k < self.attributes.len() ==> {
                let attribute = #[trigger] self.attributes[k];
                self.start <= attribute.start <= attribute.end <= self.end
            }
        &&& forall|j: int, k: int|
            0 <= j < k < self.attributes.len() ==> (#[trigger] self.attributes[j]).end <= (
            #[trigger] self.attributes[k]).start
    }

    /// Index of the first attribute of that name.
    pub open spec fn is_first_named(self, name: Seq<char>, k: int) -> bool {
        &&& 0 <= k < self.attributes.len()
        &&& self.attributes[k].name == name
        &&& forall|j: int| 0 <= j < k ==> (#[trigger] self.attributes[j]).name != name
    }

    /// Value of the first attribute of that name.
    pub open spec fn attribute(self, name: Seq<char>) -> Option<Seq<char>> {
        if exists|k: int| self.is_first_named(name, k) {
            Some(self.attributes[choose|k: int| self.is_first_named(name, k)].value)
        } else {
            None
        }
    }
}

impl DocumentView {
    /// Whether node `i` lies where it belongs: after its parent and inside its bytes.
    pub open spec fn node_wf(self, i: int) -> bool {
        let node = self.nodes[i];
        &&& node.ranges_wf(utf8(self.text).len())
        &&& node.kind == XmlNodeKind::Text ==> node.text is Some
        &&& node.kind == XmlNodeKind::Root <==> i == 0
        &&& if i == 0 {
            node.parent is None
        } else {
            &&& node.parent matches Some(p)
            &&& p < i
            &&& self.nodes[p as int].start <= node.start < self.nodes[p as int].end
            &&& node.end <= self.nodes[p as int].end
        }
    }

    /// Whether node `j` starts at or after node `i` and, being another one, after its attributes.
    pub open spec fn in_order(self, i: int, j: int) -> bool {
        &&& self.nodes[i].start <= self.nodes[j].start
        &&& i < j ==> forall|k: int|
            0 <= k < self.nodes[i].attributes.len() ==> (#[trigger] self.nodes[i].attributes[k]).end
                <= self.nodes[j].start
    }

    /// The shape of a document: a root first, every other node after its parent and inside its
    /// bytes, nodes in source order.
    pub open spec fn wf(self) -> bool {
        &&& self.nodes.len() > 0
        &&& forall|i: int| 0 <= i < self.nodes.len() ==> #[trigger] self.node_wf(i)
        &&& forall|i: int, j: int|
            0 <= i <= j < self.nodes.len() ==> #[trigger] self.in_order(i, j)
    }

    /// Whether `child` is a child of `node`.
    pub open spec fn is_child(self, node: int, child: int) -> bool {
        &&& 0 <= child < self.nodes.len()
        &&& self.nodes[child].parent == Some(node as usize)
    }

    /// Whether `node` has any child.
    pub open spec fn has_children(self, node: int) -> bool {
        exists|child: int| self.is_child(node, child)
    }
}

/// `roxmltree::Document::parse` of a text, each node of `Document::descendants` read off through
/// `node_type`, `tag_name`, `attributes`, `range`, `parent` and `text`, each attribute through
/// `name`, `value` and `range_value`.
///
/// Claimed: the nodes depend on the text alone; they come in document order, the one root first and
/// without a parent, every other node after its parent, whose index is its `NodeId`, and inside
/// the bytes of its parent; attributes come in source order, the bytes of their values lie inside
/// those of the element and before those of any later node; a text node has a text. What the nodes
/// of a given text are is left to the parser.
#[verifier::external_body]
fn parse_nodes(text: &str) -> (res: Option<Vec<XmlNode>>)
    ensures
        match res {
            Some(nodes) => {
                &&& parsed_nodes(text@) == Some(nodes_view(nodes@))
                &&& (DocumentView { text: text@, nodes: nodes_view(nodes@) }).wf()
            },
            None => parsed_nodes(text@) is None,
        },
{
    Some(Document::parse(text).ok()?.descendants().map(|n| XmlNode::new(
        match n.node_type() {
            NodeType::Root => XmlNodeKind::Root,
            NodeType::Element => XmlNodeKind::Element,
            NodeType::PI => XmlNodeKind::Pi,
            NodeType::Comment => XmlNodeKind::Comment,
            NodeType::Text => XmlNodeKind::Text,
        },
        n.tag_name().name(),
        n.attributes().map(|a| XmlAttribute::new(a.name(), a.value(), a.range_value())).collect(),
        n.range(), n.parent().map(|p| p.id().get_usize()), n.text(),
    )).collect())
}

impl XmlAttribute {
    /// An attribute, `range` being the bytes of its value.
    pub fn new(name: &str, value: &str, range: Range<usize>) -> (res: XmlAttribute)
        ensures
            res@ == (AttributeView {
                name: name@,
                value: value@,
                start: range.start,
                end: range.end,
            }),
    {
        XmlAttribute {
            name: name.to_string(),
            value: value.to_string(),
            start: range.start,
            end: range.end,
        }
    }
}

impl XmlNode {
    /// A node, `range` being its bytes.
    pub fn new(
        kind: XmlNodeKind,
        tag: &str,
        attributes: Vec<XmlAttribute>,
        range: Range<usize>,
        parent: Option<usize>,
        text: Option<&str>,
    ) -> (res: XmlNode)
        ensures
            res@ == (NodeView {
                kind,
                tag: tag@,
                attributes: attributes@.map_values(|a: XmlAttribute| a@),
                start: range.start,
                end: range.end,
                parent,
                text: match text {
                    Some(text) => Some(text@),
                    None => None,
                },
            }),
    {
        XmlNode {
            kind,
            tag: tag.to_string(),
            attributes,
            start: range.start,
            end: range.end,
            parent,
            text: match text {
                Some(text) => Some(text.to_string()),
                None => None,
            },
        }
    }
}

impl XmlNode {
    /// Value of the first attribute of that name.
    pub fn attribute(&self, name: &str) -> (res: Option<&str>)
        ensures
            match res {
                Some(value) => self@.attribute(name@) == Some(value@),
                None => self@.attribute(name@) is None,
            },
    {
        let mut k: usize = 0;
        while k < self.attributes.len()
            invariant
                k <= self.attributes.len(),
                forall|j: int| 0 <= j < k ==> (#[trigger] self@.attributes[j]).name != name@,
            decreases self.attributes.len() - k,
        {
            assert(self@.attributes[k as int] == self.attributes[k as int]@);
            if str_eq(self.attributes[k].name.as_str(), name) {
                proof {
                    assert(self@.is_first_named(name@, k as int));
                    self@.lemma_attribute(name@, k as int);
                }
                return Some(self.attributes[k].value.as_str());
            }
            k = k + 1;
        }
        None
    }
}

impl NodeView {
    /// The first attribute of a name is the only first one.
    pub proof fn lemma_attribute(self, name: Seq<char>, k: int)
        requires
            self.is_first_named(name, k),
        ensures
            self.attribute(name) == Some(self.attributes[k].value),
    {
        let chosen = choose|j: int| self.is_first_named(name, j);
        assert(self.is_first_named(name, chosen));
        if chosen < k {
            assert(self.attributes[chosen].name != name);
        } else if k < chosen {
            assert(self.attributes[k].name != name);
        }
    }
}

impl XmlDocument {
    /// Parses a text, `None` when it is no well-formed document.
    pub fn parse(text: &str) -> (res: Option<XmlDocument>)
        ensures
            match res {
                Some(document) => {
                    &&& parsed_nodes(text@) == Some(document@.nodes)
                    &&& document@.text == text@
                    &&& document@.wf()
                },
                None => parsed_nodes(text@) is None,
            },
    {
        match parse_nodes(text) {
            Some(nodes) => Some(XmlDocument { text: text.to_string(), nodes }),
            None => None,
        }
    }

    /// Whether the node has any child.
    pub fn has_children(&self, node: usize) -> (res: bool)
        requires
            self@.wf(),
            node < self.nodes.len(),
        ensures
            res == self@.has_children(node as int),
    {
        self.next_child(node, node + 1) < self.nodes.len()
    }

    /// Index of the first child of `node` at or after `from`, the number of nodes when there is
    /// none.
    pub fn next_child(&self, node: usize, from: usize) -> (res: usize)
        requires
            self@.wf(),
            node < from <= self.nodes.len(),
        ensures
            from <= res <= self.nodes.len(),
            res < self.nodes.len() ==> self@.is_child(node as int, res as int),
            forall|child: int|
                #[trigger] self@.is_child(node as int, child) ==> child < from || res <= child,
            from == node + 1 ==> (res < self.nodes.len()) == self@.has_children(node as int),
    {
        let mut child: usize = from;
        while child < self.nodes.len() && self.nodes[child].start < self.nodes[node].end
            invariant
                self@.wf(),
                node < from <= child <= self.nodes.len(),
                forall|j: int| from <= j < child ==> !self@.is_child(node as int, j),
            decreases self.nodes.len() - child,
        {
            assert(self@.nodes[child as int] == self.nodes[child as int]@);
            if let Some(parent) = self.nodes[child].parent {
                if parent == node {
                    assert(self@.is_child(node as int, child as int));
                    return child;
                }
            }
            child = child + 1;
        }
        proof {
            assert forall|j: int| #[trigger] self@.is_child(node as int, j) implies node < j < from by {
                assert(self@.nodes[node as int] == self.nodes[node as int]@);
                assert(self@.node_wf(j));
                if child <= j {
                    assert(self@.nodes[child as int] == self.nodes[child as int]@);
                    assert(self@.in_order(child as int, j));
                }
            }
        }
        self.nodes.len()
    }
}

} // verus!
