//! The node record, the handle that names a node, and the basic node kinds.

use vstd::prelude::*;
use crate::dom::element::{Element, ElementTypeId, HTMLImageElement, HTMLStyleElement};

verus! {

/// A handle on one node of a tree. Handles are small copyable values; two handles
/// are equal exactly when they name the same node.
#[derive(Clone, Copy, PartialEq, Eq, Structural, Debug)]
pub struct AbstractNode {
    pub obj: usize,
}

/// The tag that says which kind of node a record belongs to.
#[derive(Clone, Copy, PartialEq, Eq, Structural, Debug)]
pub enum NodeTypeId {
    DoctypeNodeTypeId,
    CommentNodeTypeId,
    ElementNodeTypeId(ElementTypeId),
    TextNodeTypeId,
}

/// A handle on the result of selector matching, kept by the style system.
#[derive(Clone, Copy, PartialEq, Eq, Structural, Debug)]
pub struct SelectResultsId {
    pub id: usize,
}

/// A handle on a flow of the layout tree, kept by the layout system.
#[derive(Clone, Copy, PartialEq, Eq, Structural, Debug)]
pub struct FlowId {
    pub id: usize,
}

/// What layout knows about one node: the matched style and the flow built from it.
#[derive(Clone, Copy, PartialEq, Eq, Structural, Debug)]
pub struct LayoutData {
    pub style: Option<SelectResultsId>,
    pub flow: Option<FlowId>,
}

impl LayoutData {
    /// The empty record: neither style nor flow.
    pub open spec fn empty() -> LayoutData {
        LayoutData { style: None, flow: None }
    }

    /// A record with neither style nor flow.
    pub fn new() -> (data: LayoutData)
        ensures
            data == LayoutData::empty(),
    {
        LayoutData { style: None, flow: None }
    }
}

/// A shared reference to a layout record of a tree. The node it was made for holds
/// one copy; the layout pass keeps another among its roots.
#[derive(Clone, Copy, PartialEq, Eq, Structural, Debug)]
pub struct LayoutDataRef {
    pub slot: usize,
}

/// The fixed-shape part of every node: its tag, its five relations and the slot for
/// layout's record.
#[derive(Clone, Copy, Debug)]
pub struct Node {
    pub type_id: NodeTypeId,
    pub parent_node: Option<AbstractNode>,
    pub first_child: Option<AbstractNode>,
    pub last_child: Option<AbstractNode>,
    pub next_sibling: Option<AbstractNode>,
    pub prev_sibling: Option<AbstractNode>,
    /// Written by layout only.
    pub layout_data: Option<LayoutDataRef>,
}

impl Node {
    /// The record of a node that has no relations and no layout record.
    pub open spec fn fresh(type_id: NodeTypeId) -> Node {
        Node {
            type_id,
            parent_node: None,
            first_child: None,
            last_child: None,
            next_sibling: None,
            prev_sibling: None,
            layout_data: None,
        }
    }

    /// A record with the given tag, no relations and no layout record.
    pub fn new(type_id: NodeTypeId) -> (node: Node)
        ensures
            node == Node::fresh(type_id),
    {
        Node {
            type_id,
            parent_node: None,
            first_child: None,
            last_child: None,
            next_sibling: None,
            prev_sibling: None,
            layout_data: None,
        }
    }
}

/// A document type declaration.
pub struct Doctype {
    pub parent: Node,
    pub name: String,
    pub public_id: Option<String>,
    pub system_id: Option<String>,
    pub force_quirks: bool,
}

impl Doctype {
    /// A detached document type declaration.
    pub fn new(
        name: String,
        public_id: Option<String>,
        system_id: Option<String>,
        force_quirks: bool,
    ) -> (doctype: Doctype)
        ensures
            doctype.parent == Node::fresh(NodeTypeId::DoctypeNodeTypeId),
            doctype.name == name,
            doctype.public_id == public_id,
            doctype.system_id == system_id,
            doctype.force_quirks == force_quirks,
    {
        Doctype {
            parent: Node::new(NodeTypeId::DoctypeNodeTypeId),
            name,
            public_id,
            system_id,
            force_quirks,
        }
    }
}

/// A comment.
pub struct Comment {
    pub parent: Node,
    pub text: String,
}

impl Comment {
    /// A detached comment.
    pub fn new(text: String) -> (comment: Comment)
        ensures
            comment.parent == Node::fresh(NodeTypeId::CommentNodeTypeId),
            comment.text == text,
    {
        Comment { parent: Node::new(NodeTypeId::CommentNodeTypeId), text }
    }
}

/// A run of character data.
pub struct Text {
    pub parent: Node,
    pub text: String,
}

impl Text {
    /// A detached text node. Its record carries the comment tag, so that the tag
    /// tests see a node that is neither text nor element.
    pub fn new(text: String) -> (node: Text)
        ensures
            node.parent == Node::fresh(NodeTypeId::CommentNodeTypeId),
            node.text == text,
    {
        Text { parent: Node::new(NodeTypeId::CommentNodeTypeId), text }
    }
}

/// A node as the tree stores it: one of the concrete kinds, each of which embeds
/// the node record.
pub enum NodeKind {
    Doctype(Doctype),
    Comment(Comment),
    Text(Text),
    Element(Element),
    Image(HTMLImageElement),
    Style(HTMLStyleElement),
}

impl NodeKind {
    /// The node record embedded in this node.
    pub open spec fn record(self) -> Node {
        match self {
            NodeKind::Doctype(d) => d.parent,
            NodeKind::Comment(c) => c.parent,
            NodeKind::Text(t) => t.parent,
            NodeKind::Element(e) => e.parent,
            NodeKind::Image(i) => i.parent.parent,
            NodeKind::Style(s) => s.parent.parent,
        }
    }

    /// This node with its record replaced and everything else kept.
    pub open spec fn with_record(self, node: Node) -> NodeKind {
        match self {
            NodeKind::Doctype(d) => NodeKind::Doctype(Doctype { parent: node, ..d }),
            NodeKind::Comment(c) => NodeKind::Comment(Comment { parent: node, ..c }),
            NodeKind::Text(t) => NodeKind::Text(Text { parent: node, ..t }),
            NodeKind::Element(e) => NodeKind::Element(Element { parent: node, ..e }),
            NodeKind::Image(i) => NodeKind::Image(
                HTMLImageElement { parent: Element { parent: node, ..i.parent }, ..i },
            ),
            NodeKind::Style(s) => NodeKind::Style(
                HTMLStyleElement { parent: Element { parent: node, ..s.parent } },
            ),
        }
    }

    /// Whether this node is stored as an element of any subtype.
    pub open spec fn holds_element(self) -> bool {
        self is Element || self is Image || self is Style
    }

    /// The element part of a node stored as an element.
    pub open spec fn element(self) -> Element
        recommends
            self.holds_element(),
    {
        match self {
            NodeKind::Image(i) => i.parent,
            NodeKind::Style(s) => s.parent,
            NodeKind::Element(e) => e,
            _ => arbitrary(),
        }
    }

    /// Whether the tag in the record may be trusted by the downcasts: a text tag
    /// stands on a text node only, an element tag on an element only, and the image
    /// and style tags on nodes of exactly that subtype.
    pub open spec fn well_tagged(self) -> bool {
        match self.record().type_id {
            NodeTypeId::TextNodeTypeId => self is Text,
            NodeTypeId::ElementNodeTypeId(ElementTypeId::HTMLImageElementTypeId) => self is Image,
            NodeTypeId::ElementNodeTypeId(ElementTypeId::HTMLStyleElementTypeId) => self is Style,
            NodeTypeId::ElementNodeTypeId(_) => self.holds_element(),
            _ => true,
        }
    }

    /// Replacing the record reads back what was written, the last write wins, and
    /// writing the record that is there changes nothing.
    pub proof fn lemma_with_record(self, a: Node, b: Node)
        ensures
            self.with_record(a).record() == a,
            self.with_record(a).with_record(b) == self.with_record(b),
            self.with_record(self.record()) == self,
    {
    }

    /// The node record embedded in this node.
    pub fn as_node(&self) -> (node: &Node)
        ensures
            *node == self.record(),
    {
        match self {
            NodeKind::Doctype(d) => &d.parent,
            NodeKind::Comment(c) => &c.parent,
            NodeKind::Text(t) => &t.parent,
            NodeKind::Element(e) => &e.parent,
            NodeKind::Image(i) => &i.parent.parent,
            NodeKind::Style(s) => &s.parent.parent,
        }
    }

    /// Overwrites the embedded record.
    pub fn set_node(&mut self, node: Node)
        ensures
            *final(self) == old(self).with_record(node),
    {
        match self {
            NodeKind::Doctype(d) => {
                d.parent = node;
            },
            NodeKind::Comment(c) => {
                c.parent = node;
            },
            NodeKind::Text(t) => {
                t.parent = node;
            },
            NodeKind::Element(e) => {
                e.parent = node;
            },
            NodeKind::Image(i) => {
                i.parent.parent = node;
            },
            NodeKind::Style(s) => {
                s.parent.parent = node;
            },
        }
    }

    /// Tests at run time what `well_tagged` states.
    pub fn is_well_tagged(&self) -> (ok: bool)
        ensures
            ok == self.well_tagged(),
    {
        match self.as_node().type_id {
            NodeTypeId::TextNodeTypeId => matches!(self, NodeKind::Text(_)),
            NodeTypeId::ElementNodeTypeId(ElementTypeId::HTMLImageElementTypeId) => matches!(
                self,
                NodeKind::Image(_)
            ),
            NodeTypeId::ElementNodeTypeId(ElementTypeId::HTMLStyleElementTypeId) => matches!(
                self,
                NodeKind::Style(_)
            ),
            NodeTypeId::ElementNodeTypeId(_) => matches!(
                self,
                NodeKind::Element(_) | NodeKind::Image(_) | NodeKind::Style(_)
            ),
            _ => true,
        }
    }
}

} // verus!
