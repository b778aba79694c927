//! Tag tests on a handle, and the downcasts that recover a concrete node kind once
//! the tag has been tested.

use vstd::prelude::*;
use vstd::pervasive::unreached;
use crate::dom::element::{Element, ElementTypeId, HTMLImageElement};
use crate::dom::node::{AbstractNode, NodeKind, NodeTypeId, Text};
use crate::dom::tree::Tree;

verus! {

impl Tree {
    /// Whether `n` carries the text tag.
    pub open spec fn tagged_text(&self, n: AbstractNode) -> bool {
        self.record(n).type_id == NodeTypeId::TextNodeTypeId
    }

    /// Whether `n` carries an element tag, of whatever subtype.
    pub open spec fn tagged_element(&self, n: AbstractNode) -> bool {
        self.record(n).type_id is ElementNodeTypeId
    }

    /// Whether `n` carries the tag of the element subtype `id`.
    pub open spec fn tagged_element_of(&self, n: AbstractNode, id: ElementTypeId) -> bool {
        self.record(n).type_id == NodeTypeId::ElementNodeTypeId(id)
    }

    /// The tag name of `n`, where `n` is an element.
    pub open spec fn tag_name(&self, n: AbstractNode) -> Seq<char>
        recommends
            self.tagged_element(n),
    {
        self.kind(n).element().tag_name@
    }

    /// The value of the attribute `name` of `n`, where `n` is an element.
    pub open spec fn attr(&self, n: AbstractNode, name: Seq<char>) -> Option<Seq<char>>
        recommends
            self.tagged_element(n),
    {
        self.kind(n).element().attr(name)
    }
}

impl AbstractNode {
    /// Whether this node carries the text tag.
    pub fn is_text(self, tree: &Tree) -> (yes: bool)
        requires
            tree.contains(self),
        ensures
            yes == tree.tagged_text(self),
    {
        self.as_node(tree).type_id == NodeTypeId::TextNodeTypeId
    }

    /// This node as a text node. The node must carry the text tag.
    pub fn as_text<'a>(&self, tree: &'a Tree) -> (text: &'a Text)
        requires
            tree.wf(),
            tree.contains(*self),
            tree.tagged_text(*self),
        ensures
            tree.kind(*self) == NodeKind::Text(*text),
    {
        proof {
            assert(tree.node_wf(*self));
        }
        match &tree.nodes[self.obj] {
            NodeKind::Text(text) => text,
            _ => unreached(),
        }
    }

    /// Whether this node carries an element tag, of whatever subtype.
    pub fn is_element(self, tree: &Tree) -> (yes: bool)
        requires
            tree.contains(self),
        ensures
            yes == tree.tagged_element(self),
    {
        match self.as_node(tree).type_id {
            NodeTypeId::ElementNodeTypeId(_) => true,
            _ => false,
        }
    }

    /// This node as an element, whatever its subtype. The node must carry an
    /// element tag.
    pub fn as_element<'a>(&self, tree: &'a Tree) -> (element: &'a Element)
        requires
            tree.wf(),
            tree.contains(*self),
            tree.tagged_element(*self),
        ensures
            tree.kind(*self).holds_element(),
            *element == tree.kind(*self).element(),
    {
        proof {
            assert(tree.node_wf(*self));
        }
        match &tree.nodes[self.obj] {
            NodeKind::Element(element) => element,
            NodeKind::Image(image) => &image.parent,
            NodeKind::Style(style) => &style.parent,
            _ => unreached(),
        }
    }

    /// Whether this node carries the tag of an image element.
    pub fn is_image_element(self, tree: &Tree) -> (yes: bool)
        requires
            tree.contains(self),
        ensures
            yes == tree.tagged_element_of(self, ElementTypeId::HTMLImageElementTypeId),
    {
        self.as_node(tree).type_id == NodeTypeId::ElementNodeTypeId(
            ElementTypeId::HTMLImageElementTypeId,
        )
    }

    /// This node as an image element. The node must carry the image tag.
    pub fn as_image_element<'a>(&self, tree: &'a Tree) -> (image: &'a HTMLImageElement)
        requires
            tree.wf(),
            tree.contains(*self),
            tree.tagged_element_of(*self, ElementTypeId::HTMLImageElementTypeId),
        ensures
            tree.kind(*self) == NodeKind::Image(*image),
    {
        proof {
            assert(tree.node_wf(*self));
        }
        match &tree.nodes[self.obj] {
            NodeKind::Image(image) => image,
            _ => unreached(),
        }
    }

    /// Whether this node carries the tag of a style element.
    pub fn is_style_element(self, tree: &Tree) -> (yes: bool)
        requires
            tree.contains(self),
        ensures
            yes == tree.tagged_element_of(self, ElementTypeId::HTMLStyleElementTypeId),
    {
        self.as_node(tree).type_id == NodeTypeId::ElementNodeTypeId(
            ElementTypeId::HTMLStyleElementTypeId,
        )
    }
}

} // verus!
