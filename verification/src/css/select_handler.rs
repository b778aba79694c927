//! The questions a selector matcher asks about a node: its name, its `id`, its
//! parent and its ancestors. The matcher knows the tree through these alone.

use vstd::prelude::*;
use crate::dom::element::str_eq;
use crate::dom::node::AbstractNode;
use crate::dom::tree::Tree;

verus! {

impl Tree {
    /// Whether `n` is an element with the tag name `name`.
    pub open spec fn is_named(&self, n: AbstractNode, name: Seq<char>) -> bool {
        self.tagged_element(n) && self.tag_name(n) == name
    }

    /// The parent of `n`, where it is an element with the tag name `name`.
    pub open spec fn named_parent(&self, n: AbstractNode, name: Seq<char>) -> Option<AbstractNode> {
        match self.parent(n) {
            Some(p) => if self.is_named(p, name) {
                Some(p)
            } else {
                None
            },
            None => None,
        }
    }

    /// The first of `nodes` that is an element with the tag name `name`.
    pub open spec fn first_named(&self, nodes: Seq<AbstractNode>, name: Seq<char>) -> Option<
        AbstractNode,
    >
        decreases nodes.len(),
    {
        if nodes.len() == 0 {
            None
        } else if self.is_named(nodes[0], name) {
            Some(nodes[0])
        } else {
            self.first_named(nodes.skip(1), name)
        }
    }

    /// The nearest ancestor of `n` that is an element with the tag name `name`.
    pub open spec fn named_ancestor(&self, n: AbstractNode, name: Seq<char>) -> Option<
        AbstractNode,
    > {
        self.first_named(self.ancestors(n), name)
    }

    /// `first_named` finds a node exactly when one of the nodes bears the name, and
    /// then it is the first that does.
    pub proof fn lemma_first_named(&self, nodes: Seq<AbstractNode>, name: Seq<char>)
        ensures
            match self.first_named(nodes, name) {
                Some(found) => exists|k: int|
                    {
                        &&& 0 <= k < nodes.len()
                        &&& #[trigger] nodes[k] == found
                        &&& self.is_named(found, name)
                        &&& forall|j: int| 0 <= j < k ==> !self.is_named(#[trigger] nodes[j], name)
                    },
                None => forall|j: int|
                    0 <= j < nodes.len() ==> !self.is_named(#[trigger] nodes[j], name),
            },
        decreases nodes.len(),
    {
        if nodes.len() > 0 {
            if !self.is_named(nodes[0], name) {
                let rest = nodes.skip(1);
                self.lemma_first_named(rest, name);
                match self.first_named(rest, name) {
                    Some(found) => {
                        let k = choose|k: int|
                            {
                                &&& 0 <= k < rest.len()
                                &&& #[trigger] rest[k] == found
                                &&& self.is_named(found, name)
                                &&& forall|j: int|
                                    0 <= j < k ==> !self.is_named(#[trigger] rest[j], name)
                            };
                        assert forall|j: int| 0 <= j < k + 1 implies !self.is_named(
                            #[trigger] nodes[j],
                            name,
                        ) by {
                            if j > 0 {
                                assert(rest[j - 1] == nodes[j]);
                            }
                        }
                    },
                    None => {
                        assert forall|j: int| 0 <= j < nodes.len() implies !self.is_named(
                            #[trigger] nodes[j],
                            name,
                        ) by {
                            if j > 0 {
                                assert(rest[j - 1] == nodes[j]);
                            }
                        }
                    },
                }
            }
        }
    }
}

/// The characters of an optional string.
pub open spec fn chars_of(text: Option<&str>) -> Option<Seq<char>> {
    match text {
        Some(s) => Some(s@),
        None => None,
    }
}

/// Calls `f` with the tag name of `node`, which must be an element.
pub fn with_node_name<R, F: FnOnce(&str) -> R>(tree: &Tree, node: AbstractNode, f: F) -> (r: R)
    requires
        tree.wf(),
        tree.contains(node),
        tree.tagged_element(node),
        forall|name: &str| name@ == tree.tag_name(node) ==> #[trigger] f.requires((name,)),
    ensures
        exists|name: &str| name@ == tree.tag_name(node) && #[trigger] f.ensures((name,), r),
{
    let name = node.as_element(tree).tag_name.as_str();
    f(name)
}

/// Whether `node` is an element with the tag name `name`.
pub fn node_is_named(tree: &Tree, node: AbstractNode, name: &str) -> (named: bool)
    requires
        tree.wf(),
        tree.contains(node),
    ensures
        named == tree.is_named(node, name@),
{
    if !node.is_element(tree) {
        return false;
    }
    let same_name = |node_name: &str| -> (same: bool)
        ensures
            same == (name@ == node_name@),
        { str_eq(name, node_name) };
    with_node_name(tree, node, same_name)
}

/// Answers the selector matcher's questions about the nodes of one tree.
pub struct NodeSelectHandler<'a> {
    pub tree: &'a Tree,
    pub node: AbstractNode,
}

impl<'a> NodeSelectHandler<'a> {
    /// Calls `f` with the tag name of `node`, which must be an element.
    pub fn with_node_name<R, F: FnOnce(&str) -> R>(&self, node: &AbstractNode, f: F) -> (r: R)
        requires
            self.tree.wf(),
            self.tree.contains(*node),
            self.tree.tagged_element(*node),
            forall|name: &str|
                name@ == self.tree.tag_name(*node) ==> #[trigger] f.requires((name,)),
        ensures
            exists|name: &str|
                name@ == self.tree.tag_name(*node) && #[trigger] f.ensures((name,), r),
    {
        with_node_name(self.tree, *node, f)
    }

    /// The parent of `node`, if it has one that is an element called `name`. Looks
    /// no further up than the parent.
    pub fn named_parent_node(&self, node: &AbstractNode, name: &str) -> (found: Option<
        AbstractNode,
    >)
        requires
            self.tree.wf(),
            self.tree.contains(*node),
        ensures
            found == self.tree.named_parent(*node, name@),
    {
        proof {
            assert(self.tree.node_wf(*node));
        }
        match node.parent(self.tree) {
            Some(parent) => {
                if node_is_named(self.tree, parent, name) {
                    Some(parent)
                } else {
                    None
                }
            },
            None => None,
        }
    }

    /// The parent of `node`, whatever it is.
    pub fn parent_node(&self, node: &AbstractNode) -> (parent: Option<AbstractNode>)
        requires
            self.tree.contains(*node),
        ensures
            parent == self.tree.parent(*node),
    {
        node.parent(self.tree)
    }

    /// The nearest ancestor of `node` that is an element called `name`, looking
    /// from the parent upwards to the root.
    pub fn named_ancestor_node(&self, node: &AbstractNode, name: &str) -> (found: Option<
        AbstractNode,
    >)
        requires
            self.tree.wf(),
            self.tree.acyclic(),
            self.tree.contains(*node),
        ensures
            found == self.tree.named_ancestor(*node, name@),
    {
        let mut current = *node;
        loop
            invariant
                self.tree.wf(),
                self.tree.acyclic(),
                self.tree.contains(current),
                self.tree.named_ancestor(*node, name@) == self.tree.named_ancestor(
                    current,
                    name@,
                ),
            decreases self.tree.depth(current),
        {
            proof {
                assert(self.tree.node_wf(current));
                assert(self.tree.rooted(current));
            }
            match current.parent(self.tree) {
                Some(parent) => {
                    proof {
                        assert(self.tree.ancestors(current).skip(1) =~= self.tree.ancestors(
                            parent,
                        ));
                    }
                    if node_is_named(self.tree, parent, name) {
                        return Some(parent);
                    }
                    current = parent;
                },
                None => {
                    return None;
                },
            }
        }
    }

    /// Whether `node` has no parent.
    pub fn node_is_root(&self, node: &AbstractNode) -> (root: bool)
        requires
            self.tree.contains(*node),
        ensures
            root == (self.tree.parent(*node) is None),
    {
        self.parent_node(node).is_none()
    }

    /// Calls `f` with the value of the `id` attribute of `node`, or with nothing
    /// where it has none. `node` must be an element.
    pub fn with_node_id<R, F: FnOnce(Option<&str>) -> R>(&self, node: &AbstractNode, f: F) -> (r: R)
        requires
            self.tree.wf(),
            self.tree.contains(*node),
            self.tree.tagged_element(*node),
            forall|id: Option<&str>|
                chars_of(id) == self.tree.attr(*node, "id"@) ==> #[trigger] f.requires((id,)),
        ensures
            exists|id: Option<&str>|
                chars_of(id) == self.tree.attr(*node, "id"@) && #[trigger] f.ensures((id,), r),
    {
        match node.as_element(self.tree).get_attr("id") {
            Some(value) => f(Some(value.as_str())),
            None => f(None),
        }
    }

    /// Whether `node` has an `id` attribute whose value is exactly `id`. `node` must
    /// be an element.
    pub fn node_has_id(&self, node: &AbstractNode, id: &str) -> (has: bool)
        requires
            self.tree.wf(),
            self.tree.contains(*node),
            self.tree.tagged_element(*node),
        ensures
            has == (self.tree.attr(*node, "id"@) == Some(id@)),
    {
        match node.as_element(self.tree).get_attr("id") {
            None => false,
            Some(existing_id) => str_eq(id, existing_id.as_str()),
        }
    }
}

} // verus!
