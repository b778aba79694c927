//! The arena that owns every node of a document, the shape its relation fields must
//! keep, and the one operation that changes that shape.

use vstd::prelude::*;
use crate::dom::node::{AbstractNode, LayoutData, Node, NodeKind};

verus! {

/// The tree that the relation fields spell out, node by node: the ordered children,
/// the place among the siblings, and the chain of ancestors from the parent up to the
/// root. It is kept beside the nodes for the proofs and takes no room at run time.
pub struct Shape {
    pub children: Seq<Seq<AbstractNode>>,
    pub position: Seq<int>,
    pub ancestors: Seq<Seq<AbstractNode>>,
    /// Every chain of ancestors is shorter than this.
    pub height: nat,
}

/// The nodes of one document and the layout records made for them.
pub struct Tree {
    pub nodes: Vec<NodeKind>,
    pub layout: Vec<LayoutData>,
    pub shape: Ghost<Shape>,
}

impl Tree {
    /// The number of nodes.
    pub open spec fn len(&self) -> nat {
        self.nodes@.len()
    }

    /// Whether `n` names a node of this tree.
    pub open spec fn contains(&self, n: AbstractNode) -> bool {
        n.obj < self.nodes@.len()
    }

    /// The node that `n` names.
    pub open spec fn kind(&self, n: AbstractNode) -> NodeKind {
        self.nodes@[n.obj as int]
    }

    /// The record of the node that `n` names.
    pub open spec fn record(&self, n: AbstractNode) -> Node {
        self.kind(n).record()
    }

    /// The parent of `n`, if it has one.
    pub open spec fn parent(&self, n: AbstractNode) -> Option<AbstractNode> {
        self.record(n).parent_node
    }

    /// The children of `n`, first to last.
    pub open spec fn children(&self, n: AbstractNode) -> Seq<AbstractNode> {
        self.shape@.children[n.obj as int]
    }

    /// The index of `n` among the children of its parent.
    pub open spec fn position(&self, n: AbstractNode) -> int {
        self.shape@.position[n.obj as int]
    }

    /// The ancestors of `n`: its parent first, the root last. Meaningful in an
    /// acyclic tree.
    pub open spec fn ancestors(&self, n: AbstractNode) -> Seq<AbstractNode> {
        self.shape@.ancestors[n.obj as int]
    }

    /// The number of ancestors of `n`.
    pub open spec fn depth(&self, n: AbstractNode) -> nat {
        self.ancestors(n).len()
    }

    /// The `j`-th child of `n` is a node whose parent is `n` and whose place is `j`.
    pub open spec fn child_wf(&self, n: AbstractNode, j: int) -> bool {
        let c = self.children(n)[j];
        &&& self.contains(c)
        &&& self.parent(c) == Some(n)
        &&& self.position(c) == j
    }

    /// The relation fields of `n` agree with the children and siblings it has, its
    /// tag can be trusted, and its layout slot names a record that exists.
    pub open spec fn node_wf(&self, n: AbstractNode) -> bool {
        let r = self.record(n);
        let kids = self.children(n);
        &&& r.first_child == (if kids.len() > 0 { Some(kids.first()) } else { None })
        &&& r.last_child == (if kids.len() > 0 { Some(kids.last()) } else { None })
        &&& forall|j: int| 0 <= j < kids.len() ==> #[trigger] self.child_wf(n, j)
        &&& match r.parent_node {
            None => r.prev_sibling is None && r.next_sibling is None,
            Some(p) => {
                let sibs = self.children(p);
                let k = self.position(n);
                &&& self.contains(p)
                &&& 0 <= k < sibs.len()
                &&& sibs[k] == n
                &&& r.prev_sibling == (if k > 0 { Some(sibs[k - 1]) } else { None })
                &&& r.next_sibling == (if k + 1 < sibs.len() { Some(sibs[k + 1]) } else { None })
            },
        }
        &&& self.kind(n).well_tagged()
        &&& r.layout_data matches Some(d) ==> d.slot < self.layout@.len()
    }

    /// The invariant of the tree: every node is well formed, and no two nodes share a
    /// layout record.
    pub open spec fn wf(&self) -> bool {
        &&& self.shape@.children.len() == self.nodes@.len()
        &&& self.shape@.position.len() == self.nodes@.len()
        &&& self.shape@.ancestors.len() == self.nodes@.len()
        &&& forall|n: AbstractNode| self.contains(n) ==> #[trigger] self.node_wf(n)
        &&& forall|a: AbstractNode, b: AbstractNode|
            #![trigger self.record(a), self.record(b)]
            self.contains(a) && self.contains(b) && a != b && self.record(a).layout_data is Some
                ==> self.record(a).layout_data != self.record(b).layout_data
    }

    /// The chain of ancestors of `n` is its parent followed by the parent's chain.
    pub open spec fn rooted(&self, n: AbstractNode) -> bool {
        &&& self.ancestors(n) == (match self.parent(n) {
            None => Seq::<AbstractNode>::empty(),
            Some(p) => seq![p] + self.ancestors(p),
        })
        &&& self.depth(n) < self.shape@.height
    }

    /// No node is its own ancestor: following parents from any node ends at a root.
    pub open spec fn acyclic(&self) -> bool {
        forall|n: AbstractNode| self.contains(n) ==> #[trigger] self.rooted(n)
    }

    /// An empty tree.
    pub fn new() -> (tree: Tree)
        ensures
            tree.wf(),
            tree.acyclic(),
            tree.len() == 0,
            tree.layout@.len() == 0,
    {
        Tree {
            nodes: Vec::new(),
            layout: Vec::new(),
            shape: Ghost(
                Shape {
                    children: Seq::empty(),
                    position: Seq::empty(),
                    ancestors: Seq::empty(),
                    height: 1,
                },
            ),
        }
    }

    /// The number of nodes.
    pub fn node_count(&self) -> (count: usize)
        ensures
            count == self.len(),
    {
        self.nodes.len()
    }

    /// Whether `n` names a node of this tree.
    pub fn has_node(&self, n: AbstractNode) -> (found: bool)
        ensures
            found == self.contains(n),
    {
        n.obj < self.nodes.len()
    }

    /// Overwrites the record of `n`. The caller restores the invariant.
    pub(crate) fn set_node(&mut self, n: AbstractNode, node: Node)
        requires
            old(self).contains(n),
        ensures
            final(self).nodes@ == old(self).nodes@.update(
                n.obj as int,
                old(self).kind(n).with_record(node),
            ),
            final(self).layout == old(self).layout,
            final(self).shape == old(self).shape,
    {
        self.nodes[n.obj].set_node(node);
    }
}

impl Node {
    /// Hands a node over to the tree and returns the handle that names it from then
    /// on. The node starts detached: whatever relations or layout record its record
    /// named are dropped, its tag and everything else are kept. The tag must fit the
    /// kind of the node.
    pub fn as_abstract_node(tree: &mut Tree, node: NodeKind) -> (handle: AbstractNode)
        requires
            old(tree).wf(),
            node.well_tagged(),
        ensures
            final(tree).wf(),
            handle.obj == old(tree).len(),
            final(tree).nodes@ == old(tree).nodes@.push(
                node.with_record(Node::fresh(node.record().type_id)),
            ),
            final(tree).layout@ == old(tree).layout@,
            final(tree).children(handle) == Seq::<AbstractNode>::empty(),
            final(tree).ancestors(handle) == Seq::<AbstractNode>::empty(),
            forall|n: AbstractNode| #[trigger]
                old(tree).contains(n) ==> final(tree).children(n) == old(tree).children(n)
                    && final(tree).ancestors(n) == old(tree).ancestors(n),
            old(tree).acyclic() ==> final(tree).acyclic(),
    {
        let mut node = node;
        let type_id = node.as_node().type_id;
        node.set_node(Node::new(type_id));
        let handle = AbstractNode { obj: tree.nodes.len() };
        tree.nodes.push(node);
        proof {
            let s = tree.shape@;
            tree.shape@ = Shape {
                children: s.children.push(Seq::empty()),
                position: s.position.push(0),
                ancestors: s.ancestors.push(Seq::empty()),
                height: s.height + 1,
            };
            assert forall|n: AbstractNode| tree.contains(n) implies #[trigger] tree.node_wf(n) by {
                if n != handle {
                    assert(old(tree).node_wf(n));
                    assert forall|j: int| 0 <= j < tree.children(n).len() implies #[trigger]
                        tree.child_wf(n, j) by {
                        assert(old(tree).child_wf(n, j));
                    }
                }
            }
            assert forall|a: AbstractNode, b: AbstractNode|
                #![trigger tree.record(a), tree.record(b)]
                tree.contains(a) && tree.contains(b) && a != b && tree.record(
                    a,
                ).layout_data is Some implies tree.record(a).layout_data != tree.record(
                b,
            ).layout_data by {
                if a != handle && b != handle {
                    assert(old(tree).record(a) == tree.record(a));
                    assert(old(tree).record(b) == tree.record(b));
                }
            }
            if old(tree).acyclic() {
                assert forall|n: AbstractNode| tree.contains(n) implies #[trigger] tree.rooted(
                    n,
                ) by {
                    if n != handle {
                        assert(old(tree).rooted(n));
                        assert(old(tree).node_wf(n));
                    }
                }
            }
        }
        handle
    }
}

impl AbstractNode {
    /// The record of this node.
    pub fn as_node<'a>(&self, tree: &'a Tree) -> (node: &'a Node)
        requires
            tree.contains(*self),
        ensures
            *node == tree.record(*self),
    {
        tree.nodes[self.obj].as_node()
    }

    /// The tag of this node.
    pub fn type_id(self, tree: &Tree) -> (id: crate::dom::node::NodeTypeId)
        requires
            tree.contains(self),
        ensures
            id == tree.record(self).type_id,
    {
        self.as_node(tree).type_id
    }

    /// The parent of this node, if it has one.
    pub fn parent(self, tree: &Tree) -> (node: Option<AbstractNode>)
        requires
            tree.contains(self),
        ensures
            node == tree.record(self).parent_node,
    {
        self.as_node(tree).parent_node
    }

    /// The first child of this node, if it has children.
    pub fn first_child(self, tree: &Tree) -> (node: Option<AbstractNode>)
        requires
            tree.contains(self),
        ensures
            node == tree.record(self).first_child,
    {
        self.as_node(tree).first_child
    }

    /// The last child of this node, if it has children.
    pub fn last_child(self, tree: &Tree) -> (node: Option<AbstractNode>)
        requires
            tree.contains(self),
        ensures
            node == tree.record(self).last_child,
    {
        self.as_node(tree).last_child
    }

    /// The sibling in front of this node, if there is one.
    pub fn prev_sibling(self, tree: &Tree) -> (node: Option<AbstractNode>)
        requires
            tree.contains(self),
        ensures
            node == tree.record(self).prev_sibling,
    {
        self.as_node(tree).prev_sibling
    }

    /// The sibling behind this node, if there is one.
    pub fn next_sibling(self, tree: &Tree) -> (node: Option<AbstractNode>)
        requires
            tree.contains(self),
        ensures
            node == tree.record(self).next_sibling,
    {
        self.as_node(tree).next_sibling
    }

    /// Whether this node has no children.
    pub fn is_leaf(self, tree: &Tree) -> (leaf: bool)
        requires
            tree.contains(self),
        ensures
            leaf == (tree.record(self).first_child is None),
            tree.wf() ==> leaf == (tree.children(self).len() == 0),
    {
        proof {
            if tree.wf() {
                assert(tree.node_wf(self));
            }
        }
        self.first_child(tree).is_none()
    }
}

impl Tree {
    /// Whether `child` may be appended to `parent`: both are nodes of the tree, they
    /// differ, and `child` has neither parent nor siblings.
    pub open spec fn can_append(&self, parent: AbstractNode, child: AbstractNode) -> bool {
        &&& self.contains(parent)
        &&& self.contains(child)
        &&& parent != child
        &&& self.record(child).parent_node is None
        &&& self.record(child).prev_sibling is None
        &&& self.record(child).next_sibling is None
    }

    /// The record of `n` once `child` has been appended to `parent`.
    pub open spec fn appended_record(
        &self,
        parent: AbstractNode,
        child: AbstractNode,
        n: AbstractNode,
    ) -> Node {
        let r = self.record(n);
        let last = self.record(parent).last_child;
        Node {
            parent_node: if n == child { Some(parent) } else { r.parent_node },
            prev_sibling: if n == child { last } else { r.prev_sibling },
            next_sibling: if last == Some(n) { Some(child) } else { r.next_sibling },
            first_child: if n == parent && r.first_child is None { Some(child) } else { r.first_child },
            last_child: if n == parent { Some(child) } else { r.last_child },
            type_id: r.type_id,
            layout_data: r.layout_data,
        }
    }

    /// The nodes once `child` has been appended to `parent`: every node keeps what it
    /// holds but for the relations in its record.
    pub open spec fn appended_nodes(&self, parent: AbstractNode, child: AbstractNode) -> Seq<
        NodeKind,
    > {
        Seq::new(
            self.nodes@.len(),
            |i: int|
                self.nodes@[i].with_record(
                    self.appended_record(parent, child, AbstractNode { obj: i as usize }),
                ),
        )
    }

    /// Whether `n` lies in the subtree of `top`, as far as the ancestor chains say.
    pub open spec fn within(&self, top: AbstractNode, n: AbstractNode) -> bool {
        n == top || self.ancestors(n).contains(top)
    }

    /// The shape once `child` has been appended to `parent`: `child` is the new last
    /// child of `parent`, and, unless that closes a cycle, the subtree of `child`
    /// gains `parent` and its ancestors as further ancestors.
    pub open spec fn appended_shape(&self, parent: AbstractNode, child: AbstractNode) -> Shape {
        let s = self.shape@;
        Shape {
            children: s.children.update(parent.obj as int, self.children(parent).push(child)),
            position: s.position.update(child.obj as int, self.children(parent).len() as int),
            ancestors: if self.acyclic() && !self.within(child, parent) {
                Seq::new(
                    s.ancestors.len(),
                    |i: int|
                        if self.within(child, AbstractNode { obj: i as usize }) {
                            s.ancestors[i] + seq![parent] + self.ancestors(parent)
                        } else {
                            s.ancestors[i]
                        },
                )
            } else {
                s.ancestors
            },
            height: s.height + s.height,
        }
    }

    /// Appending keeps every node well formed.
    pub proof fn lemma_append_keeps_wf(&self, after: &Tree, parent: AbstractNode, child: AbstractNode)
        requires
            self.wf(),
            self.can_append(parent, child),
            after.nodes@ == self.appended_nodes(parent, child),
            after.layout@ == self.layout@,
            after.shape@ == self.appended_shape(parent, child),
        ensures
            after.wf(),
    {
        let old_kids = self.children(parent);
        assert(self.node_wf(parent));
        assert forall|n: AbstractNode| after.contains(n) implies #[trigger] after.node_wf(n) by {
            assert(self.node_wf(n));
            let kids = after.children(n);
            assert forall|j: int| 0 <= j < kids.len() implies #[trigger] after.child_wf(n, j) by {
                if n != parent || j != old_kids.len() {
                    assert(self.child_wf(n, j));
                }
            }
            if old_kids.len() > 0 {
                assert(self.child_wf(parent, old_kids.len() - 1));
            }
        }
    }
}

/// A value occurs in a sequence with one more element in front exactly when it is that
/// element or occurs in the rest.
pub proof fn lemma_contains_front(head: AbstractNode, rest: Seq<AbstractNode>, x: AbstractNode)
    ensures
        (seq![head] + rest).contains(x) <==> head == x || rest.contains(x),
{
    let s = seq![head] + rest;
    if head == x {
        assert(s[0] == x);
    }
    if rest.contains(x) {
        let i = choose|i: int| 0 <= i < rest.len() && rest[i] == x;
        assert(s[i + 1] == x);
    }
}

impl Tree {
    /// Appending a root below a node outside its own subtree closes no cycle.
    pub proof fn lemma_append_keeps_acyclic(
        &self,
        after: &Tree,
        parent: AbstractNode,
        child: AbstractNode,
    )
        requires
            self.wf(),
            self.acyclic(),
            self.can_append(parent, child),
            !self.within(child, parent),
            after.nodes@ == self.appended_nodes(parent, child),
            after.shape@ == self.appended_shape(parent, child),
        ensures
            after.acyclic(),
    {
        assert(self.rooted(parent));
        assert forall|n: AbstractNode| after.contains(n) implies #[trigger] after.rooted(n) by {
            assert(self.rooted(n));
            assert(self.node_wf(n));
            if n != child && self.parent(n) is Some {
                let p = self.parent(n)->0;
                lemma_contains_front(p, self.ancestors(p), child);
                if self.within(child, n) {
                    assert(after.ancestors(n) =~= seq![p] + after.ancestors(p));
                }
            }
        }
    }
}

impl AbstractNode {
    /// Makes `child` the last child of this node.
    ///
    /// `child` must be another node than this one and must have neither a parent nor
    /// siblings. It becomes the last child; the former last child, if there was one,
    /// becomes its previous sibling. Nothing else changes.
    pub fn append_child(self, tree: &mut Tree, child: AbstractNode)
        requires
            old(tree).wf(),
            old(tree).can_append(self, child),
        ensures
            final(tree).wf(),
            final(tree).nodes@ == old(tree).appended_nodes(self, child),
            final(tree).layout@ == old(tree).layout@,
            final(tree).shape@ == old(tree).appended_shape(self, child),
            final(tree).parent(child) == Some(self),
            final(tree).record(self).last_child == Some(child),
            final(tree).children(self) == old(tree).children(self).push(child),
            final(tree).reaches_child(self, child),
            old(tree).acyclic() ==> (final(tree).acyclic() <==> !old(tree).within(child, self)),
    {
        let ghost before = *tree;
        let last = self.last_child(tree);
        let c = *child.as_node(tree);
        tree.set_node(child, Node { parent_node: Some(self), prev_sibling: last, ..c });
        match last {
            Some(l) => {
                proof {
                    assert(before.node_wf(self));
                    assert(before.child_wf(self, before.children(self).len() - 1));
                }
                let r = *l.as_node(tree);
                tree.set_node(l, Node { next_sibling: Some(child), ..r });
            },
            None => {},
        }
        let p = *self.as_node(tree);
        let first = if p.first_child.is_none() {
            Some(child)
        } else {
            p.first_child
        };
        tree.set_node(self, Node { first_child: first, last_child: Some(child), ..p });
        proof {
            tree.shape@ = before.appended_shape(self, child);
            assert(tree.nodes@.len() == tree.nodes.len());
            assert(tree.nodes@ =~= before.appended_nodes(self, child));
            before.lemma_append_keeps_wf(tree, self, child);
            before.lemma_appended_child_is_reachable(tree, self, child);
            if before.acyclic() {
                if before.within(child, self) {
                    before.lemma_append_below_descendant_closes_cycle(tree, self, child);
                } else {
                    before.lemma_append_keeps_acyclic(tree, self, child);
                }
            }
        }
    }
}

/// Why a node was not appended.
#[derive(Clone, Copy, PartialEq, Eq, Structural, Debug)]
pub enum AppendError {
    /// The node was to become its own child.
    SelfAttachment,
    /// The node to append has a parent or siblings already.
    AlreadyAttached,
}

impl AbstractNode {
    /// Appends `child` as `append_child` does where that is allowed, and otherwise
    /// says why not and leaves the tree as it was.
    pub fn try_append_child(self, tree: &mut Tree, child: AbstractNode) -> (done: Result<
        (),
        AppendError,
    >)
        requires
            old(tree).wf(),
            old(tree).contains(self),
            old(tree).contains(child),
        ensures
            final(tree).wf(),
            done is Ok <==> old(tree).can_append(self, child),
            done == Err::<(), AppendError>(AppendError::SelfAttachment) <==> self == child,
            done is Err ==> *final(tree) == *old(tree),
            done is Ok ==> {
                &&& final(tree).nodes@ == old(tree).appended_nodes(self, child)
                &&& final(tree).layout@ == old(tree).layout@
                &&& final(tree).shape@ == old(tree).appended_shape(self, child)
                &&& final(tree).parent(child) == Some(self)
                &&& final(tree).record(self).last_child == Some(child)
                &&& final(tree).children(self) == old(tree).children(self).push(child)
                &&& final(tree).reaches_child(self, child)
                &&& old(tree).acyclic() ==> (final(tree).acyclic() <==> !old(tree).within(
                    child,
                    self,
                ))
            },
    {
        if self == child {
            return Err(AppendError::SelfAttachment);
        }
        let c = child.as_node(tree);
        if c.parent_node.is_some() || c.prev_sibling.is_some() || c.next_sibling.is_some() {
            return Err(AppendError::AlreadyAttached);
        }
        self.append_child(tree, child);
        Ok(())
    }
}

impl Tree {
    /// The relations of a node agree with one another and with those of the nodes
    /// they name: a node without a parent has no siblings; a node has a first child
    /// exactly when it has a last child; its first child has no previous and its last
    /// child no next sibling, and both name it as their parent; and its next and
    /// previous siblings name it back and share its parent.
    pub proof fn lemma_relations_agree(&self, n: AbstractNode)
        requires
            self.wf(),
            self.contains(n),
        ensures
            self.record(n).parent_node is None ==> self.record(n).prev_sibling is None
                && self.record(n).next_sibling is None,
            self.record(n).first_child is None <==> self.record(n).last_child is None,
            self.record(n).first_child matches Some(c) ==> self.contains(c) && self.parent(c)
                == Some(n) && self.record(c).prev_sibling is None,
            self.record(n).last_child matches Some(c) ==> self.contains(c) && self.parent(c)
                == Some(n) && self.record(c).next_sibling is None,
            self.record(n).next_sibling matches Some(m) ==> self.contains(m) && self.parent(m)
                == self.parent(n) && self.record(m).prev_sibling == Some(n),
            self.record(n).prev_sibling matches Some(m) ==> self.contains(m) && self.parent(m)
                == self.parent(n) && self.record(m).next_sibling == Some(n),
    {
        assert(self.node_wf(n));
        let kids = self.children(n);
        if kids.len() > 0 {
            assert(self.child_wf(n, 0));
            assert(self.child_wf(n, kids.len() - 1));
            assert(self.node_wf(kids[0]));
            assert(self.node_wf(kids.last()));
        }
        match self.record(n).parent_node {
            Some(p) => {
                assert(self.node_wf(p));
                let sibs = self.children(p);
                let k = self.position(n);
                if k > 0 {
                    assert(self.child_wf(p, k - 1));
                    assert(self.node_wf(sibs[k - 1]));
                }
                if k + 1 < sibs.len() {
                    assert(self.child_wf(p, k + 1));
                    assert(self.node_wf(sibs[k + 1]));
                }
            },
            None => {},
        }
    }

    /// The node reached from `n` by following `next_sibling` `steps` times, if the
    /// chain is that long.
    pub open spec fn nth_next_sibling(&self, n: AbstractNode, steps: nat) -> Option<AbstractNode>
        decreases steps,
    {
        if steps == 0 {
            Some(n)
        } else {
            match self.nth_next_sibling(n, (steps - 1) as nat) {
                Some(m) => self.record(m).next_sibling,
                None => None,
            }
        }
    }

    /// Whether following `next_sibling` from the first child of `parent`, zero or more
    /// times, arrives at `child`.
    pub open spec fn reaches_child(&self, parent: AbstractNode, child: AbstractNode) -> bool {
        match self.record(parent).first_child {
            Some(first) => exists|steps: nat| #[trigger]
                self.nth_next_sibling(first, steps) == Some(child),
            None => false,
        }
    }

    /// The children of a node are what following `next_sibling` from its first child
    /// yields, in that order, and the chain ends behind the last child.
    pub proof fn lemma_children_are_sibling_chain(&self, n: AbstractNode, i: nat)
        requires
            self.wf(),
            self.contains(n),
            i <= self.children(n).len(),
            self.children(n).len() > 0,
        ensures
            self.record(n).first_child == Some(self.children(n)[0]),
            self.record(n).last_child == Some(self.children(n).last()),
            self.nth_next_sibling(self.children(n)[0], i) == (if i < self.children(n).len() {
                Some(self.children(n)[i as int])
            } else {
                None
            }),
        decreases i,
    {
        assert(self.node_wf(n));
        if i > 0 {
            self.lemma_children_are_sibling_chain(n, (i - 1) as nat);
            let c = self.children(n)[i - 1];
            assert(self.child_wf(n, i - 1));
            assert(self.node_wf(c));
        }
    }

    /// After `child` has been appended to `parent`, its parent is `parent`, it is the
    /// last child of `parent`, and following `next_sibling` from the first child of
    /// `parent` reaches it.
    pub proof fn lemma_appended_child_is_reachable(
        &self,
        after: &Tree,
        parent: AbstractNode,
        child: AbstractNode,
    )
        requires
            self.wf(),
            self.can_append(parent, child),
            after.nodes@ == self.appended_nodes(parent, child),
            after.layout@ == self.layout@,
            after.shape@ == self.appended_shape(parent, child),
        ensures
            after.record(child).parent_node == Some(parent),
            after.record(parent).last_child == Some(child),
            after.reaches_child(parent, child),
    {
        self.lemma_append_keeps_wf(after, parent, child);
        let steps = self.children(parent).len();
        after.lemma_children_are_sibling_chain(parent, steps);
    }
}

} // verus!
