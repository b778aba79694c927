//! Walking the tree: over the children of a node, and over a subtree in pre-order
//! or post-order, with a visitor that may stop the walk.

use vstd::prelude::*;
use crate::dom::node::AbstractNode;
use crate::dom::tree::Tree;

verus! {

/// What a walk calls on each node it comes to. A visitor has a state of its own, may
/// look at the tree, and answers whether the walk goes on.
pub trait NodeVisitor {
    /// The state of the visitor as the contracts see it.
    type State;

    spec fn state(&self) -> Self::State;

    /// The state after a visit of `node` in state `s`, and whether the walk goes on.
    spec fn step(s: Self::State, tree: &Tree, node: AbstractNode) -> (Self::State, bool);

    fn visit(&mut self, tree: &Tree, node: AbstractNode) -> (go_on: bool)
        requires
            tree.wf(),
            tree.contains(node),
        ensures
            (final(self).state(), go_on) == Self::step(old(self).state(), tree, node),
    ;
}

/// The outcome of visiting `nodes` one after the other from state `s`, up to and
/// including the first node at which the visitor stops: the state reached, and
/// whether every node was visited without a stop.
pub open spec fn visit_seq<V: NodeVisitor>(s: V::State, tree: &Tree, nodes: Seq<AbstractNode>) -> (
    V::State,
    bool,
)
    decreases nodes.len(),
{
    if nodes.len() == 0 {
        (s, true)
    } else {
        let (next, go_on) = V::step(s, tree, nodes[0]);
        if go_on {
            visit_seq::<V>(next, tree, nodes.skip(1))
        } else {
            (next, false)
        }
    }
}

/// Visiting two runs of nodes back to back is visiting the first and, unless the
/// visitor stopped there, the second from the state then reached.
pub proof fn lemma_visit_seq_concat<V: NodeVisitor>(
    s: V::State,
    tree: &Tree,
    a: Seq<AbstractNode>,
    b: Seq<AbstractNode>,
)
    ensures
        visit_seq::<V>(s, tree, a + b) == (if visit_seq::<V>(s, tree, a).1 {
            visit_seq::<V>(visit_seq::<V>(s, tree, a).0, tree, b)
        } else {
            (visit_seq::<V>(s, tree, a).0, false)
        }),
    decreases a.len(),
{
    if a.len() > 0 {
        let (next, go_on) = V::step(s, tree, a[0]);
        assert((a + b).skip(1) =~= a.skip(1) + b);
        if go_on {
            lemma_visit_seq_concat::<V>(next, tree, a.skip(1), b);
        }
    }
}

/// Visiting a single node is one step of the visitor.
pub proof fn lemma_visit_seq_one<V: NodeVisitor>(s: V::State, tree: &Tree, n: AbstractNode)
    ensures
        visit_seq::<V>(s, tree, seq![n]) == V::step(s, tree, n),
{
    let (next, go_on) = V::step(s, tree, n);
    assert(seq![n].skip(1) =~= Seq::<AbstractNode>::empty());
    assert(visit_seq::<V>(next, tree, Seq::<AbstractNode>::empty()) == (next, true));
}

impl Tree {
    /// The measure that shrinks on the way from a node down to its children.
    pub open spec fn levels_below(&self, n: AbstractNode) -> int {
        self.shape@.height - self.depth(n)
    }

    /// A child lies one level deeper than its parent.
    pub proof fn lemma_child_is_deeper(&self, n: AbstractNode, i: int)
        requires
            self.wf(),
            self.acyclic(),
            self.contains(n),
            0 <= i < self.children(n).len(),
        ensures
            self.contains(self.children(n)[i]),
            self.parent(self.children(n)[i]) == Some(n),
            self.depth(self.children(n)[i]) == self.depth(n) + 1,
            0 < self.levels_below(self.children(n)[i]) < self.levels_below(n),
    {
        assert(self.node_wf(n));
        assert(self.child_wf(n, i));
        assert(self.rooted(self.children(n)[i]));
    }

    /// The subtrees of the children of `n` from the `i`-th child on, in pre-order,
    /// one after the other.
    pub open spec fn preorder_from(&self, n: AbstractNode, i: nat) -> Seq<AbstractNode>
        decreases self.levels_below(n), self.children(n).len() - i,
        when self.wf() && self.acyclic() && self.contains(n)
    {
        if i >= self.children(n).len() {
            Seq::empty()
        } else {
            let c = self.children(n)[i as int];
            proof {
                self.lemma_child_is_deeper(n, i as int);
            }
            (seq![c] + self.preorder_from(c, 0)) + self.preorder_from(n, i + 1)
        }
    }

    /// The subtree of `n` in pre-order: `n`, then the subtree of each child in turn.
    pub open spec fn preorder(&self, n: AbstractNode) -> Seq<AbstractNode> {
        seq![n] + self.preorder_from(n, 0)
    }

    /// The subtrees of the children of `n` from the `i`-th child on, in post-order,
    /// one after the other.
    pub open spec fn postorder_from(&self, n: AbstractNode, i: nat) -> Seq<AbstractNode>
        decreases self.levels_below(n), self.children(n).len() - i,
        when self.wf() && self.acyclic() && self.contains(n)
    {
        if i >= self.children(n).len() {
            Seq::empty()
        } else {
            let c = self.children(n)[i as int];
            proof {
                self.lemma_child_is_deeper(n, i as int);
            }
            (self.postorder_from(c, 0) + seq![c]) + self.postorder_from(n, i + 1)
        }
    }

    /// The subtree of `n` in post-order: the subtree of each child in turn, then `n`.
    pub open spec fn postorder(&self, n: AbstractNode) -> Seq<AbstractNode> {
        self.postorder_from(n, 0) + seq![n]
    }
}

impl Tree {
    /// The order of a walk depends on the shape of the tree alone: two trees of one
    /// shape are walked in the same order.
    pub proof fn lemma_walk_depends_on_shape(&self, other: &Tree, n: AbstractNode, i: nat)
        requires
            self.wf(),
            self.acyclic(),
            other.wf(),
            other.acyclic(),
            self.shape@ == other.shape@,
            self.len() == other.len(),
            self.contains(n),
        ensures
            self.preorder_from(n, i) == other.preorder_from(n, i),
            self.postorder_from(n, i) == other.postorder_from(n, i),
        decreases self.levels_below(n), self.children(n).len() - i,
    {
        if i < self.children(n).len() {
            let c = self.children(n)[i as int];
            other.lemma_child_is_deeper(n, i as int);
            self.lemma_walk_depends_on_shape(other, c, 0);
            self.lemma_walk_depends_on_shape(other, n, i + 1);
        }
    }
}

impl AbstractNode {
    /// Visits the children of this node from the first to the last, and stops behind
    /// the first child at which the visitor says so.
    pub fn each_child<V: NodeVisitor>(self, tree: &Tree, visitor: &mut V)
        requires
            tree.wf(),
            tree.contains(self),
        ensures
            final(visitor).state() == visit_seq::<V>(
                old(visitor).state(),
                tree,
                tree.children(self),
            ).0,
    {
        let ghost kids = tree.children(self);
        let ghost start = visitor.state();
        let ghost mut i: int = 0;
        let mut current_opt = self.first_child(tree);
        proof {
            assert(tree.node_wf(self));
            assert(kids.skip(0) =~= kids);
        }
        while current_opt.is_some()
            invariant_except_break
                visit_seq::<V>(start, tree, kids) == visit_seq::<V>(
                    visitor.state(),
                    tree,
                    kids.skip(i),
                ),
            invariant
                tree.wf(),
                tree.contains(self),
                kids == tree.children(self),
                0 <= i <= kids.len(),
                current_opt == (if i < kids.len() { Some(kids[i]) } else { None }),
            ensures
                visit_seq::<V>(start, tree, kids).0 == visitor.state(),
            decreases kids.len() - i,
        {
            let current = current_opt.unwrap();
            proof {
                assert(tree.node_wf(self));
                assert(tree.child_wf(self, i));
                assert(tree.node_wf(current));
                assert(kids.skip(i).skip(1) =~= kids.skip(i + 1));
            }
            if !visitor.visit(tree, current) {
                break ;
            }
            current_opt = current.next_sibling(tree);
            proof {
                i = i + 1;
            }
        }
    }

    /// Visits this node, then the subtree of each child in turn. Answers `false` as
    /// soon as the visitor stops, and visits nothing after that; answers `true` when
    /// the whole subtree has been visited.
    pub fn traverse_preorder<V: NodeVisitor>(self, tree: &Tree, visitor: &mut V) -> (go_on: bool)
        requires
            tree.wf(),
            tree.acyclic(),
            tree.contains(self),
        ensures
            (final(visitor).state(), go_on) == visit_seq::<V>(
                old(visitor).state(),
                tree,
                tree.preorder(self),
            ),
        decreases tree.levels_below(self),
    {
        let ghost start = visitor.state();
        proof {
            lemma_visit_seq_one::<V>(start, tree, self);
            lemma_visit_seq_concat::<V>(start, tree, seq![self], tree.preorder_from(self, 0));
        }
        if !visitor.visit(tree, self) {
            return false;
        }
        let ghost kids = tree.children(self);
        let ghost mut i: nat = 0;
        let mut current_opt = self.first_child(tree);
        proof {
            assert(tree.node_wf(self));
        }
        while current_opt.is_some()
            invariant
                tree.wf(),
                tree.acyclic(),
                tree.contains(self),
                start == old(visitor).state(),
                kids == tree.children(self),
                i <= kids.len(),
                current_opt == (if i < kids.len() { Some(kids[i as int]) } else { None }),
                visit_seq::<V>(start, tree, tree.preorder(self)) == visit_seq::<V>(
                    visitor.state(),
                    tree,
                    tree.preorder_from(self, i),
                ),
            decreases kids.len() - i,
        {
            let kid = current_opt.unwrap();
            proof {
                tree.lemma_child_is_deeper(self, i as int);
                assert(tree.node_wf(self));
                assert(tree.child_wf(self, i as int));
                assert(tree.node_wf(kid));
                lemma_visit_seq_concat::<V>(
                    visitor.state(),
                    tree,
                    tree.preorder(kid),
                    tree.preorder_from(self, i + 1),
                );
            }
            if !kid.traverse_preorder(tree, visitor) {
                return false;
            }
            current_opt = kid.next_sibling(tree);
            proof {
                i = i + 1;
            }
        }
        true
    }

    /// Visits the subtree of each child in turn, then this node. Answers `false` as
    /// soon as the visitor stops, and visits nothing after that.
    pub fn traverse_postorder<V: NodeVisitor>(self, tree: &Tree, visitor: &mut V) -> (go_on: bool)
        requires
            tree.wf(),
            tree.acyclic(),
            tree.contains(self),
        ensures
            (final(visitor).state(), go_on) == visit_seq::<V>(
                old(visitor).state(),
                tree,
                tree.postorder(self),
            ),
        decreases tree.levels_below(self),
    {
        let ghost start = visitor.state();
        let ghost kids = tree.children(self);
        let ghost mut i: nat = 0;
        let mut current_opt = self.first_child(tree);
        proof {
            assert(tree.node_wf(self));
            lemma_visit_seq_concat::<V>(start, tree, tree.postorder_from(self, 0), seq![self]);
            assert forall|s: V::State| #[trigger]
                visit_seq::<V>(s, tree, seq![self]) == V::step(s, tree, self) by {
                lemma_visit_seq_one::<V>(s, tree, self);
            }
        }
        while current_opt.is_some()
            invariant
                tree.wf(),
                tree.acyclic(),
                tree.contains(self),
                start == old(visitor).state(),
                kids == tree.children(self),
                i <= kids.len(),
                current_opt == (if i < kids.len() { Some(kids[i as int]) } else { None }),
                visit_seq::<V>(start, tree, tree.postorder(self)) == ({
                    let rest = visit_seq::<V>(
                        visitor.state(),
                        tree,
                        tree.postorder_from(self, i),
                    );
                    if rest.1 {
                        V::step(rest.0, tree, self)
                    } else {
                        rest
                    }
                }),
            decreases kids.len() - i,
        {
            let kid = current_opt.unwrap();
            proof {
                tree.lemma_child_is_deeper(self, i as int);
                assert(tree.node_wf(self));
                assert(tree.child_wf(self, i as int));
                assert(tree.node_wf(kid));
                lemma_visit_seq_concat::<V>(
                    visitor.state(),
                    tree,
                    tree.postorder(kid),
                    tree.postorder_from(self, i + 1),
                );
            }
            if !kid.traverse_postorder(tree, visitor) {
                return false;
            }
            current_opt = kid.next_sibling(tree);
            proof {
                i = i + 1;
            }
        }
        visitor.visit(tree, self)
    }
}

} // verus!
