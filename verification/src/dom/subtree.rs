//! What a pre-order walk covers: the nodes at and below its start, each of them once.

use vstd::prelude::*;
use crate::dom::node::AbstractNode;
use crate::dom::tree::{lemma_contains_front, Tree};

verus! {

/// A value occurs in two sequences put together exactly when it occurs in one of them.
pub proof fn lemma_contains_concat(a: Seq<AbstractNode>, b: Seq<AbstractNode>, x: AbstractNode)
    ensures
        (a + b).contains(x) <==> a.contains(x) || b.contains(x),
{
    let s = a + b;
    if a.contains(x) {
        let i = choose|i: int| 0 <= i < a.len() && a[i] == x;
        assert(s[i] == x);
    }
    if b.contains(x) {
        let i = choose|i: int| 0 <= i < b.len() && b[i] == x;
        assert(s[i + a.len()] == x);
    }
}

/// Two sequences without repeats that share no value have no repeats put together.
pub proof fn lemma_concat_no_duplicates(a: Seq<AbstractNode>, b: Seq<AbstractNode>)
    requires
        a.no_duplicates(),
        b.no_duplicates(),
        forall|x: AbstractNode| a.contains(x) ==> !b.contains(x),
    ensures
        (a + b).no_duplicates(),
{
    let s = a + b;
    assert forall|i: int, j: int| 0 <= i < s.len() && 0 <= j < s.len() && i != j implies s[i]
        != s[j] by {
        if i < a.len() && j >= a.len() {
            assert(a.contains(a[i]));
        }
        if j < a.len() && i >= a.len() {
            assert(a.contains(a[j]));
        }
    }
}

impl Tree {
    /// The `k`-th ancestor of a node is a node of the tree, and its own ancestors are
    /// the ancestors of the node that come after it.
    pub proof fn lemma_ancestor_chain(&self, m: AbstractNode, k: int)
        requires
            self.wf(),
            self.acyclic(),
            self.contains(m),
            0 <= k < self.depth(m),
        ensures
            self.contains(self.ancestors(m)[k]),
            self.ancestors(self.ancestors(m)[k]) == self.ancestors(m).skip(k + 1),
            self.parent(m) == Some(self.ancestors(m)[0]),
        decreases k,
    {
        assert(self.rooted(m));
        assert(self.node_wf(m));
        if k > 0 {
            self.lemma_ancestor_chain(self.parent(m)->0, k - 1);
        }
    }

    /// A node without children is an ancestor of no node. So a detached node without
    /// children can be appended anywhere without closing a cycle.
    pub proof fn lemma_childless_is_no_ancestor(&self, leaf: AbstractNode, x: AbstractNode)
        requires
            self.wf(),
            self.acyclic(),
            self.contains(leaf),
            self.contains(x),
            self.children(leaf).len() == 0,
        ensures
            !self.ancestors(x).contains(leaf),
    {
        if self.ancestors(x).contains(leaf) {
            let k = choose|k: int| 0 <= k < self.ancestors(x).len() && self.ancestors(x)[k] == leaf;
            let below = if k == 0 {
                x
            } else {
                self.ancestors(x)[k - 1]
            };
            if k == 0 {
                self.lemma_ancestor_chain(x, 0);
            } else {
                self.lemma_ancestor_chain(x, k - 1);
                assert(self.ancestors(x).skip(k)[0] == leaf);
                assert(self.rooted(below));
            }
            assert(self.node_wf(below));
        }
    }

    /// The node on the way from `x` up to the root that has `d` ancestors; `x` itself
    /// where `x` has no more than `d`.
    pub open spec fn ancestor_at(&self, x: AbstractNode, d: nat) -> AbstractNode {
        if d >= self.depth(x) {
            x
        } else {
            self.ancestors(x)[self.depth(x) - d - 1]
        }
    }

    /// A node in whose subtree `x` lies, other than `x`, stands in the chain of
    /// ancestors of `x` at the place that its depth gives.
    pub proof fn lemma_within_is_ancestor_at(&self, top: AbstractNode, x: AbstractNode)
        requires
            self.wf(),
            self.acyclic(),
            self.contains(x),
            self.within(top, x),
        ensures
            self.contains(top),
            self.depth(top) <= self.depth(x),
            self.ancestor_at(x, self.depth(top)) == top,
            top != x ==> self.depth(top) < self.depth(x),
    {
        if top != x {
            let k = choose|k: int| 0 <= k < self.ancestors(x).len() && self.ancestors(x)[k] == top;
            self.lemma_ancestor_chain(x, k);
        }
    }

    /// Every node that the walk below `n` from its `i`-th child on comes to lies
    /// deeper than `n`, below `n`, and below a child of `n` at place `i` or later.
    pub proof fn lemma_preorder_from_below(&self, n: AbstractNode, i: nat, x: AbstractNode)
        requires
            self.wf(),
            self.acyclic(),
            self.contains(n),
            self.preorder_from(n, i).contains(x),
        ensures
            self.contains(x),
            self.depth(x) > self.depth(n),
            self.ancestor_at(x, self.depth(n)) == n,
            self.parent(self.ancestor_at(x, self.depth(n) + 1)) == Some(n),
            self.position(self.ancestor_at(x, self.depth(n) + 1)) >= i,
        decreases self.levels_below(n), self.children(n).len() - i,
    {
        if i < self.children(n).len() {
            let c = self.children(n)[i as int];
            assert(self.node_wf(n));
            assert(self.child_wf(n, i as int));
            assert(self.rooted(c));
            if self.preorder_from(c, 0).contains(x) {
                self.lemma_preorder_from_below(c, 0, x);
                let k = self.depth(x) - self.depth(c) - 1;
                self.lemma_ancestor_chain(x, k);
                assert(self.ancestors(x).skip(k + 1)[0] == n);
            } else if x != c {
                self.lemma_preorder_from_below(n, i + 1, x);
            }
        }
    }

    /// The walk below `n` comes to no node twice.
    pub proof fn lemma_preorder_from_no_duplicates(&self, n: AbstractNode, i: nat)
        requires
            self.wf(),
            self.acyclic(),
            self.contains(n),
        ensures
            self.preorder_from(n, i).no_duplicates(),
        decreases self.levels_below(n), self.children(n).len() - i,
    {
        if i < self.children(n).len() {
            let c = self.children(n)[i as int];
            self.lemma_child_is_deeper(n, i as int);
            assert(self.node_wf(n));
            assert(self.child_wf(n, i as int));
            let below = self.preorder_from(c, 0);
            let head = seq![c] + below;
            let rest = self.preorder_from(n, i + 1);
            self.lemma_preorder_from_no_duplicates(c, 0);
            self.lemma_preorder_from_no_duplicates(n, i + 1);
            assert forall|x: AbstractNode| seq![c].contains(x) implies !below.contains(x) by {
                if below.contains(x) {
                    self.lemma_preorder_from_below(c, 0, x);
                }
            }
            lemma_concat_no_duplicates(seq![c], below);
            assert forall|x: AbstractNode| head.contains(x) implies !rest.contains(x) by {
                if rest.contains(x) {
                    self.lemma_preorder_from_below(n, i + 1, x);
                    if below.contains(x) {
                        self.lemma_preorder_from_below(c, 0, x);
                    }
                }
            }
            lemma_concat_no_duplicates(head, rest);
        }
    }

    /// A pre-order walk comes to each node at most once.
    pub proof fn lemma_preorder_no_duplicates(&self, n: AbstractNode)
        requires
            self.wf(),
            self.acyclic(),
            self.contains(n),
        ensures
            self.preorder(n).no_duplicates(),
    {
        self.lemma_preorder_from_no_duplicates(n, 0);
        assert forall|x: AbstractNode| seq![n].contains(x) implies !self.preorder_from(
            n,
            0,
        ).contains(x) by {
            if self.preorder_from(n, 0).contains(x) {
                self.lemma_preorder_from_below(n, 0, x);
            }
        }
        lemma_concat_no_duplicates(seq![n], self.preorder_from(n, 0));
    }

    /// The walk below `n` from its `i`-th child on comes to everything that the walk
    /// from a child at place `i` or later comes to.
    pub proof fn lemma_child_walk_is_part(&self, n: AbstractNode, i: nat, j: nat, x: AbstractNode)
        requires
            self.wf(),
            self.acyclic(),
            self.contains(n),
            i <= j < self.children(n).len(),
            self.preorder(self.children(n)[j as int]).contains(x),
        ensures
            self.preorder_from(n, i).contains(x),
        decreases j - i,
    {
        let c = self.children(n)[i as int];
        self.lemma_child_is_deeper(n, i as int);
        let head = seq![c] + self.preorder_from(c, 0);
        lemma_contains_concat(head, self.preorder_from(n, i + 1), x);
        if i < j {
            self.lemma_child_walk_is_part(n, i + 1, j, x);
        }
    }

    /// A pre-order walk from `n` comes to every node in the subtree of `n`.
    pub proof fn lemma_within_is_visited(&self, n: AbstractNode, x: AbstractNode)
        requires
            self.wf(),
            self.acyclic(),
            self.contains(n),
            self.contains(x),
            self.within(n, x),
        ensures
            self.preorder(n).contains(x),
        decreases self.depth(x) - self.depth(n),
    {
        self.lemma_within_is_ancestor_at(n, x);
        if x == n {
            assert(self.preorder(n)[0] == n);
        } else {
            let d = self.depth(n);
            let k = self.depth(x) - d - 1;
            self.lemma_ancestor_chain(x, k);
            let c = self.ancestor_at(x, d + 1);
            if k > 0 {
                self.lemma_ancestor_chain(x, k - 1);
                assert(self.ancestors(x).skip(k)[0] == n);
            }
            assert(self.rooted(c));
            assert(self.node_wf(c));
            let j = self.position(c);
            self.lemma_within_is_visited(c, x);
            self.lemma_child_walk_is_part(n, 0, j as nat, x);
            lemma_contains_concat(seq![n], self.preorder_from(n, 0), x);
        }
    }

    /// A pre-order walk from `n` comes to the nodes in the subtree of `n` and to no
    /// others.
    pub proof fn lemma_preorder_is_subtree(&self, n: AbstractNode, x: AbstractNode)
        requires
            self.wf(),
            self.acyclic(),
            self.contains(n),
        ensures
            self.preorder(n).contains(x) <==> self.contains(x) && self.within(n, x),
    {
        if self.preorder(n).contains(x) {
            lemma_contains_concat(seq![n], self.preorder_from(n, 0), x);
            if self.preorder_from(n, 0).contains(x) {
                self.lemma_preorder_from_below(n, 0, x);
            }
        }
        if self.contains(x) && self.within(n, x) {
            self.lemma_within_is_visited(n, x);
        }
    }
}

impl Tree {
    /// The walks below `n` in pre-order and in post-order come to the same nodes,
    /// and to as many.
    pub proof fn lemma_walks_below_cover_the_same(&self, n: AbstractNode, i: nat, x: AbstractNode)
        requires
            self.wf(),
            self.acyclic(),
            self.contains(n),
        ensures
            self.postorder_from(n, i).len() == self.preorder_from(n, i).len(),
            self.postorder_from(n, i).contains(x) <==> self.preorder_from(n, i).contains(x),
        decreases self.levels_below(n), self.children(n).len() - i,
    {
        if i < self.children(n).len() {
            let c = self.children(n)[i as int];
            self.lemma_child_is_deeper(n, i as int);
            self.lemma_walks_below_cover_the_same(c, 0, x);
            self.lemma_walks_below_cover_the_same(n, i + 1, x);
            lemma_contains_concat(seq![c], self.preorder_from(c, 0), x);
            lemma_contains_concat(self.postorder_from(c, 0), seq![c], x);
            lemma_contains_concat(
                seq![c] + self.preorder_from(c, 0),
                self.preorder_from(n, i + 1),
                x,
            );
            lemma_contains_concat(
                self.postorder_from(c, 0) + seq![c],
                self.postorder_from(n, i + 1),
                x,
            );
        }
    }

    /// A post-order walk from `n` comes to the nodes that a pre-order walk from `n`
    /// comes to: the nodes in the subtree of `n`. It starts where the other does not
    /// end: a pre-order walk begins with `n`, a post-order walk ends with it.
    pub proof fn lemma_postorder_is_subtree(&self, n: AbstractNode, x: AbstractNode)
        requires
            self.wf(),
            self.acyclic(),
            self.contains(n),
        ensures
            self.postorder(n).len() == self.preorder(n).len(),
            self.postorder(n).contains(x) <==> self.contains(x) && self.within(n, x),
            self.preorder(n).first() == n,
            self.postorder(n).last() == n,
    {
        self.lemma_walks_below_cover_the_same(n, 0, x);
        self.lemma_preorder_is_subtree(n, x);
        lemma_contains_concat(seq![n], self.preorder_from(n, 0), x);
        lemma_contains_concat(self.postorder_from(n, 0), seq![n], x);
    }

    /// The walk below a node takes the subtrees of its children one after the other:
    /// from the `i`-th child on it is the walk of that child's subtree followed by
    /// the walk from the next child on.
    pub proof fn lemma_walk_unfolds(&self, n: AbstractNode, i: nat)
        requires
            self.wf(),
            self.acyclic(),
            self.contains(n),
            i < self.children(n).len(),
        ensures
            self.preorder_from(n, i) == self.preorder(self.children(n)[i as int])
                + self.preorder_from(n, i + 1),
            self.postorder_from(n, i) == self.postorder(self.children(n)[i as int])
                + self.postorder_from(n, i + 1),
            self.preorder_from(n, self.children(n).len()) == Seq::<AbstractNode>::empty(),
            self.postorder_from(n, self.children(n).len()) == Seq::<AbstractNode>::empty(),
    {
        self.lemma_child_is_deeper(n, i as int);
    }
}

impl Tree {
    /// On the way up from `parent`, as it was before `child` was appended to it, the
    /// depths afterwards fall by one with each step.
    proof fn lemma_depths_fall_on_the_way_up(
        &self,
        after: &Tree,
        parent: AbstractNode,
        child: AbstractNode,
        k: int,
    )
        requires
            self.wf(),
            self.acyclic(),
            self.can_append(parent, child),
            after.nodes@ == self.appended_nodes(parent, child),
            after.acyclic(),
            0 <= k < self.depth(parent),
        ensures
            after.depth(self.ancestors(parent)[k]) + k + 1 == after.depth(parent),
        decreases k,
    {
        let chain = self.ancestors(parent);
        let below = if k == 0 {
            parent
        } else {
            chain[k - 1]
        };
        if k == 0 {
            self.lemma_ancestor_chain(parent, 0);
        } else {
            self.lemma_depths_fall_on_the_way_up(after, parent, child, k - 1);
            self.lemma_ancestor_chain(parent, k - 1);
            assert(chain.skip(k)[0] == chain[k]);
            assert(self.rooted(below));
        }
        assert(after.rooted(below));
    }

    /// Appending a node below one of its own descendants closes a cycle, whatever
    /// chains of ancestors are then claimed for the nodes.
    pub proof fn lemma_append_below_descendant_closes_cycle(
        &self,
        after: &Tree,
        parent: AbstractNode,
        child: AbstractNode,
    )
        requires
            self.wf(),
            self.acyclic(),
            self.can_append(parent, child),
            self.within(child, parent),
            after.nodes@ == self.appended_nodes(parent, child),
        ensures
            !after.acyclic(),
    {
        if after.acyclic() {
            let chain = self.ancestors(parent);
            let k = choose|k: int| 0 <= k < chain.len() && chain[k] == child;
            self.lemma_depths_fall_on_the_way_up(after, parent, child, k);
            assert(after.rooted(child));
        }
    }
}

impl AbstractNode {
    /// Whether `other` is an ancestor of this node. A detached node may be appended
    /// to this node without closing a cycle exactly when it is not.
    pub fn has_ancestor(self, tree: &Tree, other: AbstractNode) -> (found: bool)
        requires
            tree.wf(),
            tree.acyclic(),
            tree.contains(self),
        ensures
            found == tree.ancestors(self).contains(other),
    {
        let mut current = self;
        loop
            invariant
                tree.wf(),
                tree.acyclic(),
                tree.contains(current),
                tree.ancestors(self).contains(other) == tree.ancestors(current).contains(other),
            decreases tree.depth(current),
        {
            proof {
                assert(tree.node_wf(current));
                assert(tree.rooted(current));
            }
            match current.parent(tree) {
                Some(parent) => {
                    proof {
                        lemma_contains_front(parent, tree.ancestors(parent), other);
                    }
                    if parent == other {
                        return true;
                    }
                    current = parent;
                },
                None => {
                    return false;
                },
            }
        }
    }
}

} // verus!
