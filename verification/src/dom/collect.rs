//! A visitor that records the nodes it is shown, and what a walk with it yields.

use vstd::prelude::*;
use crate::dom::node::AbstractNode;
use crate::dom::traversal::{visit_seq, NodeVisitor};
use crate::dom::tree::Tree;

verus! {

/// Records every node it visits, in the order of the visits, and stops the walk at
/// the node `stop_at`, if one is set, once that node has been recorded.
pub struct NodeCollector {
    pub seen: Vec<AbstractNode>,
    pub stop_at: Option<AbstractNode>,
}

/// The part of `nodes` up to and including the first occurrence of `stop`; all of
/// `nodes` where `stop` does not occur or is not set.
pub open spec fn up_to(nodes: Seq<AbstractNode>, stop: Option<AbstractNode>) -> Seq<AbstractNode>
    decreases nodes.len(),
{
    if nodes.len() == 0 {
        nodes
    } else if stop == Some(nodes[0]) {
        seq![nodes[0]]
    } else {
        seq![nodes[0]] + up_to(nodes.skip(1), stop)
    }
}

/// Whether `stop` is set and occurs in `nodes`.
pub open spec fn meets(nodes: Seq<AbstractNode>, stop: Option<AbstractNode>) -> bool {
    stop matches Some(x) && nodes.contains(x)
}

impl NodeCollector {
    /// A collector that never stops the walk.
    pub fn new() -> (collector: NodeCollector)
        ensures
            collector.seen@.len() == 0,
            collector.stop_at is None,
    {
        NodeCollector { seen: Vec::new(), stop_at: None }
    }

    /// A collector that stops the walk at `node`.
    pub fn stopping_at(node: AbstractNode) -> (collector: NodeCollector)
        ensures
            collector.seen@.len() == 0,
            collector.stop_at == Some(node),
    {
        NodeCollector { seen: Vec::new(), stop_at: Some(node) }
    }
}

impl NodeVisitor for NodeCollector {
    type State = (Seq<AbstractNode>, Option<AbstractNode>);

    open spec fn state(&self) -> Self::State {
        (self.seen@, self.stop_at)
    }

    open spec fn step(s: Self::State, tree: &Tree, node: AbstractNode) -> (Self::State, bool) {
        ((s.0.push(node), s.1), s.1 != Some(node))
    }

    fn visit(&mut self, tree: &Tree, node: AbstractNode) -> (go_on: bool) {
        self.seen.push(node);
        match self.stop_at {
            Some(stop) => stop != node,
            None => true,
        }
    }
}

/// The prefix that `up_to` cuts ends at the first place where `stop` stands.
pub proof fn lemma_up_to_is_prefix(nodes: Seq<AbstractNode>, stop: AbstractNode, k: int)
    requires
        0 <= k < nodes.len(),
        nodes[k] == stop,
        forall|j: int| 0 <= j < k ==> nodes[j] != stop,
    ensures
        up_to(nodes, Some(stop)) == nodes.take(k + 1),
        meets(nodes, Some(stop)),
    decreases k,
{
    if k > 0 {
        lemma_up_to_is_prefix(nodes.skip(1), stop, k - 1);
    }
}

/// Where `stop` is not met, `up_to` cuts nothing off.
pub proof fn lemma_up_to_is_all(nodes: Seq<AbstractNode>, stop: Option<AbstractNode>)
    requires
        !meets(nodes, stop),
    ensures
        up_to(nodes, stop) == nodes,
    decreases nodes.len(),
{
    if nodes.len() > 0 {
        lemma_up_to_is_all(nodes.skip(1), stop);
    }
}

/// A walk over `nodes` with a collector records exactly the nodes up to and
/// including the one it stops at, in their order, and none behind it. It reports that
/// it went through exactly when the stop node was not met.
pub proof fn lemma_collector_yields(
    seen: Seq<AbstractNode>,
    stop: Option<AbstractNode>,
    tree: &Tree,
    nodes: Seq<AbstractNode>,
)
    ensures
        visit_seq::<NodeCollector>((seen, stop), tree, nodes) == (
            (seen + up_to(nodes, stop), stop),
            !meets(nodes, stop),
        ),
    decreases nodes.len(),
{
    if nodes.len() > 0 && stop != Some(nodes[0]) {
        let rest = nodes.skip(1);
        lemma_collector_yields(seen.push(nodes[0]), stop, tree, rest);
        if meets(nodes, stop) {
            let j = choose|j: int| 0 <= j < nodes.len() && nodes[j] == stop->0;
            assert(rest[j - 1] == stop->0);
        }
    }
}

/// A pre-order walk that is stopped at a node of the subtree comes to the nodes before
/// that node and to the node itself, in the order of the walk, and to none behind it;
/// and it reports the stop.
pub proof fn lemma_stopped_walk_is_cut_short(
    tree: &Tree,
    start: AbstractNode,
    stop: AbstractNode,
    k: int,
    seen: Seq<AbstractNode>,
)
    requires
        tree.wf(),
        tree.acyclic(),
        tree.contains(start),
        0 <= k < tree.preorder(start).len(),
        tree.preorder(start)[k] == stop,
    ensures
        visit_seq::<NodeCollector>((seen, Some(stop)), tree, tree.preorder(start)) == (
            (seen + tree.preorder(start).take(k + 1), Some(stop)),
            false,
        ),
{
    let walk = tree.preorder(start);
    tree.lemma_preorder_no_duplicates(start);
    lemma_up_to_is_prefix(walk, stop, k);
    lemma_collector_yields(seen, Some(stop), tree, walk);
}

impl AbstractNode {
    /// The children of this node, first to last.
    pub fn children(self, tree: &Tree) -> (kids: Vec<AbstractNode>)
        requires
            tree.wf(),
            tree.contains(self),
        ensures
            kids@ == tree.children(self),
    {
        let mut collector = NodeCollector::new();
        let ghost start = collector.seen@;
        self.each_child(tree, &mut collector);
        proof {
            lemma_collector_yields(start, None, tree, tree.children(self));
            lemma_up_to_is_all(tree.children(self), None);
        }
        collector.seen
    }

    /// The nodes of the subtree below and including this node, in pre-order.
    pub fn subtree(self, tree: &Tree) -> (nodes: Vec<AbstractNode>)
        requires
            tree.wf(),
            tree.acyclic(),
            tree.contains(self),
        ensures
            nodes@ == tree.preorder(self),
    {
        let mut collector = NodeCollector::new();
        let ghost start = collector.seen@;
        self.traverse_preorder(tree, &mut collector);
        proof {
            lemma_collector_yields(start, None, tree, tree.preorder(self));
            lemma_up_to_is_all(tree.preorder(self), None);
        }
        collector.seen
    }
}

} // verus!
