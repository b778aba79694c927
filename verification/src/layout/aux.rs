//! The layout records of the nodes: made on first need, one per node, and handed to
//! the layout pass so that it can keep them alive while it runs.

use vstd::prelude::*;
use crate::dom::node::{AbstractNode, FlowId, LayoutData, LayoutDataRef, Node, SelectResultsId};
use crate::dom::tree::Tree;

verus! {

impl Tree {
    /// The layout record that `n` holds, if it holds one.
    pub open spec fn layout_of(&self, n: AbstractNode) -> Option<LayoutDataRef> {
        self.record(n).layout_data
    }

    /// The test for a node without a layout record.
    pub open spec fn lacks_layout(&self) -> spec_fn(AbstractNode) -> bool {
        |n: AbstractNode| self.layout_of(n) is None
    }

    /// The nodes among `nodes` without a layout record, in their order.
    pub open spec fn lacking_layout(&self, nodes: Seq<AbstractNode>) -> Seq<AbstractNode> {
        nodes.filter(self.lacks_layout())
    }

    /// The record of `n` with its layout slot set to `data`.
    pub open spec fn record_with_layout(&self, n: AbstractNode, data: Option<LayoutDataRef>) -> Node {
        Node { layout_data: data, ..self.record(n) }
    }

    /// The references to `count` records made one after the other in this tree.
    pub open spec fn next_refs(&self, count: nat) -> Seq<LayoutDataRef> {
        Seq::new(count, |k: int| LayoutDataRef { slot: (self.layout@.len() + k) as usize })
    }

    /// Whether `after` is this tree once each of `nodes` that had no layout record has
    /// been given a new, empty one, in the order of `nodes`. Nothing else differs: the
    /// shape, the records that were there, and the nodes that had one or are not among
    /// `nodes`.
    pub open spec fn layout_initialized(&self, nodes: Seq<AbstractNode>, after: &Tree) -> bool {
        let fresh = self.lacking_layout(nodes);
        &&& after.shape@ == self.shape@
        &&& after.nodes@.len() == self.nodes@.len()
        &&& after.layout@ == self.layout@ + Seq::new(fresh.len(), |k: int| LayoutData::empty())
        &&& forall|k: int|
            0 <= k < fresh.len() ==> after.layout_of(#[trigger] fresh[k]) == Some(
                self.next_refs(fresh.len())[k],
            )
        &&& forall|n: AbstractNode|
            self.contains(n) && !fresh.contains(n) ==> #[trigger] after.layout_of(n)
                == self.layout_of(n)
        &&& forall|n: AbstractNode|
            self.contains(n) ==> #[trigger] after.kind(n) == self.kind(n).with_record(
                self.record_with_layout(n, after.layout_of(n)),
            )
    }

    /// Changing layout slots alone keeps the tree well formed, as long as every slot
    /// names a record and no two nodes name the same.
    pub proof fn lemma_layout_change_keeps_wf(&self, after: &Tree)
        requires
            self.wf(),
            after.shape@ == self.shape@,
            after.nodes@.len() == self.nodes@.len(),
            forall|n: AbstractNode|
                self.contains(n) ==> #[trigger] after.kind(n) == self.kind(n).with_record(
                    self.record_with_layout(n, after.layout_of(n)),
                ),
            forall|n: AbstractNode|
                after.contains(n) ==> (#[trigger] after.layout_of(n) matches Some(d) ==> d.slot
                    < after.layout@.len()),
            forall|a: AbstractNode, b: AbstractNode|
                #![trigger after.record(a), after.record(b)]
                after.contains(a) && after.contains(b) && a != b && after.layout_of(a) is Some
                    ==> after.layout_of(a) != after.layout_of(b),
        ensures
            after.wf(),
            self.acyclic() ==> after.acyclic(),
    {
        assert forall|n: AbstractNode| after.contains(n) implies #[trigger] after.node_wf(n) by {
            assert(self.node_wf(n));
            assert forall|j: int| 0 <= j < after.children(n).len() implies #[trigger]
                after.child_wf(n, j) by {
                assert(self.child_wf(n, j));
            }
        }
        if self.acyclic() {
            assert forall|n: AbstractNode| after.contains(n) implies #[trigger] after.rooted(n) by {
                assert(self.rooted(n));
            }
        }
    }

    /// The layout record behind a reference.
    pub fn layout_data(&self, data: LayoutDataRef) -> (record: &LayoutData)
        requires
            data.slot < self.layout@.len(),
        ensures
            *record == self.layout@[data.slot as int],
    {
        &self.layout[data.slot]
    }

    /// Stores the result of selector matching in a layout record.
    pub fn set_style(&mut self, data: LayoutDataRef, style: SelectResultsId)
        requires
            old(self).wf(),
            data.slot < old(self).layout@.len(),
        ensures
            final(self).wf(),
            old(self).acyclic() ==> final(self).acyclic(),
            final(self).nodes@ == old(self).nodes@,
            final(self).shape@ == old(self).shape@,
            final(self).layout@ == old(self).layout@.update(
                data.slot as int,
                LayoutData { style: Some(style), ..old(self).layout@[data.slot as int] },
            ),
    {
        let record = self.layout[data.slot];
        self.layout[data.slot] = LayoutData { style: Some(style), ..record };
        proof {
            old(self).lemma_same_nodes_keep_wf(self);
        }
    }

    /// Stores the flow built for a node in its layout record.
    pub fn set_flow(&mut self, data: LayoutDataRef, flow: FlowId)
        requires
            old(self).wf(),
            data.slot < old(self).layout@.len(),
        ensures
            final(self).wf(),
            old(self).acyclic() ==> final(self).acyclic(),
            final(self).nodes@ == old(self).nodes@,
            final(self).shape@ == old(self).shape@,
            final(self).layout@ == old(self).layout@.update(
                data.slot as int,
                LayoutData { flow: Some(flow), ..old(self).layout@[data.slot as int] },
            ),
    {
        let record = self.layout[data.slot];
        self.layout[data.slot] = LayoutData { flow: Some(flow), ..record };
        proof {
            old(self).lemma_same_nodes_keep_wf(self);
        }
    }

    /// A tree with the same nodes and shape and as many layout records is well formed
    /// where this one is.
    pub proof fn lemma_same_nodes_keep_wf(&self, after: &Tree)
        requires
            self.wf(),
            after.nodes@ == self.nodes@,
            after.shape@ == self.shape@,
            after.layout@.len() == self.layout@.len(),
        ensures
            after.wf(),
            self.acyclic() ==> after.acyclic(),
    {
        assert forall|n: AbstractNode| after.contains(n) implies #[trigger] after.node_wf(n) by {
            assert(self.node_wf(n));
            assert forall|j: int| 0 <= j < after.children(n).len() implies #[trigger]
                after.child_wf(n, j) by {
                assert(self.child_wf(n, j));
            }
        }
        assert forall|a: AbstractNode, b: AbstractNode|
            #![trigger after.record(a), after.record(b)]
            after.contains(a) && after.contains(b) && a != b && after.record(
                a,
            ).layout_data is Some implies after.record(a).layout_data != after.record(
            b,
        ).layout_data by {
            assert(self.record(a) == after.record(a));
            assert(self.record(b) == after.record(b));
        }
        if self.acyclic() {
            assert forall|n: AbstractNode| after.contains(n) implies #[trigger] after.rooted(n) by {
                assert(self.rooted(n));
            }
        }
    }
}

impl Tree {
    /// One more node handled: where `mid` is this tree with the nodes `done`
    /// initialized and `after` is `mid` with `x` initialized as well, `after` is this
    /// tree with `done` and then `x` initialized.
    pub proof fn lemma_layout_initialized_step(
        &self,
        mid: &Tree,
        after: &Tree,
        done: Seq<AbstractNode>,
        x: AbstractNode,
    )
        requires
            self.wf(),
            self.layout_initialized(done, mid),
            self.contains(x),
            !done.contains(x),
            forall|j: int| 0 <= j < done.len() ==> self.contains(#[trigger] done[j]),
            mid.layout@.len() <= usize::MAX,
            after.shape@ == mid.shape@,
            mid.layout_of(x) is Some ==> after.nodes@ == mid.nodes@ && after.layout@ == mid.layout@,
            mid.layout_of(x) is None ==> after.layout@ == mid.layout@.push(LayoutData::empty())
                && after.nodes@ == mid.nodes@.update(
                x.obj as int,
                mid.kind(x).with_record(
                    mid.record_with_layout(
                        x,
                        Some(LayoutDataRef { slot: mid.layout@.len() as usize }),
                    ),
                ),
            ),
        ensures
            mid.layout_of(x) == self.layout_of(x),
            self.lacking_layout(done.push(x)) == (if self.layout_of(x) is None {
                self.lacking_layout(done).push(x)
            } else {
                self.lacking_layout(done)
            }),
            mid.layout@.len() == self.layout@.len() + self.lacking_layout(done).len(),
            self.layout_initialized(done.push(x), after),
    {
        let fresh = self.lacking_layout(done);
        let grown = self.lacking_layout(done.push(x));
        assert forall|k: int| 0 <= k < fresh.len() implies self.contains(#[trigger] fresh[k])
            && fresh[k] != x by {
            done.lemma_filter_contains_rev(self.lacks_layout(), fresh[k]);
        }
        assert(grown == (if self.layout_of(x) is None {
            fresh.push(x)
        } else {
            fresh
        })) by {
            reveal(Seq::filter);
            assert(done.push(x).drop_last() =~= done);
        }
        if self.layout_of(x) is None {
            assert(after.layout@ =~= self.layout@ + Seq::new(
                grown.len(),
                |k: int| LayoutData::empty(),
            ));
            assert forall|n: AbstractNode|
                self.contains(n) && !grown.contains(n) implies #[trigger] after.layout_of(n)
                == self.layout_of(n) by {
                assert(grown[fresh.len() as int] == x);
                if fresh.contains(n) {
                    let k = choose|k: int| 0 <= k < fresh.len() && fresh[k] == n;
                    assert(grown[k] == n);
                }
                assert(after.kind(n) == mid.kind(n));
            }
        } else {
            assert forall|n: AbstractNode| self.contains(n) implies #[trigger] after.kind(n)
                == self.kind(n).with_record(self.record_with_layout(n, after.layout_of(n))) by {
                assert(mid.kind(n) == self.kind(n).with_record(
                    self.record_with_layout(n, mid.layout_of(n)),
                ));
            }
            assert forall|n: AbstractNode|
                self.contains(n) && !grown.contains(n) implies #[trigger] after.layout_of(n)
                == self.layout_of(n) by {
                assert(after.kind(n) == mid.kind(n));
            }
        }
    }
}

/// What the layout pass does to a node to keep its records there.
pub trait LayoutAuxMethods: Sized {
    /// The node that the methods work on.
    spec fn node(self) -> AbstractNode;

    /// Gives the node an empty layout record unless it has a record already. Returns
    /// a reference to the new record for the caller to keep among its roots, and
    /// nothing where the node had one.
    fn initialize_layout_data(self, tree: &mut Tree) -> (made: Option<LayoutDataRef>)
        requires
            old(tree).wf(),
            old(tree).contains(self.node()),
        ensures
            final(tree).wf(),
            old(tree).acyclic() ==> final(tree).acyclic(),
            final(tree).shape@ == old(tree).shape@,
            made is None <==> old(tree).layout_of(self.node()) is Some,
            made is None ==> final(tree).nodes@ == old(tree).nodes@ && final(tree).layout@ == old(
                tree,
            ).layout@,
            made matches Some(data) ==> {
                &&& data.slot == old(tree).layout@.len()
                &&& final(tree).layout@ == old(tree).layout@.push(LayoutData::empty())
                &&& final(tree).nodes@ == old(tree).nodes@.update(
                    self.node().obj as int,
                    old(tree).kind(self.node()).with_record(
                        old(tree).record_with_layout(self.node(), Some(data)),
                    ),
                )
            },
    ;

    /// Gives every node of the subtree that has no layout record an empty one, in
    /// pre-order, and appends a reference to each new record to `refs`. Afterwards
    /// every node of the subtree has a record; the nodes that had one keep it, and a
    /// second call adds nothing.
    fn initialize_style_for_subtree(self, tree: &mut Tree, refs: &mut Vec<LayoutDataRef>)
        requires
            old(tree).wf(),
            old(tree).acyclic(),
            old(tree).contains(self.node()),
        ensures
            final(tree).wf(),
            final(tree).acyclic(),
            old(tree).layout_initialized(old(tree).preorder(self.node()), final(tree)),
            final(refs)@ == old(refs)@ + old(tree).next_refs(
                old(tree).lacking_layout(old(tree).preorder(self.node())).len(),
            ),
            forall|n: AbstractNode|
                old(tree).preorder(self.node()).contains(n) ==> #[trigger] final(tree).layout_of(
                    n,
                ) is Some,
    ;
}

impl LayoutAuxMethods for AbstractNode {
    open spec fn node(self) -> AbstractNode {
        self
    }

    fn initialize_layout_data(self, tree: &mut Tree) -> (made: Option<LayoutDataRef>) {
        let ghost before = *tree;
        let node = *self.as_node(tree);
        match node.layout_data {
            Some(_) => None,
            None => {
                let data = LayoutDataRef { slot: tree.layout.len() };
                tree.layout.push(LayoutData::new());
                tree.set_node(self, Node { layout_data: Some(data), ..node });
                proof {
                    assert forall|n: AbstractNode| tree.contains(n) implies (
                    #[trigger] tree.layout_of(n) matches Some(d) ==> d.slot < tree.layout@.len()) by {
                        assert(before.node_wf(n));
                    }
                    assert forall|a: AbstractNode, b: AbstractNode|
                        #![trigger tree.record(a), tree.record(b)]
                        tree.contains(a) && tree.contains(b) && a != b && tree.layout_of(
                            a,
                        ) is Some implies tree.layout_of(a) != tree.layout_of(b) by {
                        assert(before.node_wf(a));
                        assert(before.node_wf(b));
                    }
                    before.lemma_layout_change_keeps_wf(tree);
                }
                Some(data)
            },
        }
    }

    fn initialize_style_for_subtree(self, tree: &mut Tree, refs: &mut Vec<LayoutDataRef>) {
        let ghost before = *tree;
        let ghost order = tree.preorder(self);
        let nodes = self.subtree(tree);
        let mut i: usize = 0;
        proof {
            before.lemma_preorder_no_duplicates(self);
            assert forall|j: int| 0 <= j < order.len() implies before.contains(
                #[trigger] order[j],
            ) by {
                before.lemma_preorder_is_subtree(self, order[j]);
            }
        }
        while i < nodes.len()
            invariant
                i <= nodes.len(),
                nodes@ == order,
                order.no_duplicates(),
                forall|j: int| 0 <= j < order.len() ==> before.contains(#[trigger] order[j]),
                before.wf(),
                before.acyclic(),
                tree.wf(),
                tree.acyclic(),
                before.layout_initialized(order.take(i as int), tree),
                refs@ == old(refs)@ + before.next_refs(
                    before.lacking_layout(order.take(i as int)).len(),
                ),
            decreases nodes.len() - i,
        {
            let ghost mid = *tree;
            let ghost done = order.take(i as int);
            let x = nodes[i];
            proof {
                assert(done.push(x) =~= order.take(i + 1));
            }
            match x.initialize_layout_data(tree) {
                Some(data) => {
                    refs.push(data);
                },
                None => {},
            }
            proof {
                assert(mid.layout@.len() == mid.layout.len());
                before.lemma_layout_initialized_step(&mid, tree, done, x);
            }
            i = i + 1;
        }
        proof {
            assert(order.take(order.len() as int) =~= order);
            before.lemma_initialized_covers(order, tree);
        }
    }
}

impl Tree {
    /// Once the nodes of `nodes` have been initialized, each of them has a layout
    /// record.
    pub proof fn lemma_initialized_covers(&self, nodes: Seq<AbstractNode>, after: &Tree)
        requires
            self.layout_initialized(nodes, after),
            forall|j: int| 0 <= j < nodes.len() ==> self.contains(#[trigger] nodes[j]),
        ensures
            forall|n: AbstractNode| nodes.contains(n) ==> #[trigger] after.layout_of(n) is Some,
    {
        let fresh = self.lacking_layout(nodes);
        assert forall|n: AbstractNode| nodes.contains(n) implies #[trigger] after.layout_of(
            n,
        ) is Some by {
            let j = choose|j: int| 0 <= j < nodes.len() && nodes[j] == n;
            if self.layout_of(n) is None {
                nodes.lemma_filter_contains(self.lacks_layout(), j);
                let k = choose|k: int| 0 <= k < fresh.len() && fresh[k] == n;
                assert(after.layout_of(fresh[k]) is Some);
            } else {
                if fresh.contains(n) {
                    let k = choose|k: int| 0 <= k < fresh.len() && fresh[k] == n;
                    nodes.lemma_filter_pred(self.lacks_layout(), k);
                }
                assert(self.contains(nodes[j]));
            }
        }
    }

    /// Initializing nodes that all have a layout record changes nothing and makes no
    /// record.
    pub proof fn lemma_initialized_is_idle(&self, nodes: Seq<AbstractNode>, after: &Tree)
        requires
            self.layout_initialized(nodes, after),
            forall|n: AbstractNode| nodes.contains(n) ==> #[trigger] self.layout_of(n) is Some,
        ensures
            self.lacking_layout(nodes).len() == 0,
            self.next_refs(self.lacking_layout(nodes).len()) == Seq::<LayoutDataRef>::empty(),
            after.nodes@ == self.nodes@,
            after.layout@ == self.layout@,
    {
        nodes.lemma_all_neg_filter_empty(self.lacks_layout());
        assert forall|i: int| 0 <= i < self.nodes@.len() implies after.nodes@[i]
            == self.nodes@[i] by {
            assert(self.nodes@.len() == self.nodes.len());
            let n = AbstractNode { obj: i as usize };
            assert(after.kind(n) == self.kind(n).with_record(
                self.record_with_layout(n, after.layout_of(n)),
            ));
        }
    }
}

impl Tree {
    /// Initializing a subtree a second time makes no record and changes nothing: once
    /// `once` is this tree with the subtree of `root` initialized, and `twice` is
    /// `once` with it initialized again, no node of the subtree lacks a record in
    /// `once`, so that no reference is added, and `twice` holds the nodes and the
    /// layout records of `once`.
    pub proof fn lemma_initialize_twice(&self, once: &Tree, twice: &Tree, root: AbstractNode)
        requires
            self.wf(),
            self.acyclic(),
            self.contains(root),
            once.wf(),
            once.acyclic(),
            self.layout_initialized(self.preorder(root), once),
            once.layout_initialized(once.preorder(root), twice),
        ensures
            once.preorder(root) == self.preorder(root),
            once.lacking_layout(once.preorder(root)).len() == 0,
            once.next_refs(once.lacking_layout(once.preorder(root)).len()) == Seq::<
                LayoutDataRef,
            >::empty(),
            twice.nodes@ == once.nodes@,
            twice.layout@ == once.layout@,
    {
        let order = self.preorder(root);
        self.lemma_walk_depends_on_shape(once, root, 0);
        assert forall|j: int| 0 <= j < order.len() implies self.contains(#[trigger] order[j]) by {
            self.lemma_preorder_is_subtree(root, order[j]);
        }
        self.lemma_initialized_covers(order, once);
        once.lemma_initialized_is_idle(order, twice);
    }
}

} // verus!
