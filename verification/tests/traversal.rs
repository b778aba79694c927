use servo_dom::dom::collect::NodeCollector;
use servo_dom::dom::traversal::NodeVisitor;
use servo_dom::dom::element::{Element, ElementTypeId};
use servo_dom::dom::node::{AbstractNode, Node, NodeKind};
use servo_dom::dom::tree::Tree;

fn element(tree: &mut Tree, tag: &str) -> AbstractNode {
    Node::as_abstract_node(
        tree,
        NodeKind::Element(Element::new(ElementTypeId::UnknownElementTypeId, tag.to_string())),
    )
}

/// p
/// +- c1
/// |  +- g1
/// |  |  +- h1
/// |  +- g2
/// +- c2
/// +- c3
///    +- g3
struct Family {
    tree: Tree,
    p: AbstractNode,
    c1: AbstractNode,
    c2: AbstractNode,
    c3: AbstractNode,
    g1: AbstractNode,
    g2: AbstractNode,
    g3: AbstractNode,
    h1: AbstractNode,
}

fn family() -> Family {
    let mut tree = Tree::new();
    let p = element(&mut tree, "p");
    let c1 = element(&mut tree, "c1");
    let c2 = element(&mut tree, "c2");
    let c3 = element(&mut tree, "c3");
    let g1 = element(&mut tree, "g1");
    let g2 = element(&mut tree, "g2");
    let g3 = element(&mut tree, "g3");
    let h1 = element(&mut tree, "h1");
    p.append_child(&mut tree, c1);
    p.append_child(&mut tree, c2);
    p.append_child(&mut tree, c3);
    c1.append_child(&mut tree, g1);
    c1.append_child(&mut tree, g2);
    c3.append_child(&mut tree, g3);
    g1.append_child(&mut tree, h1);
    Family { tree, p, c1, c2, c3, g1, g2, g3, h1 }
}

#[test]
fn each_child_yields_children_in_the_order_appended() {
    let f = family();
    let mut seen = NodeCollector::new();
    f.p.each_child(&f.tree, &mut seen);
    assert_eq!(seen.seen, vec![f.c1, f.c2, f.c3]);
    assert_eq!(f.p.children(&f.tree), vec![f.c1, f.c2, f.c3]);
    assert_eq!(f.c1.children(&f.tree), vec![f.g1, f.g2]);
}

#[test]
fn each_child_of_a_leaf_visits_nothing() {
    let f = family();
    let mut seen = NodeCollector::new();
    f.c2.each_child(&f.tree, &mut seen);
    assert_eq!(seen.seen, vec![]);
    assert_eq!(f.h1.children(&f.tree), vec![]);
}

#[test]
fn each_child_stops_behind_the_child_that_says_so() {
    let f = family();
    let mut seen = NodeCollector::stopping_at(f.c2);
    f.p.each_child(&f.tree, &mut seen);
    assert_eq!(seen.seen, vec![f.c1, f.c2]);
    let mut first = NodeCollector::stopping_at(f.c1);
    f.p.each_child(&f.tree, &mut first);
    assert_eq!(first.seen, vec![f.c1]);
    // a stop node that is no child stops nothing
    let mut all = NodeCollector::stopping_at(f.g1);
    f.p.each_child(&f.tree, &mut all);
    assert_eq!(all.seen, vec![f.c1, f.c2, f.c3]);
}

#[test]
fn preorder_visits_a_node_before_its_subtree() {
    let f = family();
    let mut seen = NodeCollector::new();
    assert!(f.p.traverse_preorder(&f.tree, &mut seen));
    assert_eq!(seen.seen, vec![f.p, f.c1, f.g1, f.h1, f.g2, f.c2, f.c3, f.g3]);
    assert_eq!(f.p.subtree(&f.tree), vec![f.p, f.c1, f.g1, f.h1, f.g2, f.c2, f.c3, f.g3]);
    assert_eq!(f.c1.subtree(&f.tree), vec![f.c1, f.g1, f.h1, f.g2]);
}

#[test]
fn postorder_visits_a_node_behind_its_subtree() {
    let f = family();
    let mut seen = NodeCollector::new();
    assert!(f.p.traverse_postorder(&f.tree, &mut seen));
    assert_eq!(seen.seen, vec![f.h1, f.g1, f.g2, f.c1, f.c2, f.g3, f.c3, f.p]);
}

#[test]
fn traversal_of_a_single_node_visits_it_alone() {
    let f = family();
    let mut pre = NodeCollector::new();
    assert!(f.c2.traverse_preorder(&f.tree, &mut pre));
    assert_eq!(pre.seen, vec![f.c2]);
    let mut post = NodeCollector::new();
    assert!(f.c2.traverse_postorder(&f.tree, &mut post));
    assert_eq!(post.seen, vec![f.c2]);
}

#[test]
fn preorder_stop_at_second_child_never_visits_the_third() {
    let mut tree = Tree::new();
    let p = element(&mut tree, "p");
    let c1 = element(&mut tree, "c1");
    let c2 = element(&mut tree, "c2");
    let c3 = element(&mut tree, "c3");
    p.append_child(&mut tree, c1);
    p.append_child(&mut tree, c2);
    p.append_child(&mut tree, c3);
    let mut seen = NodeCollector::stopping_at(c2);
    assert!(!p.traverse_preorder(&tree, &mut seen));
    assert_eq!(seen.seen, vec![p, c1, c2]);
}

#[test]
fn preorder_stop_deep_in_a_subtree_ends_the_whole_walk() {
    let f = family();
    let mut seen = NodeCollector::stopping_at(f.h1);
    assert!(!f.p.traverse_preorder(&f.tree, &mut seen));
    assert_eq!(seen.seen, vec![f.p, f.c1, f.g1, f.h1]);
    let mut at_root = NodeCollector::stopping_at(f.p);
    assert!(!f.p.traverse_preorder(&f.tree, &mut at_root));
    assert_eq!(at_root.seen, vec![f.p]);
}

#[test]
fn postorder_stop_ends_the_whole_walk() {
    let f = family();
    let mut seen = NodeCollector::stopping_at(f.g2);
    assert!(!f.p.traverse_postorder(&f.tree, &mut seen));
    assert_eq!(seen.seen, vec![f.h1, f.g1, f.g2]);
    let mut at_root = NodeCollector::stopping_at(f.p);
    assert!(!f.p.traverse_postorder(&f.tree, &mut at_root));
    assert_eq!(at_root.seen, vec![f.h1, f.g1, f.g2, f.c1, f.c2, f.g3, f.c3, f.p]);
}

#[test]
fn stop_node_outside_the_subtree_stops_nothing() {
    let f = family();
    let mut seen = NodeCollector::stopping_at(f.c2);
    assert!(f.c1.traverse_preorder(&f.tree, &mut seen));
    assert_eq!(seen.seen, vec![f.c1, f.g1, f.h1, f.g2]);
}

#[test]
fn collector_keeps_what_it_had_seen() {
    let f = family();
    let mut seen = NodeCollector::new();
    assert!(f.c3.traverse_preorder(&f.tree, &mut seen));
    assert!(f.c1.traverse_postorder(&f.tree, &mut seen));
    assert_eq!(seen.seen, vec![f.c3, f.g3, f.h1, f.g1, f.g2, f.c1]);
}

/// Counts the leaves it is shown and stops the walk once it has seen `limit` of them.
struct LeafCounter {
    leaves: usize,
    limit: usize,
}

impl NodeVisitor for LeafCounter {
    type State = (usize, usize);

    fn state(&self) -> (usize, usize) {
        (self.leaves, self.limit)
    }

    fn step(s: (usize, usize), tree: &Tree, node: AbstractNode) -> ((usize, usize), bool) {
        let leaves = if node.is_leaf(tree) { s.0 + 1 } else { s.0 };
        ((leaves, s.1), leaves < s.1)
    }

    fn visit(&mut self, tree: &Tree, node: AbstractNode) -> bool {
        let (next, go_on) = Self::step(self.state(), tree, node);
        self.leaves = next.0;
        go_on
    }
}

#[test]
fn a_visitor_of_ones_own_counts_leaves() {
    let f = family();
    let mut all = LeafCounter { leaves: 0, limit: 100 };
    assert!(f.p.traverse_preorder(&f.tree, &mut all));
    assert_eq!(all.leaves, 4);
    let mut some = LeafCounter { leaves: 0, limit: 2 };
    assert!(!f.p.traverse_postorder(&f.tree, &mut some));
    assert_eq!(some.leaves, 2);
    let mut kids = LeafCounter { leaves: 0, limit: 100 };
    f.p.each_child(&f.tree, &mut kids);
    assert_eq!(kids.leaves, 1);
}
