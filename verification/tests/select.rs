use servo_dom::css::select_handler::{node_is_named, with_node_name, NodeSelectHandler};
use servo_dom::dom::element::{Element, ElementTypeId, HTMLImageElement};
use servo_dom::dom::node::{AbstractNode, Comment, Node, NodeKind, NodeTypeId, Text};
use servo_dom::dom::tree::Tree;

fn element(tree: &mut Tree, tag: &str, id: Option<&str>) -> AbstractNode {
    let mut e = Element::new(ElementTypeId::UnknownElementTypeId, tag.to_string());
    if let Some(id) = id {
        e.push_attr("id".to_string(), id.to_string());
    }
    Node::as_abstract_node(tree, NodeKind::Element(e))
}

fn text(tree: &mut Tree, content: &str) -> AbstractNode {
    Node::as_abstract_node(
        tree,
        NodeKind::Text(Text {
            parent: Node::new(NodeTypeId::TextNodeTypeId),
            text: content.to_string(),
        }),
    )
}

/// html > body > div#x > span > node
struct Chain {
    tree: Tree,
    html: AbstractNode,
    body: AbstractNode,
    div: AbstractNode,
    span: AbstractNode,
    node: AbstractNode,
}

fn chain() -> Chain {
    let mut tree = Tree::new();
    let html = element(&mut tree, "html", None);
    let body = element(&mut tree, "body", None);
    let div = element(&mut tree, "div", Some("x"));
    let span = element(&mut tree, "span", None);
    let node = element(&mut tree, "em", None);
    html.append_child(&mut tree, body);
    body.append_child(&mut tree, div);
    div.append_child(&mut tree, span);
    span.append_child(&mut tree, node);
    Chain { tree, html, body, div, span, node }
}

#[test]
fn named_ancestor_is_found_up_the_chain() {
    let c = chain();
    let handler = NodeSelectHandler { tree: &c.tree, node: c.node };
    assert_eq!(handler.named_ancestor_node(&c.node, "div"), Some(c.div));
    assert_eq!(handler.named_ancestor_node(&c.node, "html"), Some(c.html));
    assert_eq!(handler.named_ancestor_node(&c.node, "span"), Some(c.span));
    assert_eq!(handler.named_ancestor_node(&c.span, "body"), Some(c.body));
}

#[test]
fn named_ancestor_is_absent_without_a_match() {
    let c = chain();
    let handler = NodeSelectHandler { tree: &c.tree, node: c.node };
    assert_eq!(handler.named_ancestor_node(&c.node, "table"), None);
    assert_eq!(handler.named_ancestor_node(&c.node, "DIV"), None);
    // a node is no ancestor of itself, and what lies below is none either
    assert_eq!(handler.named_ancestor_node(&c.node, "em"), None);
    assert_eq!(handler.named_ancestor_node(&c.div, "div"), None);
    assert_eq!(handler.named_ancestor_node(&c.div, "span"), None);
    assert_eq!(handler.named_ancestor_node(&c.html, "html"), None);
}

#[test]
fn named_ancestor_is_the_nearest_of_that_name() {
    let mut tree = Tree::new();
    let outer = element(&mut tree, "div", Some("outer"));
    let inner = element(&mut tree, "div", Some("inner"));
    let p = element(&mut tree, "p", None);
    let leaf = text(&mut tree, "hello");
    outer.append_child(&mut tree, inner);
    inner.append_child(&mut tree, p);
    p.append_child(&mut tree, leaf);
    let handler = NodeSelectHandler { tree: &tree, node: leaf };
    assert_eq!(handler.named_ancestor_node(&leaf, "div"), Some(inner));
    assert_eq!(handler.named_ancestor_node(&inner, "div"), Some(outer));
    assert_eq!(handler.named_ancestor_node(&leaf, "p"), Some(p));
}

#[test]
fn named_parent_looks_one_step_up_only() {
    let c = chain();
    let handler = NodeSelectHandler { tree: &c.tree, node: c.node };
    assert_eq!(handler.named_parent_node(&c.node, "span"), Some(c.span));
    assert_eq!(handler.named_parent_node(&c.node, "div"), None);
    assert_eq!(handler.named_parent_node(&c.span, "div"), Some(c.div));
    assert_eq!(handler.named_parent_node(&c.span, "Div"), None);
    assert_eq!(handler.named_parent_node(&c.html, "html"), None);
}

#[test]
fn parent_node_and_root() {
    let c = chain();
    let handler = NodeSelectHandler { tree: &c.tree, node: c.node };
    assert_eq!(handler.parent_node(&c.node), Some(c.span));
    assert_eq!(handler.parent_node(&c.body), Some(c.html));
    assert_eq!(handler.parent_node(&c.html), None);
    assert!(handler.node_is_root(&c.html));
    assert!(!handler.node_is_root(&c.body));
    assert!(!handler.node_is_root(&c.node));
}

#[test]
fn node_has_id_compares_exactly() {
    let c = chain();
    let handler = NodeSelectHandler { tree: &c.tree, node: c.node };
    assert!(handler.node_has_id(&c.div, "x"));
    assert!(!handler.node_has_id(&c.div, "X"));
    assert!(!handler.node_has_id(&c.div, "x "));
    assert!(!handler.node_has_id(&c.div, ""));
    assert!(!handler.node_has_id(&c.div, "xx"));
    // no id attribute at all
    assert!(!handler.node_has_id(&c.span, "x"));
    assert!(!handler.node_has_id(&c.span, ""));
}

#[test]
fn node_has_id_is_case_sensitive_on_the_stored_value() {
    let mut tree = Tree::new();
    let upper = element(&mut tree, "div", Some("X"));
    let handler = NodeSelectHandler { tree: &tree, node: upper };
    assert!(!handler.node_has_id(&upper, "x"));
    assert!(handler.node_has_id(&upper, "X"));
}

#[test]
fn with_node_id_hands_over_the_value_or_nothing() {
    let c = chain();
    let handler = NodeSelectHandler { tree: &c.tree, node: c.node };
    let id = handler.with_node_id(&c.div, |id| id.map(|s| s.to_string()));
    assert_eq!(id, Some("x".to_string()));
    let none = handler.with_node_id(&c.span, |id| id.map(|s| s.to_string()));
    assert_eq!(none, None);
    let length = handler.with_node_id(&c.div, |id| id.map_or(0, |s| s.len()));
    assert_eq!(length, 1);
}

#[test]
fn with_node_name_hands_over_the_tag_name() {
    let mut c = chain();
    let img = Node::as_abstract_node(&mut c.tree, NodeKind::Image(HTMLImageElement::new()));
    let handler = NodeSelectHandler { tree: &c.tree, node: c.node };
    assert_eq!(handler.with_node_name(&c.div, |name| name.to_string()), "div");
    assert_eq!(handler.with_node_name(&c.html, |name| name.len()), 4);
    assert_eq!(handler.with_node_name(&img, |name| name.to_string()), "img");
    assert_eq!(with_node_name(&c.tree, c.span, |name| name.to_string()), "span");
}

#[test]
fn only_elements_bear_a_name() {
    let mut tree = Tree::new();
    let div = element(&mut tree, "div", None);
    let leaf = text(&mut tree, "div");
    let note = Node::as_abstract_node(&mut tree, NodeKind::Comment(Comment::new("div".to_string())));
    div.append_child(&mut tree, leaf);
    div.append_child(&mut tree, note);
    // the guard that a caller tests before it asks for a name or an id
    assert!(div.is_element(&tree));
    assert!(!leaf.is_element(&tree));
    assert!(!note.is_element(&tree));
    assert!(node_is_named(&tree, div, "div"));
    assert!(!node_is_named(&tree, div, "p"));
    assert!(!node_is_named(&tree, leaf, "div"));
    assert!(!node_is_named(&tree, note, "div"));
}

#[test]
fn ancestors_that_are_no_elements_are_passed_over() {
    let mut tree = Tree::new();
    let div = element(&mut tree, "div", None);
    let note = Node::as_abstract_node(&mut tree, NodeKind::Comment(Comment::new("div".to_string())));
    let leaf = element(&mut tree, "em", None);
    div.append_child(&mut tree, note);
    note.append_child(&mut tree, leaf);
    let handler = NodeSelectHandler { tree: &tree, node: leaf };
    assert_eq!(handler.named_parent_node(&leaf, "div"), None);
    assert_eq!(handler.named_ancestor_node(&leaf, "div"), Some(div));
}
