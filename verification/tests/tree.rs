use servo_dom::dom::element::{Element, ElementTypeId, HTMLImageElement, HTMLStyleElement};
use servo_dom::dom::node::{
    AbstractNode, Comment, Doctype, Node, NodeKind, NodeTypeId, Text,
};
use servo_dom::dom::tree::{AppendError, Tree};

fn element(tree: &mut Tree, tag: &str) -> AbstractNode {
    Node::as_abstract_node(
        tree,
        NodeKind::Element(Element::new(ElementTypeId::UnknownElementTypeId, tag.to_string())),
    )
}

fn relations(tree: &Tree, n: AbstractNode) -> [Option<AbstractNode>; 5] {
    [
        n.parent(tree),
        n.first_child(tree),
        n.last_child(tree),
        n.prev_sibling(tree),
        n.next_sibling(tree),
    ]
}

#[test]
fn new_tree_is_empty() {
    let tree = Tree::new();
    assert_eq!(tree.node_count(), 0);
    assert!(!tree.has_node(AbstractNode { obj: 0 }));
}

#[test]
fn fresh_node_has_no_relations() {
    let mut tree = Tree::new();
    let a = element(&mut tree, "div");
    assert_eq!(tree.node_count(), 1);
    assert!(tree.has_node(a));
    assert_eq!(relations(&tree, a), [None, None, None, None, None]);
    assert!(a.is_leaf(&tree));
    assert_eq!(a.type_id(&tree), NodeTypeId::ElementNodeTypeId(ElementTypeId::UnknownElementTypeId));
    assert!(a.as_node(&tree).layout_data.is_none());
}

#[test]
fn handles_are_equal_when_they_name_the_same_node() {
    let mut tree = Tree::new();
    let a = element(&mut tree, "div");
    let b = element(&mut tree, "div");
    let a_again = a;
    assert_eq!(a, a_again);
    assert_ne!(a, b);
    assert!(a == a_again);
    assert!(a != b);
}

#[test]
fn append_first_child_sets_both_ends() {
    let mut tree = Tree::new();
    let a = element(&mut tree, "ul");
    let b = element(&mut tree, "li");
    a.append_child(&mut tree, b);
    assert_eq!(b.parent(&tree), Some(a));
    assert_eq!(a.first_child(&tree), Some(b));
    assert_eq!(a.last_child(&tree), Some(b));
    assert_eq!(b.prev_sibling(&tree), None);
    assert_eq!(b.next_sibling(&tree), None);
    assert!(!a.is_leaf(&tree));
    assert!(b.is_leaf(&tree));
    assert_eq!(a.parent(&tree), None);
}

#[test]
fn append_links_child_behind_last_child() {
    let mut tree = Tree::new();
    let a = element(&mut tree, "ul");
    let b = element(&mut tree, "li");
    let c = element(&mut tree, "li");
    let d = element(&mut tree, "li");
    a.append_child(&mut tree, b);
    a.append_child(&mut tree, c);
    a.append_child(&mut tree, d);
    assert_eq!(relations(&tree, a), [None, Some(b), Some(d), None, None]);
    assert_eq!(relations(&tree, b), [Some(a), None, None, None, Some(c)]);
    assert_eq!(relations(&tree, c), [Some(a), None, None, Some(b), Some(d)]);
    assert_eq!(relations(&tree, d), [Some(a), None, None, Some(c), None]);
}

#[test]
fn appended_child_is_reached_by_next_sibling() {
    let mut tree = Tree::new();
    let a = element(&mut tree, "ul");
    let kids: Vec<AbstractNode> = (0..5).map(|_| element(&mut tree, "li")).collect();
    for (count, kid) in kids.iter().enumerate() {
        a.append_child(&mut tree, *kid);
        assert_eq!(kid.parent(&tree), Some(a));
        assert_eq!(a.last_child(&tree), Some(*kid));
        let mut current = a.first_child(&tree);
        let mut steps = 0;
        while current != Some(*kid) {
            current = current.unwrap().next_sibling(&tree);
            steps += 1;
        }
        assert_eq!(steps, count);
    }
}

#[test]
fn append_keeps_other_nodes_as_they_were() {
    let mut tree = Tree::new();
    let a = element(&mut tree, "a");
    let b = element(&mut tree, "b");
    let c = element(&mut tree, "c");
    let other = element(&mut tree, "other");
    a.append_child(&mut tree, b);
    let before = relations(&tree, other);
    let b_before = relations(&tree, b);
    b.append_child(&mut tree, c);
    assert_eq!(relations(&tree, other), before);
    assert_eq!(relations(&tree, a), [None, Some(b), Some(b), None, None]);
    assert_eq!(b.parent(&tree), b_before[0]);
    assert_eq!(relations(&tree, b), [Some(a), Some(c), Some(c), None, None]);
    assert_eq!(a.as_element(&tree).tag_name, "a");
    assert_eq!(c.as_element(&tree).tag_name, "c");
}

#[test]
fn try_append_to_itself_is_refused_and_changes_nothing() {
    let mut tree = Tree::new();
    let a = element(&mut tree, "div");
    let b = element(&mut tree, "p");
    a.append_child(&mut tree, b);
    for n in [a, b] {
        let before = relations(&tree, n);
        let other = relations(&tree, if n == a { b } else { a });
        assert_eq!(n.try_append_child(&mut tree, n), Err(AppendError::SelfAttachment));
        assert_eq!(relations(&tree, n), before);
        assert_eq!(relations(&tree, if n == a { b } else { a }), other);
    }
}

#[test]
fn try_append_of_a_parented_node_is_refused_and_changes_nothing() {
    let mut tree = Tree::new();
    let a = element(&mut tree, "div");
    let b = element(&mut tree, "p");
    let c = element(&mut tree, "section");
    a.append_child(&mut tree, b);
    let a_before = relations(&tree, a);
    let b_before = relations(&tree, b);
    let c_before = relations(&tree, c);
    assert_eq!(c.try_append_child(&mut tree, b), Err(AppendError::AlreadyAttached));
    assert_eq!(a.try_append_child(&mut tree, b), Err(AppendError::AlreadyAttached));
    assert_eq!(relations(&tree, a), a_before);
    assert_eq!(relations(&tree, b), b_before);
    assert_eq!(relations(&tree, c), c_before);
}

#[test]
fn try_append_of_a_detached_node_appends() {
    let mut tree = Tree::new();
    let a = element(&mut tree, "div");
    let b = element(&mut tree, "p");
    let c = element(&mut tree, "p");
    assert_eq!(a.try_append_child(&mut tree, b), Ok(()));
    assert_eq!(a.try_append_child(&mut tree, c), Ok(()));
    assert_eq!(relations(&tree, a), [None, Some(b), Some(c), None, None]);
    assert_eq!(relations(&tree, b), [Some(a), None, None, None, Some(c)]);
    assert_eq!(relations(&tree, c), [Some(a), None, None, Some(b), None]);
}

#[test]
fn tags_tell_the_kinds_apart() {
    let mut tree = Tree::new();
    let doctype = Node::as_abstract_node(
        &mut tree,
        NodeKind::Doctype(Doctype::new("html".to_string(), None, None, false)),
    );
    let comment =
        Node::as_abstract_node(&mut tree, NodeKind::Comment(Comment::new("note".to_string())));
    let div = element(&mut tree, "div");
    let img = Node::as_abstract_node(&mut tree, NodeKind::Image(HTMLImageElement::new()));
    let style = Node::as_abstract_node(&mut tree, NodeKind::Style(HTMLStyleElement::new()));
    let text = Node::as_abstract_node(
        &mut tree,
        NodeKind::Text(Text {
            parent: Node::new(NodeTypeId::TextNodeTypeId),
            text: "hello".to_string(),
        }),
    );

    assert_eq!(doctype.type_id(&tree), NodeTypeId::DoctypeNodeTypeId);
    assert_eq!(comment.type_id(&tree), NodeTypeId::CommentNodeTypeId);
    assert_eq!(text.type_id(&tree), NodeTypeId::TextNodeTypeId);

    for n in [doctype, comment, text] {
        assert!(!n.is_element(&tree));
        assert!(!n.is_image_element(&tree));
        assert!(!n.is_style_element(&tree));
    }
    for n in [doctype, comment, div, img, style] {
        assert!(!n.is_text(&tree));
    }
    assert!(text.is_text(&tree));
    for n in [div, img, style] {
        assert!(n.is_element(&tree));
    }
    assert!(img.is_image_element(&tree));
    assert!(!div.is_image_element(&tree));
    assert!(!style.is_image_element(&tree));
    assert!(style.is_style_element(&tree));
    assert!(!div.is_style_element(&tree));
    assert!(!img.is_style_element(&tree));
}

#[test]
fn downcasts_give_the_node_behind_the_handle() {
    let mut tree = Tree::new();
    let mut div = Element::new(ElementTypeId::UnknownElementTypeId, "div".to_string());
    div.push_attr("class".to_string(), "wide".to_string());
    let div = Node::as_abstract_node(&mut tree, NodeKind::Element(div));
    let mut image = HTMLImageElement::new();
    image.image = Some("http://example.org/a.png".to_string());
    let img = Node::as_abstract_node(&mut tree, NodeKind::Image(image));
    let style = Node::as_abstract_node(&mut tree, NodeKind::Style(HTMLStyleElement::new()));
    let text = Node::as_abstract_node(
        &mut tree,
        NodeKind::Text(Text {
            parent: Node::new(NodeTypeId::TextNodeTypeId),
            text: "hello".to_string(),
        }),
    );
    div.append_child(&mut tree, text);

    assert_eq!(text.as_text(&tree).text, "hello");
    assert_eq!(text.as_text(&tree).parent.parent_node, Some(div));
    assert_eq!(div.as_element(&tree).tag_name, "div");
    assert_eq!(div.as_element(&tree).get_attr("class"), Some(&"wide".to_string()));
    assert_eq!(img.as_element(&tree).tag_name, "img");
    assert_eq!(style.as_element(&tree).tag_name, "style");
    assert_eq!(
        img.as_image_element(&tree).image,
        Some("http://example.org/a.png".to_string())
    );
    assert_eq!(img.as_image_element(&tree).parent.tag_name, "img");
    assert_eq!(div.as_node(&tree).first_child, Some(text));
}

#[test]
fn text_made_by_new_carries_the_comment_tag() {
    let text = Text::new("hello".to_string());
    assert_eq!(text.parent.type_id, NodeTypeId::CommentNodeTypeId);
    assert_eq!(text.text, "hello");
    let mut tree = Tree::new();
    let handle = Node::as_abstract_node(&mut tree, NodeKind::Text(text));
    assert!(!handle.is_text(&tree));
    assert!(!handle.is_element(&tree));
    assert_eq!(handle.type_id(&tree), NodeTypeId::CommentNodeTypeId);
}

#[test]
fn constructors_keep_their_arguments() {
    let doctype = Doctype::new(
        "html".to_string(),
        Some("-//W3C//DTD HTML 4.01//EN".to_string()),
        None,
        true,
    );
    assert_eq!(doctype.name, "html");
    assert_eq!(doctype.public_id, Some("-//W3C//DTD HTML 4.01//EN".to_string()));
    assert_eq!(doctype.system_id, None);
    assert!(doctype.force_quirks);
    assert_eq!(doctype.parent.type_id, NodeTypeId::DoctypeNodeTypeId);
    let comment = Comment::new("note".to_string());
    assert_eq!(comment.text, "note");
    assert_eq!(comment.parent.type_id, NodeTypeId::CommentNodeTypeId);
    assert!(comment.parent.parent_node.is_none());
    assert!(comment.parent.first_child.is_none());
    assert!(comment.parent.last_child.is_none());
    assert!(comment.parent.prev_sibling.is_none());
    assert!(comment.parent.next_sibling.is_none());
    assert!(comment.parent.layout_data.is_none());
}

#[test]
fn tag_check_on_node_kinds() {
    assert!(NodeKind::Comment(Comment::new("c".to_string())).is_well_tagged());
    assert!(NodeKind::Text(Text::new("t".to_string())).is_well_tagged());
    assert!(NodeKind::Image(HTMLImageElement::new()).is_well_tagged());
    assert!(NodeKind::Style(HTMLStyleElement::new()).is_well_tagged());
    assert!(NodeKind::Element(Element::new(
        ElementTypeId::UnknownElementTypeId,
        "div".to_string()
    ))
    .is_well_tagged());
    // an image tag on a plain element, a text tag on a comment
    assert!(!NodeKind::Element(Element::new(
        ElementTypeId::HTMLImageElementTypeId,
        "img".to_string()
    ))
    .is_well_tagged());
    assert!(!NodeKind::Comment(Comment {
        parent: Node::new(NodeTypeId::TextNodeTypeId),
        text: "c".to_string()
    })
    .is_well_tagged());
    assert!(!NodeKind::Text(Text {
        parent: Node::new(NodeTypeId::ElementNodeTypeId(ElementTypeId::UnknownElementTypeId)),
        text: "t".to_string()
    })
    .is_well_tagged());
}

#[test]
fn first_attribute_of_a_name_counts() {
    let mut e = Element::new(ElementTypeId::UnknownElementTypeId, "a".to_string());
    assert_eq!(e.get_attr("href"), None);
    e.push_attr("href".to_string(), "one".to_string());
    e.push_attr("id".to_string(), "x".to_string());
    e.push_attr("href".to_string(), "two".to_string());
    assert_eq!(e.get_attr("href"), Some(&"one".to_string()));
    assert_eq!(e.get_attr("id"), Some(&"x".to_string()));
    assert_eq!(e.get_attr("ID"), None);
    assert_eq!(e.get_attr(""), None);
    assert_eq!(e.attrs.len(), 3);
}

#[test]
fn has_ancestor_looks_all_the_way_up() {
    let mut tree = Tree::new();
    let a = element(&mut tree, "a");
    let b = element(&mut tree, "b");
    let c = element(&mut tree, "c");
    let d = element(&mut tree, "d");
    let lone = element(&mut tree, "lone");
    a.append_child(&mut tree, b);
    a.append_child(&mut tree, c);
    c.append_child(&mut tree, d);
    assert!(d.has_ancestor(&tree, c));
    assert!(d.has_ancestor(&tree, a));
    assert!(b.has_ancestor(&tree, a));
    assert!(!d.has_ancestor(&tree, b));
    assert!(!d.has_ancestor(&tree, d));
    assert!(!a.has_ancestor(&tree, a));
    assert!(!a.has_ancestor(&tree, d));
    assert!(!c.has_ancestor(&tree, d));
    assert!(!d.has_ancestor(&tree, lone));
    assert!(!lone.has_ancestor(&tree, a));
}

#[test]
fn append_below_a_descendant_is_not_refused() {
    let mut tree = Tree::new();
    let a = element(&mut tree, "a");
    let b = element(&mut tree, "b");
    a.append_child(&mut tree, b);
    // `a` has no parent and no siblings, so it may be appended to `b`, although it
    // is an ancestor of `b`: the relations then run in a circle
    assert!(b.has_ancestor(&tree, a));
    assert_eq!(b.try_append_child(&mut tree, a), Ok(()));
    assert_eq!(relations(&tree, a), [Some(b), Some(b), Some(b), None, None]);
    assert_eq!(relations(&tree, b), [Some(a), Some(a), Some(a), None, None]);
}
