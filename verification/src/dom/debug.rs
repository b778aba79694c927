//! A dump of a subtree as text, one line per node, for diagnostics.

use vstd::prelude::*;
use crate::dom::element::ElementTypeId;
use crate::dom::node::{AbstractNode, Node, NodeTypeId};
use crate::dom::tree::Tree;

verus! {

/// How a tag is written in a dump.
pub open spec fn type_id_text(id: NodeTypeId) -> Seq<char> {
    match id {
        NodeTypeId::DoctypeNodeTypeId => "DoctypeNodeTypeId"@,
        NodeTypeId::CommentNodeTypeId => "CommentNodeTypeId"@,
        NodeTypeId::TextNodeTypeId => "TextNodeTypeId"@,
        NodeTypeId::ElementNodeTypeId(ElementTypeId::HTMLImageElementTypeId) =>
            "ElementNodeTypeId(HTMLImageElementTypeId)"@,
        NodeTypeId::ElementNodeTypeId(ElementTypeId::HTMLStyleElementTypeId) =>
            "ElementNodeTypeId(HTMLStyleElementTypeId)"@,
        NodeTypeId::ElementNodeTypeId(ElementTypeId::UnknownElementTypeId) =>
            "ElementNodeTypeId(UnknownElementTypeId)"@,
    }
}

/// The white space in front of a line `levels` levels deep: four blanks a level.
pub open spec fn indentation(levels: nat) -> Seq<char>
    decreases levels,
{
    if levels == 0 {
        Seq::empty()
    } else {
        indentation((levels - 1) as nat) + "    "@
    }
}

/// The characters of each string of a list.
pub open spec fn texts(lines: Seq<String>) -> Seq<Seq<char>> {
    Seq::new(lines.len(), |i: int| lines[i]@)
}

impl Tree {
    /// The line for `n` behind the white space `prefix`.
    pub open spec fn dump_line(&self, n: AbstractNode, prefix: Seq<char>) -> Seq<char> {
        prefix + type_id_text(self.record(n).type_id)
    }

    /// The lines for the subtrees of the children of `n` from the `i`-th on, the
    /// children behind the white space `prefix` and each level below them four blanks
    /// further in.
    pub open spec fn dump_from(&self, n: AbstractNode, i: nat, prefix: Seq<char>) -> Seq<Seq<char>>
        decreases self.levels_below(n), self.children(n).len() - i,
        when self.wf() && self.acyclic() && self.contains(n)
    {
        if i >= self.children(n).len() {
            Seq::empty()
        } else {
            let c = self.children(n)[i as int];
            proof {
                self.lemma_child_is_deeper(n, i as int);
            }
            (seq![self.dump_line(c, prefix)] + self.dump_from(c, 0, prefix + "    "@))
                + self.dump_from(n, i + 1, prefix)
        }
    }

    /// The lines for the subtree of `n` behind the white space `prefix`: the line for
    /// `n`, then the lines for the subtree of each child in turn, four blanks
    /// further in.
    pub open spec fn dump_behind(&self, n: AbstractNode, prefix: Seq<char>) -> Seq<Seq<char>> {
        seq![self.dump_line(n, prefix)] + self.dump_from(n, 0, prefix + "    "@)
    }

    /// The dump of the subtree of `n`, with `n` itself `indent` levels in.
    pub open spec fn dump_lines(&self, n: AbstractNode, indent: nat) -> Seq<Seq<char>> {
        self.dump_behind(n, indentation(indent))
    }
}

impl Node {
    /// The tag of this record as text.
    pub fn debug_str(&self) -> (text: String)
        ensures
            text@ == type_id_text(self.type_id),
    {
        let text = match self.type_id {
            NodeTypeId::DoctypeNodeTypeId => "DoctypeNodeTypeId",
            NodeTypeId::CommentNodeTypeId => "CommentNodeTypeId",
            NodeTypeId::TextNodeTypeId => "TextNodeTypeId",
            NodeTypeId::ElementNodeTypeId(ElementTypeId::HTMLImageElementTypeId) =>
                "ElementNodeTypeId(HTMLImageElementTypeId)",
            NodeTypeId::ElementNodeTypeId(ElementTypeId::HTMLStyleElementTypeId) =>
                "ElementNodeTypeId(HTMLStyleElementTypeId)",
            NodeTypeId::ElementNodeTypeId(ElementTypeId::UnknownElementTypeId) =>
                "ElementNodeTypeId(UnknownElementTypeId)",
        };
        String::from_str(text)
    }

    /// Dumps the subtree of `node`, one line per node in pre-order, each level four
    /// blanks further in than the one above.
    pub fn dump(tree: &Tree, node: AbstractNode) -> (lines: Vec<String>)
        requires
            tree.wf(),
            tree.acyclic(),
            tree.contains(node),
        ensures
            texts(lines@) == tree.dump_lines(node, 0),
    {
        Node::dump_indent(tree, node, 0)
    }

    /// Dumps the subtree of `node` with `node` itself `indent` levels in.
    pub fn dump_indent(tree: &Tree, node: AbstractNode, indent: usize) -> (lines: Vec<String>)
        requires
            tree.wf(),
            tree.acyclic(),
            tree.contains(node),
        ensures
            texts(lines@) == tree.dump_lines(node, indent as nat),
    {
        let mut s = String::new();
        let mut i: usize = 0;
        while i < indent
            invariant
                i <= indent,
                s@ == indentation(i as nat),
            decreases indent - i,
        {
            s.append("    ");
            i = i + 1;
        }
        let mut lines: Vec<String> = Vec::new();
        Node::dump_into(tree, node, s.as_str(), &mut lines);
        lines
    }

    /// Appends the dump of the subtree of `node` to `lines`, with `prefix` in front
    /// of the line for `node`.
    pub fn dump_into(tree: &Tree, node: AbstractNode, prefix: &str, lines: &mut Vec<String>)
        requires
            tree.wf(),
            tree.acyclic(),
            tree.contains(node),
        ensures
            texts(final(lines)@) == texts(old(lines)@) + tree.dump_behind(node, prefix@),
        decreases tree.levels_below(node),
    {
        let ghost start = texts(lines@);
        let line = String::from_str(prefix).concat(node.as_node(tree).debug_str().as_str());
        lines.push(line);
        let inner = String::from_str(prefix).concat("    ");
        let ghost kids = tree.children(node);
        let ghost mut i: nat = 0;
        let mut current_opt = node.first_child(tree);
        proof {
            assert(tree.node_wf(node));
        }
        while current_opt.is_some()
            invariant
                tree.wf(),
                tree.acyclic(),
                tree.contains(node),
                kids == tree.children(node),
                inner@ == prefix@ + "    "@,
                i <= kids.len(),
                current_opt == (if i < kids.len() { Some(kids[i as int]) } else { None }),
                texts(lines@) + tree.dump_from(node, i, inner@) == start + tree.dump_behind(
                    node,
                    prefix@,
                ),
            decreases kids.len() - i,
        {
            let kid = current_opt.unwrap();
            proof {
                tree.lemma_child_is_deeper(node, i as int);
                assert(tree.node_wf(node));
                assert(tree.child_wf(node, i as int));
                assert(tree.node_wf(kid));
            }
            Node::dump_into(tree, kid, inner.as_str(), lines);
            current_opt = kid.next_sibling(tree);
            proof {
                i = i + 1;
            }
        }
    }
}

/// White space for `a` levels followed by white space for `b` levels is white space
/// for `a + b` levels.
pub proof fn lemma_indentation_adds(a: nat, b: nat)
    ensures
        indentation(a) + indentation(b) == indentation(a + b),
    decreases b,
{
    if b > 0 {
        lemma_indentation_adds(a, (b - 1) as nat);
    }
}

impl Tree {
    /// The dump below `n` has one line for each node that the walk below `n` comes
    /// to.
    pub proof fn lemma_dump_from_len(&self, n: AbstractNode, i: nat, prefix: Seq<char>)
        requires
            self.wf(),
            self.acyclic(),
            self.contains(n),
        ensures
            self.dump_from(n, i, prefix).len() == self.preorder_from(n, i).len(),
        decreases self.levels_below(n), self.children(n).len() - i,
    {
        if i < self.children(n).len() {
            let c = self.children(n)[i as int];
            self.lemma_child_is_deeper(n, i as int);
            self.lemma_dump_from_len(c, 0, prefix + "    "@);
            self.lemma_dump_from_len(n, i + 1, prefix);
        }
    }

    /// The `k`-th line of the dump below `n` is the line for the `k`-th node that the
    /// walk below `n` comes to, four blanks further in for each level that the node
    /// lies below the children of `n`.
    pub proof fn lemma_dump_from_line(&self, n: AbstractNode, i: nat, prefix: Seq<char>, k: int)
        requires
            self.wf(),
            self.acyclic(),
            self.contains(n),
            0 <= k < self.preorder_from(n, i).len(),
        ensures
            self.depth(self.preorder_from(n, i)[k]) > self.depth(n),
            self.dump_from(n, i, prefix).len() == self.preorder_from(n, i).len(),
            self.dump_from(n, i, prefix)[k] == self.dump_line(
                self.preorder_from(n, i)[k],
                prefix + indentation(
                    (self.depth(self.preorder_from(n, i)[k]) - self.depth(n) - 1) as nat,
                ),
            ),
        decreases self.levels_below(n), self.children(n).len() - i,
    {
        let x = self.preorder_from(n, i)[k];
        if i < self.children(n).len() {
            let c = self.children(n)[i as int];
            self.lemma_child_is_deeper(n, i as int);
            let inner = prefix + "    "@;
            let below = self.preorder_from(c, 0);
            self.lemma_dump_from_len(c, 0, inner);
            self.lemma_dump_from_len(n, i + 1, prefix);
            if 0 < k < 1 + below.len() {
                self.lemma_dump_from_line(c, 0, inner, k - 1);
                lemma_indentation_adds(1, (self.depth(x) - self.depth(c) - 1) as nat);
            } else if k > 0 {
                self.lemma_dump_from_line(n, i + 1, prefix, k - 1 - below.len());
            }
        }
    }

    /// A dump follows the pre-order walk: it has one line per node of the subtree,
    /// in the order of the walk, and the line of a node is its tag behind four blanks
    /// for each level of the node below the start, on top of the indentation asked for.
    pub proof fn lemma_dump_follows_walk(&self, n: AbstractNode, indent: nat, k: int)
        requires
            self.wf(),
            self.acyclic(),
            self.contains(n),
            0 <= k < self.preorder(n).len(),
        ensures
            self.dump_lines(n, indent).len() == self.preorder(n).len(),
            self.depth(self.preorder(n)[k]) >= self.depth(n),
            self.dump_lines(n, indent)[k] == indentation(
                indent + (self.depth(self.preorder(n)[k]) - self.depth(n)) as nat,
            ) + type_id_text(self.record(self.preorder(n)[k]).type_id),
    {
        let inner = indentation(indent) + "    "@;
        self.lemma_dump_from_len(n, 0, inner);
        if k > 0 {
            self.lemma_dump_from_line(n, 0, inner, k - 1);
            let x = self.preorder(n)[k];
            lemma_indentation_adds(indent + 1, (self.depth(x) - self.depth(n) - 1) as nat);
        }
    }
}

} // verus!
