//! Element nodes: a tag name, an ordered attribute list, and the element subtypes.

use vstd::prelude::*;
use crate::dom::node::{Node, NodeTypeId};

verus! {

/// The subtype tag carried by every element node.
#[derive(Clone, Copy, PartialEq, Eq, Structural, Debug)]
pub enum ElementTypeId {
    HTMLImageElementTypeId,
    HTMLStyleElementTypeId,
    UnknownElementTypeId,
}

/// One attribute of an element.
pub struct Attr {
    pub name: String,
    pub value: String,
}

/// The first value stored under `name` in an attribute list, if any.
pub open spec fn find_attr(attrs: Seq<Attr>, name: Seq<char>) -> Option<Seq<char>>
    decreases attrs.len(),
{
    if attrs.len() == 0 {
        None
    } else if attrs[0].name@ == name {
        Some(attrs[0].value@)
    } else {
        find_attr(attrs.skip(1), name)
    }
}

/// Whether two strings hold the same characters.
pub fn str_eq(a: &str, b: &str) -> (same: bool)
    ensures
        same == (a@ == b@),
{
    let x = a.as_bytes();
    let y = b.as_bytes();
    proof {
        vstd::utf8::encode_utf8_decode_utf8(a@);
        vstd::utf8::encode_utf8_decode_utf8(b@);
    }
    if x.len() != y.len() {
        return false;
    }
    let mut i: usize = 0;
    while i < x.len()
        invariant
            i <= x.len(),
            x.len() == y.len(),
            x@ == vstd::utf8::encode_utf8(a@),
            y@ == vstd::utf8::encode_utf8(b@),
            forall|k: int| 0 <= k < i ==> x@[k] == y@[k],
        decreases x.len() - i,
    {
        if x[i] != y[i] {
            return false;
        }
        i = i + 1;
    }
    assert(x@ =~= y@);
    true
}

/// A generic element: the node record, the tag name and the attributes.
pub struct Element {
    pub parent: Node,
    pub tag_name: String,
    pub attrs: Vec<Attr>,
}

impl Element {
    /// A detached element of the given subtype and tag name, without attributes.
    pub fn new(type_id: ElementTypeId, tag_name: String) -> (e: Element)
        ensures
            e.parent == Node::fresh(NodeTypeId::ElementNodeTypeId(type_id)),
            e.tag_name == tag_name,
            e.attrs@.len() == 0,
    {
        Element {
            parent: Node::new(NodeTypeId::ElementNodeTypeId(type_id)),
            tag_name,
            attrs: Vec::new(),
        }
    }

    /// The value of the first attribute called `name`.
    pub open spec fn attr(self, name: Seq<char>) -> Option<Seq<char>> {
        find_attr(self.attrs@, name)
    }

    /// Looks an attribute up by name; the first one of that name counts.
    pub fn get_attr(&self, name: &str) -> (value: Option<&String>)
        ensures
            value is Some <==> self.attr(name@) is Some,
            value matches Some(v) ==> Some(v@) == self.attr(name@),
    {
        let mut i: usize = 0;
        assert(self.attrs@.skip(0) =~= self.attrs@);
        while i < self.attrs.len()
            invariant
                i <= self.attrs.len(),
                find_attr(self.attrs@, name@) == find_attr(self.attrs@.skip(i as int), name@),
            decreases self.attrs.len() - i,
        {
            proof {
                assert(self.attrs@.skip(i as int).skip(1) =~= self.attrs@.skip(i as int + 1));
            }
            if str_eq(self.attrs[i].name.as_str(), name) {
                return Some(&self.attrs[i].value);
            }
            i = i + 1;
        }
        None
    }

    /// Appends an attribute; an earlier attribute of the same name keeps precedence.
    pub fn push_attr(&mut self, name: String, value: String)
        ensures
            final(self).parent == old(self).parent,
            final(self).tag_name == old(self).tag_name,
            final(self).attrs@ == old(self).attrs@.push(Attr { name, value }),
    {
        self.attrs.push(Attr { name, value });
    }
}

/// An image element: an element plus the address of its image, once known.
pub struct HTMLImageElement {
    pub parent: Element,
    pub image: Option<String>,
}

impl HTMLImageElement {
    /// A detached `img` element with no image address.
    pub fn new() -> (e: HTMLImageElement)
        ensures
            e.parent.parent == Node::fresh(
                NodeTypeId::ElementNodeTypeId(ElementTypeId::HTMLImageElementTypeId),
            ),
            e.parent.tag_name@ == "img"@,
            e.parent.attrs@.len() == 0,
            e.image is None,
    {
        HTMLImageElement {
            parent: Element::new(ElementTypeId::HTMLImageElementTypeId, String::from_str("img")),
            image: None,
        }
    }
}

/// A style element.
pub struct HTMLStyleElement {
    pub parent: Element,
}

impl HTMLStyleElement {
    /// A detached `style` element.
    pub fn new() -> (e: HTMLStyleElement)
        ensures
            e.parent.parent == Node::fresh(
                NodeTypeId::ElementNodeTypeId(ElementTypeId::HTMLStyleElementTypeId),
            ),
            e.parent.tag_name@ == "style"@,
            e.parent.attrs@.len() == 0,
    {
        HTMLStyleElement {
            parent: Element::new(ElementTypeId::HTMLStyleElementTypeId, String::from_str("style")),
        }
    }
}

} // verus!
