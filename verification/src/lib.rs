//! The document tree of a rendering engine: nodes held in an arena and wired into
//! an ordered first-child / next-sibling tree, traversal over that tree, the queries
//! a selector matcher asks of it, and the per-node records that layout attaches.

pub mod css;
pub mod dom;
pub mod layout;
pub mod util;
