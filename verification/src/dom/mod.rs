//! The node graph: records, handles, concrete node kinds and the arena that owns them.

pub mod cast;
pub mod collect;
pub mod debug;
pub mod element;
pub mod node;
pub mod subtree;
pub mod traversal;
pub mod tree;
