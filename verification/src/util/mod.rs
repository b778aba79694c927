//! Helpers that are not about the tree.

pub mod time;
