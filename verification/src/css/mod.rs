//! What the style system asks of the tree.

pub mod select_handler;
