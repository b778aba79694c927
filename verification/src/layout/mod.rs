//! What the layout pass keeps on the nodes of the tree.

pub mod aux;
