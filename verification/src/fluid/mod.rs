//! Fluid data structures: merge-tree chunks and their segment properties.

pub mod properties;
pub mod merge_tree;
