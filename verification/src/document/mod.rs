//! The document model and its reconstruction from merge trees.

pub mod model;
pub mod reconstruct;
