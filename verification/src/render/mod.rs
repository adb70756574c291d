//! Output formats. Each renderer reads the document model only.

pub mod markdown;
pub mod text;
pub mod json;
