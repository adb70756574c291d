//! Reading Microsoft Loop and Fluid containers.

pub mod text;
pub mod search;
pub mod order;
pub mod strmap;
pub mod json;
pub mod digest;
pub mod warning;
pub mod discovery;
pub mod gzip;
pub mod fluid;
pub mod operations;
pub mod container;
pub mod document;
pub mod input;
pub mod analysis;
pub mod render;
pub mod inspect;
pub mod outcome;
pub mod cli;
