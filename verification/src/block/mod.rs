pub mod container;
pub mod invariants;
pub mod laws;
pub mod leaf;
pub mod line_step;
pub mod libs;
pub mod parser;
pub mod shape;

pub use crate::parser::blocks;
