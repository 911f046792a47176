pub mod blocks;
pub mod display;
pub mod formatting;
pub mod parser;
