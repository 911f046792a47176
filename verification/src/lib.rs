//! Block-structure phase of a CommonMark-style Markdown parser.
pub mod block;
pub mod parser;
