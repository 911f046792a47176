pub use crate::block::parser::BlockParser;
