pub mod atx_heading;
pub mod paragraph;
pub mod thematic;
