pub mod misc;
pub mod text;
