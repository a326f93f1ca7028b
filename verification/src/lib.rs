pub mod codec;
pub mod grid;
