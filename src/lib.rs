pub mod board;
pub mod grid;
pub mod laws;
