pub mod element;
pub mod grid;
pub mod matrix;
