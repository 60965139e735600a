pub mod color;
pub mod grid;
pub mod rules;
