pub mod decimal;
pub mod graph;
pub mod matrix;
