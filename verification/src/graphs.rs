pub mod graph;
pub mod render;
