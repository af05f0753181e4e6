pub mod graph;
pub mod math;
pub mod structure;
