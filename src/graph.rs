pub mod bfs;
pub mod dfs;
pub mod dijkstra;
pub mod reach;

pub use bfs::{bfs, bfs_with_callback};
pub use dfs::{dfs, dfs_with_callback};
pub use dijkstra::{dijkstra, dijkstra_with_path, Edge};
