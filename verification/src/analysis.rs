//! Read-side analyses over the graph engine.

pub mod shortest_path;

pub use shortest_path::shortest_path_bfs;
