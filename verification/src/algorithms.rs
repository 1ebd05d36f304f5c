//! Path-finding algorithms.

pub mod algo;
pub mod dense;
pub mod dfs;
pub mod dijkstra;
pub mod numbering;
pub mod queue;

pub use algo::Algorithm;
pub use dfs::Dfs;
pub use dijkstra::Dijkstra;

