//! Graphs whose nodes are objects of a caller-chosen type, compared by
//! equality: their contract, the pairing of a registry with an edge store
//! that the backends share, and path finding on them.

pub mod graph;
pub mod registered;
pub mod utils;

