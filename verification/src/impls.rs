//! The graph backends: adjacency lists over handles, hash sets of neighbours
//! over node objects, and a grid of flags over node objects.

pub mod adj_list;
pub mod adj_matrix;
pub mod inc_matrix;

