//! A small directed-graph toolkit: a registry that hands out integer
//! identifiers for node objects, interchangeable graph backends, and two
//! path-finding algorithms (depth-first search and unit-weight shortest
//! path).
//!
//! Every backend exposes its state as a set of nodes and a set of ordered
//! node pairs, and all contracts are stated over those two sets.
//!
//! - [`mapping`]: the identifier registry.
//! - [`graph`] and [`keyed::graph`]: the two graph contracts, over handles
//!   that the graph hands out and over node objects of the caller's choice.
//! - [`impls`] and [`keyed::graph`]: the backends.
//! - [`algorithms`] and [`keyed::utils`]: the searches, for either contract.
//! - [`relation`] and [`path`]: the mathematics that the contracts speak of.
//! - [`store`]: the adjacency structures that the backends are built on.

pub mod algorithms;
pub mod graph;
pub mod impls;
pub mod keyed;
pub mod mapping;
pub mod path;
pub mod relation;
pub mod store;

