//! The hash-set backend: a sparse registry, and one hash set of neighbour
//! identifiers per node.

use vstd::prelude::*;
use crate::keyed::graph::Graph;
use crate::keyed::registered::Registered;
use crate::store::sets::NeighborSets;

verus! {

/// A graph that looks an edge up in the hash set of its source node.
///
/// Identifiers are never reused: removing a node retires its identifier.
pub struct AdjMatrixGraph<N> {
    inner: Registered<N, NeighborSets>,
}

impl<N: Eq> AdjMatrixGraph<N> {
    /// Creates a graph without nodes.
    pub fn new() -> (g: Self)
        ensures
            g.wf(),
            g.nodes() == Set::<N>::empty(),
            g.edges() == Set::<(N, N)>::empty(),
    {
        AdjMatrixGraph { inner: Registered::new() }
    }
}

impl<N: Eq> Graph<N> for AdjMatrixGraph<N> {
    closed spec fn wf(&self) -> bool {
        self.inner.wf()
    }

    closed spec fn nodes(&self) -> Set<N> {
        self.inner.nodes()
    }

    closed spec fn edges(&self) -> Set<(N, N)> {
        self.inner.edges()
    }

    proof fn lemma_wf(&self) {
        self.inner.lemma_wf();
    }

    fn add_node(&mut self, n: N) {
        self.inner.add_node(n);
    }

    fn add_edge(&mut self, f: N, t: N) {
        self.inner.add_edge(f, t);
    }

    fn has_node(&self, n: &N) -> (b: bool) {
        self.inner.has_node(n)
    }

    fn has_edge(&self, f: &N, t: &N) -> (b: bool) {
        self.inner.has_edge(f, t)
    }

    fn remove_node(&mut self, n: &N) {
        self.inner.remove_node(n);
    }

    fn remove_edge(&mut self, f: &N, t: &N) {
        self.inner.remove_edge(f, t);
    }

    fn node_count(&self) -> (n: usize) {
        self.inner.node_count()
    }

    fn edge_count(&self) -> (n: usize) {
        self.inner.edge_count()
    }

    fn iter_nodes(&self) -> (r: Vec<&N>) {
        self.inner.iter_nodes()
    }

    fn iter_adj(&self, n: &N) -> (r: Option<Vec<&N>>) {
        self.inner.iter_adj(n)
    }

    fn iter_edges(&self) -> (r: Vec<(&N, &N)>) {
        self.inner.iter_edges()
    }
}

} // verus!
