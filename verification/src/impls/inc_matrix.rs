//! The matrix backend: a compacting registry, and a square grid of flags with
//! one row and one column per node.

use vstd::prelude::*;
use crate::keyed::graph::Graph;
use crate::keyed::registered::Registered;
use crate::store::matrix::Incidence;

verus! {

/// A graph that looks an edge up in a grid of flags.
///
/// Identifiers are dense: removing a node takes its row and its column out
/// of the grid and moves every larger identifier down by one.
pub struct IncMatrixGraph<N> {
    inner: Registered<N, Incidence>,
}

impl<N: Eq> IncMatrixGraph<N> {
    /// Creates a graph without nodes.
    pub fn new() -> (g: Self)
        ensures
            g.wf(),
            g.nodes() == Set::<N>::empty(),
            g.edges() == Set::<(N, N)>::empty(),
    {
        IncMatrixGraph { inner: Registered::new() }
    }
}

impl<N: Eq> Default for IncMatrixGraph<N> {
    fn default() -> (g: Self)
        ensures
            g.wf(),
            g.nodes() == Set::<N>::empty(),
            g.edges() == Set::<(N, N)>::empty(),
    {
        Self::new()
    }
}

impl<N: Eq> Graph<N> for IncMatrixGraph<N> {
    closed spec fn wf(&self) -> bool {
        self.inner.wf()
    }

    closed spec fn nodes(&self) -> Set<N> {
        self.inner.nodes()
    }

    closed spec fn edges(&self) -> Set<(N, N)> {
        self.inner.edges()
    }

    proof fn lemma_wf(&self) {
        self.inner.lemma_wf();
    }

    fn add_node(&mut self, n: N) {
        self.inner.add_node(n);
    }

    fn add_edge(&mut self, f: N, t: N) {
        self.inner.add_edge(f, t);
    }

    fn has_node(&self, n: &N) -> (b: bool) {
        self.inner.has_node(n)
    }

    fn has_edge(&self, f: &N, t: &N) -> (b: bool) {
        self.inner.has_edge(f, t)
    }

    fn remove_node(&mut self, n: &N) {
        self.inner.remove_node(n);
    }

    fn remove_edge(&mut self, f: &N, t: &N) {
        self.inner.remove_edge(f, t);
    }

    fn node_count(&self) -> (n: usize) {
        self.inner.node_count()
    }

    fn edge_count(&self) -> (n: usize) {
        self.inner.edge_count()
    }

    fn iter_nodes(&self) -> (r: Vec<&N>) {
        self.inner.iter_nodes()
    }

    fn iter_adj(&self, n: &N) -> (r: Option<Vec<&N>>) {
        self.inner.iter_adj(n)
    }

    fn iter_edges(&self) -> (r: Vec<(&N, &N)>) {
        self.inner.iter_edges()
    }
}

} // verus!
