//! The contract of a graph over node objects, and the backend that keeps its
//! nodes in one arena and refers to them by position.

use vstd::laws_eq::obeys_concrete_eq;
use vstd::prelude::*;
use crate::keyed::registered::Registered;
use crate::relation::{edges_within, incident, successors, without};
use crate::store::lists::NeighborLists;

verus! {

/// A directed graph over nodes of type `N`, without parallel edges.
///
/// The state of a graph is its set of nodes and its set of edges; every
/// operation says what it does to the two.
pub trait Graph<N: Eq>: Sized {
    /// The backend's internal invariant. Every constructor establishes it and
    /// every operation keeps it.
    spec fn wf(&self) -> bool;

    /// The registered nodes.
    spec fn nodes(&self) -> Set<N>;

    /// The edges present, as ordered pairs (from, to).
    spec fn edges(&self) -> Set<(N, N)>;

    /// Both sets are finite, and edges join registered nodes only.
    proof fn lemma_wf(&self)
        requires
            self.wf(),
        ensures
            self.nodes().finite(),
            self.edges().finite(),
            edges_within(self.nodes(), self.edges()),
    ;

    /// Registers `n`; no effect if an equal node is registered already.
    fn add_node(&mut self, n: N)
        requires
            old(self).wf(),
            obeys_concrete_eq::<N>(),
        ensures
            final(self).wf(),
            final(self).nodes() == old(self).nodes().insert(n),
            final(self).edges() == old(self).edges(),
    ;

    /// Registers `f` and `t` where they are not, and marks the edge from `f`
    /// to `t` present.
    fn add_edge(&mut self, f: N, t: N)
        requires
            old(self).wf(),
            obeys_concrete_eq::<N>(),
            old(self).edges().contains((f, t)) || old(self).edges().len() < usize::MAX,
        ensures
            final(self).wf(),
            final(self).nodes() == old(self).nodes().insert(f).insert(t),
            final(self).edges() == old(self).edges().insert((f, t)),
            final(self).edges().contains((f, t)),
            final(self).edges().len() == old(self).edges().len() + if old(self).edges().contains(
                (f, t),
            ) {
                0int
            } else {
                1int
            },
    ;

    /// Whether `n` is registered.
    fn has_node(&self, n: &N) -> (b: bool)
        requires
            self.wf(),
            obeys_concrete_eq::<N>(),
        ensures
            b == self.nodes().contains(*n),
    ;

    /// Whether the edge from `f` to `t` is present.
    fn has_edge(&self, f: &N, t: &N) -> (b: bool)
        requires
            self.wf(),
            obeys_concrete_eq::<N>(),
        ensures
            b == self.edges().contains((*f, *t)),
    ;

    /// Takes `n` out of the graph together with every edge that starts or
    /// ends at it; no effect if `n` is not registered.
    fn remove_node(&mut self, n: &N)
        requires
            old(self).wf(),
            obeys_concrete_eq::<N>(),
        ensures
            final(self).wf(),
            final(self).nodes() == old(self).nodes().remove(*n),
            final(self).edges() == without(old(self).edges(), *n),
            final(self).nodes().len() == old(self).nodes().len() - if old(self).nodes().contains(
                *n,
            ) {
                1int
            } else {
                0int
            },
            final(self).edges().len() == old(self).edges().len() - incident(
                old(self).edges(),
                *n,
            ).len(),
    ;

    /// Takes the edge from `f` to `t` out of the graph; no effect if it is
    /// not present.
    fn remove_edge(&mut self, f: &N, t: &N)
        requires
            old(self).wf(),
            obeys_concrete_eq::<N>(),
        ensures
            final(self).wf(),
            final(self).nodes() == old(self).nodes(),
            final(self).edges() == old(self).edges().remove((*f, *t)),
            !final(self).edges().contains((*f, *t)),
    ;

    /// The number of registered nodes.
    fn node_count(&self) -> (n: usize)
        requires
            self.wf(),
        ensures
            n == self.nodes().len(),
    ;

    /// The number of edges present.
    fn edge_count(&self) -> (n: usize)
        requires
            self.wf(),
        ensures
            n == self.edges().len(),
    ;

    /// The registered nodes, each once, in no particular order.
    fn iter_nodes(&self) -> (r: Vec<&N>)
        requires
            self.wf(),
        ensures
            r@.unref().no_duplicates(),
            r@.unref().to_set() == self.nodes(),
    ;

    /// The nodes that an edge leads to from `n`, each once, in no particular
    /// order; `None` if `n` is not registered.
    fn iter_adj(&self, n: &N) -> (r: Option<Vec<&N>>)
        requires
            self.wf(),
            obeys_concrete_eq::<N>(),
        ensures
            r is Some <==> self.nodes().contains(*n),
            r matches Some(v) ==> v@.unref().no_duplicates() && v@.unref().to_set() == successors(
                self.edges(),
                *n,
            ),
    ;

    /// The edges present, each once, in no particular order.
    fn iter_edges(&self) -> (r: Vec<(&N, &N)>)
        requires
            self.wf(),
        ensures
            r@.unref().no_duplicates(),
            r@.unref().to_set() == self.edges(),
    ;
}

/// A graph that owns its nodes in one arena and keeps, for each of them, the
/// list of the arena positions that it has an edge to.
///
/// A position is never reused: removing a node leaves its slot empty.
pub struct AdjMatrixGraph<N> {
    inner: Registered<N, NeighborLists>,
}

impl<N: Eq> AdjMatrixGraph<N> {
    /// Creates a graph without nodes.
    pub fn new() -> (g: Self)
        ensures
            g.wf(),
            g.nodes() == Set::<N>::empty(),
            g.edges() == Set::<(N, N)>::empty(),
    {
        AdjMatrixGraph { inner: Registered::new() }
    }
}

impl<N: Eq> Graph<N> for AdjMatrixGraph<N> {
    closed spec fn wf(&self) -> bool {
        self.inner.wf()
    }

    closed spec fn nodes(&self) -> Set<N> {
        self.inner.nodes()
    }

    closed spec fn edges(&self) -> Set<(N, N)> {
        self.inner.edges()
    }

    proof fn lemma_wf(&self) {
        self.inner.lemma_wf();
    }

    fn add_node(&mut self, n: N) {
        self.inner.add_node(n);
    }

    fn add_edge(&mut self, f: N, t: N) {
        self.inner.add_edge(f, t);
    }

    fn has_node(&self, n: &N) -> (b: bool) {
        self.inner.has_node(n)
    }

    fn has_edge(&self, f: &N, t: &N) -> (b: bool) {
        self.inner.has_edge(f, t)
    }

    fn remove_node(&mut self, n: &N) {
        self.inner.remove_node(n);
    }

    fn remove_edge(&mut self, f: &N, t: &N) {
        self.inner.remove_edge(f, t);
    }

    fn node_count(&self) -> (n: usize) {
        self.inner.node_count()
    }

    fn edge_count(&self) -> (n: usize) {
        self.inner.edge_count()
    }

    fn iter_nodes(&self) -> (r: Vec<&N>) {
        self.inner.iter_nodes()
    }

    fn iter_adj(&self, n: &N) -> (r: Option<Vec<&N>>) {
        self.inner.iter_adj(n)
    }

    fn iter_edges(&self) -> (r: Vec<(&N, &N)>) {
        self.inner.iter_edges()
    }
}

} // verus!
