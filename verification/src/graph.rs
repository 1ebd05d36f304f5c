//! The contract of a graph whose nodes are handles that the graph itself
//! hands out.

use vstd::prelude::*;
use crate::relation::{edges_within, incident, successors, without};

verus! {

/// A directed graph over handles of type `Index`, without parallel edges.
///
/// The state of a graph is its set of nodes and its set of edges; every
/// operation says what it does to the two.
pub trait Graph: Sized {
    type Index: Eq + Copy;

    /// The backend's internal invariant. Every constructor establishes it and
    /// every operation keeps it.
    spec fn wf(&self) -> bool;

    /// The registered nodes.
    spec fn nodes(&self) -> Set<Self::Index>;

    /// The edges present, as ordered pairs (from, to).
    spec fn edges(&self) -> Set<(Self::Index, Self::Index)>;

    /// Whether the backend has a handle left that it has never given to a
    /// node.
    spec fn has_spare_index(&self) -> bool;

    /// Both sets are finite, and edges join registered nodes only.
    proof fn lemma_wf(&self)
        requires
            self.wf(),
        ensures
            self.nodes().finite(),
            self.edges().finite(),
            edges_within(self.nodes(), self.edges()),
    ;

    /// Whether a handle is left for one more node.
    fn can_add_node(&self) -> (b: bool)
        requires
            self.wf(),
        ensures
            b == self.has_spare_index(),
    ;

    /// Registers a new node and returns its handle.
    fn add_node(&mut self) -> (id: Self::Index)
        requires
            old(self).wf(),
            old(self).has_spare_index(),
        ensures
            final(self).wf(),
            !old(self).nodes().contains(id),
            final(self).nodes() == old(self).nodes().insert(id),
            final(self).edges() == old(self).edges(),
    ;

    /// Registers `f` and `t` where they are not, and marks the edge from `f`
    /// to `t` present.
    fn add_edge(&mut self, f: Self::Index, t: Self::Index)
        requires
            old(self).wf(),
            old(self).edges().contains((f, t)) || old(self).edges().len() < usize::MAX,
        ensures
            final(self).wf(),
            final(self).nodes() == old(self).nodes().insert(f).insert(t),
            final(self).edges() == old(self).edges().insert((f, t)),
            final(self).edges().contains((f, t)),
            final(self).edges().len() == old(self).edges().len() + if old(self).edges().contains(
                (f, t),
            ) {
                0int
            } else {
                1int
            },
    ;

    /// Whether the edge from `f` to `t` is present.
    fn has_edge(&self, f: Self::Index, t: Self::Index) -> (b: bool)
        requires
            self.wf(),
        ensures
            b == self.edges().contains((f, t)),
    ;

    /// Takes `n` out of the graph together with every edge that starts or
    /// ends at it; no effect if `n` is not registered.
    fn remove_node(&mut self, n: Self::Index)
        requires
            old(self).wf(),
        ensures
            final(self).wf(),
            final(self).nodes() == old(self).nodes().remove(n),
            final(self).edges() == without(old(self).edges(), n),
            final(self).nodes().len() == old(self).nodes().len() - if old(self).nodes().contains(
                n,
            ) {
                1int
            } else {
                0int
            },
            final(self).edges().len() == old(self).edges().len() - incident(
                old(self).edges(),
                n,
            ).len(),
    ;

    /// Takes the edge from `f` to `t` out of the graph; no effect if it is
    /// not present.
    fn remove_edge(&mut self, f: Self::Index, t: Self::Index)
        requires
            old(self).wf(),
        ensures
            final(self).wf(),
            final(self).nodes() == old(self).nodes(),
            final(self).edges() == old(self).edges().remove((f, t)),
            !final(self).edges().contains((f, t)),
    ;

    /// The number of registered nodes.
    fn node_count(&self) -> (n: usize)
        requires
            self.wf(),
        ensures
            n == self.nodes().len(),
    ;

    /// The number of edges present.
    fn edge_count(&self) -> (n: usize)
        requires
            self.wf(),
        ensures
            n == self.edges().len(),
    ;

    /// The registered nodes, each once, in no particular order.
    fn iter_nodes(&self) -> (r: Vec<Self::Index>)
        requires
            self.wf(),
        ensures
            r@.no_duplicates(),
            r@.to_set() == self.nodes(),
    ;

    /// The nodes that an edge leads to from `n`, each once, in no particular
    /// order; `None` if `n` is not registered.
    fn iter_adj(&self, n: Self::Index) -> (r: Option<Vec<Self::Index>>)
        requires
            self.wf(),
        ensures
            r is Some <==> self.nodes().contains(n),
            r matches Some(v) ==> v@.no_duplicates() && v@.to_set() == successors(self.edges(), n),
    ;

    /// The edges present, each once, in no particular order.
    fn iter_edges(&self) -> (r: Vec<(Self::Index, Self::Index)>)
        requires
            self.wf(),
        ensures
            r@.no_duplicates(),
            r@.to_set() == self.edges(),
    ;
}

} // verus!
