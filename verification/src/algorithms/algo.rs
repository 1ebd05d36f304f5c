//! What a path-finding algorithm promises.

use vstd::laws_eq::obeys_concrete_eq;
use vstd::prelude::*;
use crate::graph::Graph;
use crate::path::{is_simple_path, reachable};

verus! {

/// A search for a path between two nodes of one graph.
pub trait Algorithm<G: Graph> {
    /// The graph that the search runs on.
    spec fn graph(&self) -> G;

    /// A simple path from `from` to `to`, if one exists and the two nodes
    /// differ. `None` if they are the same node, if either is not registered,
    /// or if no walk leads from one to the other.
    fn run(&self, from: G::Index, to: G::Index) -> (r: Option<Vec<G::Index>>)
        requires
            self.graph().wf(),
            obeys_concrete_eq::<G::Index>(),
        ensures
            r is Some <==> from != to && reachable(self.graph().edges(), from, to),
            r matches Some(p) ==> is_simple_path(self.graph().edges(), p@, from, to),
            !self.graph().nodes().contains(from) || !self.graph().nodes().contains(to) ==> r is None,
    ;
}

} // verus!
