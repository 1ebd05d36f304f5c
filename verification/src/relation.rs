//! Edge relations as sets of ordered pairs, and what removing a node does to
//! them.

use vstd::prelude::*;

verus! {

/// Every edge of `edges` joins two members of `nodes`.
pub open spec fn edges_within<T>(nodes: Set<T>, edges: Set<(T, T)>) -> bool {
    forall|a: T, b: T| #[trigger] edges.contains((a, b)) ==> nodes.contains(a) && nodes.contains(b)
}

/// The nodes that an edge leads to from `n`.
pub open spec fn successors<T>(edges: Set<(T, T)>, n: T) -> Set<T> {
    Set::new(|t: T| edges.contains((n, t)))
}

/// The edges that start or end at `n`.
pub open spec fn incident<T>(edges: Set<(T, T)>, n: T) -> Set<(T, T)> {
    edges.filter(|e: (T, T)| e.0 == n || e.1 == n)
}

/// The edges that neither start nor end at `n`.
pub open spec fn without<T>(edges: Set<(T, T)>, n: T) -> Set<(T, T)> {
    edges.filter(|e: (T, T)| e.0 != n && e.1 != n)
}

/// The edges that do not start at `n`.
pub open spec fn without_source<T>(edges: Set<(T, T)>, n: T) -> Set<(T, T)> {
    edges.filter(|e: (T, T)| e.0 != n)
}

/// Removing a node takes away exactly the edges incident to it.
pub proof fn lemma_without_len<T>(edges: Set<(T, T)>, n: T)
    requires
        edges.finite(),
    ensures
        without(edges, n).finite(),
        incident(edges, n).finite(),
        without(edges, n).len() == edges.len() - incident(edges, n).len(),
{
    edges.lemma_len_filter(|e: (T, T)| e.0 != n && e.1 != n);
    edges.lemma_len_filter(|e: (T, T)| e.0 == n || e.1 == n);
    vstd::set_lib::lemma_set_difference_len(edges, incident(edges, n));
    assert(edges.difference(incident(edges, n)) =~= without(edges, n));
    assert(edges.intersect(incident(edges, n)) =~= incident(edges, n));
}

/// Dropping every edge that starts at `n` takes away as many edges as `n`
/// has successors.
pub proof fn lemma_without_source_len<T>(edges: Set<(T, T)>, n: T)
    requires
        edges.finite(),
    ensures
        without_source(edges, n).finite(),
        successors(edges, n).finite(),
        without_source(edges, n).len() == edges.len() - successors(edges, n).len(),
{
    let out = edges.filter(|e: (T, T)| e.0 == n);
    edges.lemma_len_filter(|e: (T, T)| e.0 != n);
    edges.lemma_len_filter(|e: (T, T)| e.0 == n);
    vstd::set_lib::lemma_set_difference_len(edges, out);
    assert(edges.difference(out) =~= without_source(edges, n));
    assert(edges.intersect(out) =~= out);
    let snd = |e: (T, T)| e.1;
    assert(out.map(snd) =~= successors(edges, n)) by {
        assert forall|t: T| successors(edges, n).contains(t) implies out.map(snd).contains(t) by {
            assert(out.contains((n, t)));
        }
    }
    assert(vstd::relations::injective_on(snd, out));
    vstd::set_lib::lemma_map_size(out, successors(edges, n), snd);
}

/// An edge that has been added is present; once it has been removed again
/// it is absent.
pub proof fn lemma_added_then_removed<T>(edges: Set<(T, T)>, a: T, b: T)
    ensures
        edges.insert((a, b)).contains((a, b)),
        !edges.insert((a, b)).remove((a, b)).contains((a, b)),
{
}

/// Adding an edge a second time changes neither the edges nor their number.
pub proof fn lemma_added_twice<T>(edges: Set<(T, T)>, a: T, b: T)
    requires
        edges.finite(),
    ensures
        edges.insert((a, b)).insert((a, b)) == edges.insert((a, b)),
        edges.insert((a, b)).insert((a, b)).len() == edges.insert((a, b)).len(),
        edges.insert((a, b)).len() == edges.len() + if edges.contains((a, b)) {
            0int
        } else {
            1int
        },
{
    assert(edges.insert((a, b)).insert((a, b)) =~= edges.insert((a, b)));
}

/// Removing a node takes the number of nodes down by one if the node was
/// there and leaves it as it is if not, and takes the number of edges down
/// by the number of edges that started or ended at the node.
pub proof fn lemma_node_removed<T>(nodes: Set<T>, edges: Set<(T, T)>, n: T)
    requires
        nodes.finite(),
        edges.finite(),
    ensures
        nodes.remove(n).len() == nodes.len() - if nodes.contains(n) {
            1int
        } else {
            0int
        },
        without(edges, n).len() == edges.len() - incident(edges, n).len(),
{
    lemma_without_len(edges, n);
}

} // verus!
