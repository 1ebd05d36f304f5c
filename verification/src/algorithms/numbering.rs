//! Numbering the nodes of a graph, so that a search can work on positions
//! and its result can be read back as nodes.

use vstd::laws_eq::obeys_concrete_eq;
use vstd::prelude::*;
use crate::algorithms::dense::{in_range, links};
use crate::graph::Graph;
use crate::path::{connects, is_shortest, lemma_walk_within, reachable};
use crate::relation::{edges_within, successors};

verus! {

/// The neighbour lists `adj` describe the edge relation `edges` under the
/// numbering that gives `names[i]` the position `i`.
pub open spec fn encodes<T>(names: Seq<T>, adj: Seq<Vec<usize>>, edges: Set<(T, T)>) -> bool {
    &&& names.no_duplicates()
    &&& names.len() <= usize::MAX
    &&& adj.len() == names.len()
    &&& in_range(adj)
    &&& edges_within(names.to_set(), edges)
    &&& forall|i: int, j: int|
        #![trigger adj[i]@.contains(j as usize)]
        #![trigger edges.contains((names[i], names[j]))]
        0 <= i < names.len() && 0 <= j < names.len() ==> (adj[i]@.contains(j as usize)
            <==> edges.contains((names[i], names[j])))
}

/// The nodes at the positions `p`.
pub open spec fn named_path<T>(names: Seq<T>, p: Seq<usize>) -> Seq<T> {
    Seq::new(p.len(), |i: int| names[p[i] as int])
}

/// The position of `x`.
pub open spec fn position_of<T>(names: Seq<T>, x: T) -> usize {
    choose|k: usize| k < names.len() && names[k as int] == x
}

/// The positions of the nodes `q`.
pub open spec fn numbered_path<T>(names: Seq<T>, q: Seq<T>) -> Seq<usize> {
    Seq::new(q.len(), |i: int| position_of(names, q[i]))
}

/// A walk over positions, read back as nodes, is a walk of the graph with
/// as many entries; it repeats a node only if the walk repeats a position.
pub proof fn lemma_named_path<T>(
    names: Seq<T>,
    adj: Seq<Vec<usize>>,
    edges: Set<(T, T)>,
    p: Seq<usize>,
    from: usize,
    to: usize,
)
    requires
        encodes(names, adj, edges),
        from < names.len(),
        connects(links(adj), p, from, to),
    ensures
        to < names.len(),
        connects(edges, named_path(names, p), names[from as int], names[to as int]),
        p.no_duplicates() ==> named_path(names, p).no_duplicates(),
{
    let q = named_path(names, p);
    assert forall|i: int| 0 <= i < p.len() implies (#[trigger] p[i]) < names.len() by {
        crate::algorithms::dense::lemma_walk_in_range(adj, p, i);
    }
    assert forall|i: int| 0 <= i < q.len() - 1 implies #[trigger] edges.contains(
        (q[i], q[i + 1]),
    ) by {
        assert(links(adj).contains((p[i], p[i + 1])));
        assert(p[i] < names.len() && p[i + 1] < names.len());
        assert(adj[p[i] as int]@.contains(p[i + 1] as int as usize));
    }
    if p.no_duplicates() {
        assert forall|i: int, j: int| 0 <= i < q.len() && 0 <= j < q.len() && i != j implies q[i]
            != q[j] by {
            assert(p[i] != p[j]);
            assert(p[i] < names.len() && p[j] < names.len());
        }
    }
}

/// A walk of the graph, read as positions, is a walk over positions with as
/// many entries.
pub proof fn lemma_numbered_path<T>(
    names: Seq<T>,
    adj: Seq<Vec<usize>>,
    edges: Set<(T, T)>,
    q: Seq<T>,
    from: usize,
    to: usize,
)
    requires
        encodes(names, adj, edges),
        from < names.len(),
        to < names.len(),
        connects(edges, q, names[from as int], names[to as int]),
    ensures
        connects(links(adj), numbered_path(names, q), from, to),
{
    let p = numbered_path(names, q);
    lemma_walk_within(names.to_set(), edges, q, names[from as int], names[to as int]);
    assert forall|i: int| 0 <= i < q.len() implies (#[trigger] p[i]) < names.len() && names[p[i] as int]
        == q[i] by {
        assert(names.to_set().contains(q[i]));
        let k = choose|k: int| 0 <= k < names.len() && names[k] == q[i];
        assert((k as usize) < names.len() && names[k as usize as int] == q[i]);
    }
    assert(p[0] == from);
    assert(p[p.len() - 1] == to);
    assert forall|i: int| 0 <= i < p.len() - 1 implies #[trigger] links(adj).contains(
        (p[i], p[i + 1]),
    ) by {
        assert(edges.contains((q[i], q[i + 1])));
        assert(p[i] < names.len() && names[p[i] as int] == q[i]);
        assert(p[i + 1] < names.len() && names[p[i + 1] as int] == q[i + 1]);
        assert(edges.contains((names[p[i] as int], names[p[i + 1] as int])));
        assert(adj[p[i] as int]@.contains(p[i + 1] as int as usize));
    }
}

/// Two nodes are joined by a walk of the graph exactly when their positions
/// are joined by a walk over positions.
pub proof fn lemma_reachable_alike<T>(
    names: Seq<T>,
    adj: Seq<Vec<usize>>,
    edges: Set<(T, T)>,
    from: usize,
    to: usize,
)
    requires
        encodes(names, adj, edges),
        from < names.len(),
        to < names.len(),
    ensures
        reachable(links(adj), from, to) <==> reachable(
            edges,
            names[from as int],
            names[to as int],
        ),
{
    if reachable(links(adj), from, to) {
        let p = choose|p: Seq<usize>| connects(links(adj), p, from, to);
        lemma_named_path(names, adj, edges, p, from, to);
    }
    if reachable(edges, names[from as int], names[to as int]) {
        let q = choose|q: Seq<T>| connects(edges, q, names[from as int], names[to as int]);
        lemma_numbered_path(names, adj, edges, q, from, to);
    }
}

/// A shortest walk over positions, read back as nodes, is a shortest walk of
/// the graph.
pub proof fn lemma_shortest_alike<T>(
    names: Seq<T>,
    adj: Seq<Vec<usize>>,
    edges: Set<(T, T)>,
    p: Seq<usize>,
    from: usize,
    to: usize,
)
    requires
        encodes(names, adj, edges),
        from < names.len(),
        to < names.len(),
        is_shortest(links(adj), p, from, to),
    ensures
        is_shortest(edges, named_path(names, p), names[from as int], names[to as int]),
{
    assert forall|q: Seq<T>| #[trigger]
        connects(edges, q, names[from as int], names[to as int]) implies named_path(names, p).len()
        <= q.len() by {
        lemma_numbered_path(names, adj, edges, q, from, to);
        assert(connects(links(adj), numbered_path(names, q), from, to));
    }
}

/// A walk that leaves the registered nodes does not exist.
pub proof fn lemma_unregistered_unreachable<T>(nodes: Set<T>, edges: Set<(T, T)>, from: T, to: T)
    requires
        edges_within(nodes, edges),
        !nodes.contains(from) || !nodes.contains(to),
    ensures
        !reachable(edges, from, to),
{
    if reachable(edges, from, to) {
        let q = choose|q: Seq<T>| connects(edges, q, from, to);
        lemma_walk_within(nodes, edges, q, from, to);
        assert(nodes.contains(q[0]));
        assert(nodes.contains(q[q.len() - 1]));
    }
}

/// The position at which `x` stands in `names`.
pub fn index_of<I: Eq + Copy>(names: &Vec<I>, x: I) -> (r: Option<usize>)
    requires
        obeys_concrete_eq::<I>(),
    ensures
        match r {
            Some(i) => i < names@.len() && names@[i as int] == x,
            None => !names@.contains(x),
        },
{
    let mut i: usize = 0;
    while i < names.len()
        invariant
            i <= names@.len(),
            obeys_concrete_eq::<I>(),
            forall|j: int| 0 <= j < i ==> names@[j] != x,
        decreases names@.len() - i,
    {
        proof {
            reveal(obeys_concrete_eq);
        }
        if names[i] == x {
            return Some(i);
        }
        i += 1;
    }
    None
}

/// Numbers the nodes of `g` and copies its adjacency into neighbour lists
/// over the numbers.
pub fn number<G: Graph>(g: &G) -> (r: (Vec<G::Index>, Vec<Vec<usize>>))
    requires
        g.wf(),
        obeys_concrete_eq::<G::Index>(),
    ensures
        encodes(r.0@, r.1@, g.edges()),
        r.0@.to_set() == g.nodes(),
{
    proof {
        g.lemma_wf();
    }
    let names = g.iter_nodes();
    let mut adj: Vec<Vec<usize>> = Vec::new();
    let mut i: usize = 0;
    while i < names.len()
        invariant
            g.wf(),
            obeys_concrete_eq::<G::Index>(),
            edges_within(g.nodes(), g.edges()),
            names@.no_duplicates(),
            names@.to_set() == g.nodes(),
            i <= names@.len(),
            adj@.len() == i,
            forall|a: int, k: int|
                0 <= a < i && 0 <= k < adj@[a]@.len() ==> (#[trigger] adj@[a]@[k]) < names@.len(),
            forall|a: int, b: int|
                #![trigger adj@[a]@.contains(b as usize)]
                #![trigger g.edges().contains((names@[a], names@[b]))]
                0 <= a < i && 0 <= b < names@.len() ==> (adj@[a]@.contains(b as usize)
                    <==> g.edges().contains((names@[a], names@[b]))),
        decreases names@.len() - i,
    {
        let node = names[i];
        assert(names@.to_set().contains(node));
        let out = g.iter_adj(node).unwrap();
        let mut row: Vec<usize> = Vec::new();
        let mut k: usize = 0;
        while k < out.len()
            invariant
                obeys_concrete_eq::<G::Index>(),
                edges_within(g.nodes(), g.edges()),
                names@.to_set() == g.nodes(),
                out@.to_set() == successors(g.edges(), node),
                k <= out@.len(),
                row@.len() == k,
                forall|m: int|
                    0 <= m < k ==> (#[trigger] row@[m]) < names@.len() && names@[row@[m] as int]
                        == out@[m],
            decreases out@.len() - k,
        {
            let next = out[k];
            assert(out@.to_set().contains(next));
            assert(g.edges().contains((node, next)));
            assert(names@.to_set().contains(next));
            let j = index_of(&names, next).unwrap();
            row.push(j);
            k += 1;
        }
        proof {
            assert forall|b: int| 0 <= b < names@.len() implies (row@.contains(b as usize)
                <==> g.edges().contains((names@[i as int], names@[b]))) by {
                if row@.contains(b as usize) {
                    let m = choose|m: int| 0 <= m < row@.len() && row@[m] == b as usize;
                    assert(names@[row@[m] as int] == out@[m]);
                    assert(out@.to_set().contains(out@[m]));
                }
                if g.edges().contains((names@[i as int], names@[b])) {
                    assert(out@.to_set().contains(names@[b]));
                    let m = choose|m: int| 0 <= m < out@.len() && out@[m] == names@[b];
                    assert(names@[row@[m] as int] == out@[m]);
                    assert(row@[m] == b as usize);
                }
            }
        }
        let ghost adj0 = adj@;
        adj.push(row);
        proof {
            assert forall|a: int, b: int|
                #![trigger adj@[a]@.contains(b as usize)]
                #![trigger g.edges().contains((names@[a], names@[b]))]
                0 <= a < i + 1 && 0 <= b < names@.len() implies (adj@[a]@.contains(b as usize)
                <==> g.edges().contains((names@[a], names@[b]))) by {
                if a < i {
                    assert(adj@[a] == adj0[a]);
                }
            }
            assert forall|a: int, k: int|
                0 <= a < i + 1 && 0 <= k < adj@[a]@.len() implies (#[trigger] adj@[a]@[k])
                < names@.len() by {
                if a < i {
                    assert(adj@[a] == adj0[a]);
                }
            }
        }
        i += 1;
    }
    (names, adj)
}

/// The nodes at the positions `p`.
pub fn read_back<I: Copy>(names: &Vec<I>, p: &Vec<usize>) -> (r: Vec<I>)
    requires
        forall|i: int| 0 <= i < p@.len() ==> (#[trigger] p@[i]) < names@.len(),
    ensures
        r@ == named_path(names@, p@),
{
    let mut r: Vec<I> = Vec::new();
    let mut i: usize = 0;
    while i < p.len()
        invariant
            i <= p@.len(),
            r@.len() == i,
            forall|j: int| 0 <= j < p@.len() ==> (#[trigger] p@[j]) < names@.len(),
            forall|j: int| 0 <= j < i ==> r@[j] == names@[(#[trigger] p@[j]) as int],
        decreases p@.len() - i,
    {
        r.push(names[p[i]]);
        i += 1;
    }
    assert(r@ =~= named_path(names@, p@));
    r
}

} // verus!
