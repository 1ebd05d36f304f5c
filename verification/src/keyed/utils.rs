//! Path finding on graphs over node objects.

use vstd::laws_eq::obeys_concrete_eq;
use vstd::prelude::*;
use crate::algorithms::dense::lemma_walk_in_range;
use crate::algorithms::dfs::inner_dfs;
use crate::algorithms::dijkstra::shortest_path;
use crate::algorithms::numbering::{
    encodes, lemma_named_path, lemma_reachable_alike, lemma_shortest_alike,
    lemma_unregistered_unreachable, named_path,
};
use crate::keyed::graph::Graph;
use crate::path::{is_shortest, is_simple_path, reachable};
use crate::relation::{edges_within, successors};

verus! {

/// The position at which a node equal to `x` stands in `names`.
fn index_of<N: Eq>(names: &Vec<&N>, x: &N) -> (r: Option<usize>)
    requires
        obeys_concrete_eq::<N>(),
    ensures
        match r {
            Some(i) => i < names@.len() && names@.unref()[i as int] == *x,
            None => !names@.unref().contains(*x),
        },
{
    let mut i: usize = 0;
    while i < names.len()
        invariant
            i <= names@.len(),
            obeys_concrete_eq::<N>(),
            forall|j: int| 0 <= j < i ==> names@.unref()[j] != *x,
        decreases names@.len() - i,
    {
        proof {
            reveal(obeys_concrete_eq);
        }
        if *names[i] == *x {
            assert(names@.unref()[i as int] == *x);
            return Some(i);
        }
        assert(names@.unref()[i as int] != *x);
        i += 1;
    }
    None
}

/// Numbers the nodes of `g` and copies its adjacency into neighbour lists
/// over the numbers.
fn number<'a, N: Eq, G: Graph<N>>(g: &'a G) -> (r: (Vec<&'a N>, Vec<Vec<usize>>))
    requires
        g.wf(),
        obeys_concrete_eq::<N>(),
    ensures
        encodes(r.0@.unref(), r.1@, g.edges()),
        r.0@.unref().to_set() == g.nodes(),
{
    proof {
        g.lemma_wf();
    }
    let names = g.iter_nodes();
    let ghost objs = names@.unref();
    let mut adj: Vec<Vec<usize>> = Vec::new();
    let mut i: usize = 0;
    while i < names.len()
        invariant
            g.wf(),
            obeys_concrete_eq::<N>(),
            edges_within(g.nodes(), g.edges()),
            objs == names@.unref(),
            objs.no_duplicates(),
            objs.to_set() == g.nodes(),
            i <= names@.len(),
            adj@.len() == i,
            forall|a: int, k: int|
                0 <= a < i && 0 <= k < adj@[a]@.len() ==> (#[trigger] adj@[a]@[k]) < objs.len(),
            forall|a: int, b: int|
                #![trigger adj@[a]@.contains(b as usize)]
                #![trigger g.edges().contains((objs[a], objs[b]))]
                0 <= a < i && 0 <= b < objs.len() ==> (adj@[a]@.contains(b as usize)
                    <==> g.edges().contains((objs[a], objs[b]))),
        decreases names@.len() - i,
    {
        let node = names[i];
        assert(*node == objs[i as int]);
        assert(objs.to_set().contains(*node));
        let out = g.iter_adj(node).unwrap();
        let ghost outs = out@.unref();
        let mut row: Vec<usize> = Vec::new();
        let mut k: usize = 0;
        while k < out.len()
            invariant
                obeys_concrete_eq::<N>(),
                edges_within(g.nodes(), g.edges()),
                objs == names@.unref(),
                objs.to_set() == g.nodes(),
                outs == out@.unref(),
                outs.to_set() == successors(g.edges(), *node),
                k <= out@.len(),
                row@.len() == k,
                forall|m: int|
                    0 <= m < k ==> (#[trigger] row@[m]) < objs.len() && objs[row@[m] as int]
                        == outs[m],
            decreases out@.len() - k,
        {
            let next = out[k];
            assert(*next == outs[k as int]);
            assert(outs.to_set().contains(*next));
            assert(g.edges().contains((*node, *next)));
            assert(objs.to_set().contains(*next));
            let j = index_of(&names, next).unwrap();
            row.push(j);
            k += 1;
        }
        proof {
            assert forall|b: int| 0 <= b < objs.len() implies (row@.contains(b as usize)
                <==> g.edges().contains((objs[i as int], objs[b]))) by {
                if row@.contains(b as usize) {
                    let m = choose|m: int| 0 <= m < row@.len() && row@[m] == b as usize;
                    assert(objs[row@[m] as int] == outs[m]);
                    assert(outs.to_set().contains(outs[m]));
                }
                if g.edges().contains((objs[i as int], objs[b])) {
                    assert(outs.to_set().contains(objs[b]));
                    let m = choose|m: int| 0 <= m < outs.len() && outs[m] == objs[b];
                    assert(objs[row@[m] as int] == outs[m]);
                    assert(row@[m] == b as usize);
                }
            }
        }
        let ghost adj0 = adj@;
        adj.push(row);
        proof {
            assert forall|a: int, b: int|
                #![trigger adj@[a]@.contains(b as usize)]
                #![trigger g.edges().contains((objs[a], objs[b]))]
                0 <= a < i + 1 && 0 <= b < objs.len() implies (adj@[a]@.contains(b as usize)
                <==> g.edges().contains((objs[a], objs[b]))) by {
                if a < i {
                    assert(adj@[a] == adj0[a]);
                }
            }
            assert forall|a: int, k: int|
                0 <= a < i + 1 && 0 <= k < adj@[a]@.len() implies (#[trigger] adj@[a]@[k])
                < objs.len() by {
                if a < i {
                    assert(adj@[a] == adj0[a]);
                }
            }
        }
        i += 1;
    }
    (names, adj)
}

/// The nodes at the positions `p`.
fn read_back<'a, N>(names: &Vec<&'a N>, p: &Vec<usize>) -> (r: Vec<&'a N>)
    requires
        forall|i: int| 0 <= i < p@.len() ==> (#[trigger] p@[i]) < names@.len(),
    ensures
        r@.unref() == named_path(names@.unref(), p@),
{
    let mut r: Vec<&'a N> = Vec::new();
    let mut i: usize = 0;
    while i < p.len()
        invariant
            i <= p@.len(),
            r@.len() == i,
            forall|j: int| 0 <= j < p@.len() ==> (#[trigger] p@[j]) < names@.len(),
            forall|j: int| 0 <= j < i ==> *r@[j] == *names@[(#[trigger] p@[j]) as int],
        decreases p@.len() - i,
    {
        r.push(names[p[i]]);
        i += 1;
    }
    assert(r@.unref() =~= named_path(names@.unref(), p@));
    r
}

/// Depth first search from `from` to `to`.
///
/// Returns the first simple path that a backtracking exploration comes upon,
/// not necessarily a shortest one. `None` if the two are the same node, if
/// either is not registered, or if no walk leads from one to the other.
pub fn dfs<'a, N: Eq, G: Graph<N>>(g: &'a G, from: &'a N, to: &'a N) -> (r: Option<Vec<&'a N>>)
    requires
        g.wf(),
        obeys_concrete_eq::<N>(),
    ensures
        r is Some <==> *from != *to && reachable(g.edges(), *from, *to),
        r matches Some(p) ==> is_simple_path(g.edges(), p@.unref(), *from, *to),
        !g.nodes().contains(*from) || !g.nodes().contains(*to) ==> r is None,
{
    proof {
        g.lemma_wf();
        if !g.nodes().contains(*from) || !g.nodes().contains(*to) {
            lemma_unregistered_unreachable(g.nodes(), g.edges(), *from, *to);
        }
    }
    let (names, adj) = number(g);
    let fi = match index_of(&names, from) {
        Some(i) => i,
        None => {
            return None;
        },
    };
    let ti = match index_of(&names, to) {
        Some(i) => i,
        None => {
            return None;
        },
    };
    proof {
        lemma_reachable_alike(names@.unref(), adj@, g.edges(), fi, ti);
    }
    match inner_dfs(&adj, fi, ti) {
        None => None,
        Some(p) => {
            proof {
                lemma_named_path(names@.unref(), adj@, g.edges(), p@, fi, ti);
                assert forall|i: int| 0 <= i < p@.len() implies (#[trigger] p@[i]) < names@.len() by {
                    lemma_walk_in_range(adj@, p@, i);
                }
            }
            Some(read_back(&names, &p))
        },
    }
}

/// Dijkstra path finding from `from` to `to`, every edge counting one.
///
/// Returns a simple path with the least possible number of edges. `None` if
/// the two are the same node, if either is not registered, or if no walk
/// leads from one to the other.
pub fn dijkstra<'a, N: Eq, G: Graph<N>>(g: &'a G, from: &'a N, to: &'a N) -> (r: Option<
    Vec<&'a N>,
>)
    requires
        g.wf(),
        obeys_concrete_eq::<N>(),
    ensures
        r is Some <==> *from != *to && reachable(g.edges(), *from, *to),
        r matches Some(p) ==> is_simple_path(g.edges(), p@.unref(), *from, *to) && is_shortest(
            g.edges(),
            p@.unref(),
            *from,
            *to,
        ),
        !g.nodes().contains(*from) || !g.nodes().contains(*to) ==> r is None,
{
    proof {
        g.lemma_wf();
        if !g.nodes().contains(*from) || !g.nodes().contains(*to) {
            lemma_unregistered_unreachable(g.nodes(), g.edges(), *from, *to);
        }
    }
    let (names, adj) = number(g);
    let fi = match index_of(&names, from) {
        Some(i) => i,
        None => {
            return None;
        },
    };
    let ti = match index_of(&names, to) {
        Some(i) => i,
        None => {
            return None;
        },
    };
    proof {
        lemma_reachable_alike(names@.unref(), adj@, g.edges(), fi, ti);
    }
    match shortest_path(&adj, fi, ti) {
        None => None,
        Some(p) => {
            proof {
                lemma_named_path(names@.unref(), adj@, g.edges(), p@, fi, ti);
                lemma_shortest_alike(names@.unref(), adj@, g.edges(), p@, fi, ti);
                assert forall|i: int| 0 <= i < p@.len() implies (#[trigger] p@[i]) < names@.len() by {
                    lemma_walk_in_range(adj@, p@, i);
                }
            }
            Some(read_back(&names, &p))
        },
    }
}

} // verus!
