//! Walks and simple paths over an edge relation, and the facts about them
//! that the search algorithms rely on.

use vstd::prelude::*;
use crate::relation::edges_within;

verus! {

/// Consecutive entries of `p` are joined by an edge of `edges`.
pub open spec fn is_walk<T>(edges: Set<(T, T)>, p: Seq<T>) -> bool {
    forall|i: int| 0 <= i < p.len() - 1 ==> #[trigger] edges.contains((p[i], p[i + 1]))
}

/// `p` leads from `from` to `to` along at least one edge of `edges`.
pub open spec fn connects<T>(edges: Set<(T, T)>, p: Seq<T>, from: T, to: T) -> bool {
    &&& p.len() >= 2
    &&& p[0] == from
    &&& p[p.len() - 1] == to
    &&& is_walk(edges, p)
}

/// `p` leads from `from` to `to` and visits no node twice.
pub open spec fn is_simple_path<T>(edges: Set<(T, T)>, p: Seq<T>, from: T, to: T) -> bool {
    connects(edges, p, from, to) && p.no_duplicates()
}

/// Some walk with at least one edge leads from `from` to `to`.
pub open spec fn reachable<T>(edges: Set<(T, T)>, from: T, to: T) -> bool {
    exists|p: Seq<T>| connects(edges, p, from, to)
}

/// No walk from `from` to `to` has fewer entries than `p`.
pub open spec fn is_shortest<T>(edges: Set<(T, T)>, p: Seq<T>, from: T, to: T) -> bool {
    forall|q: Seq<T>| #[trigger] connects(edges, q, from, to) ==> p.len() <= q.len()
}

/// Every entry of a walk that connects two nodes is an endpoint of an edge.
pub proof fn lemma_walk_within<T>(nodes: Set<T>, edges: Set<(T, T)>, p: Seq<T>, from: T, to: T)
    requires
        edges_within(nodes, edges),
        connects(edges, p, from, to),
    ensures
        forall|i: int| 0 <= i < p.len() ==> nodes.contains(#[trigger] p[i]),
{
    assert forall|i: int| 0 <= i < p.len() implies nodes.contains(#[trigger] p[i]) by {
        if i < p.len() - 1 {
            assert(edges.contains((p[i], p[i + 1])));
        } else {
            assert(edges.contains((p[i - 1], p[i - 1 + 1])));
        }
    }
}

/// Cutting the stretch between two occurrences of the same node out of a walk
/// leaves a walk with the same endpoints.
proof fn lemma_splice<T>(edges: Set<(T, T)>, p: Seq<T>, from: T, to: T, a: int, b: int)
    requires
        connects(edges, p, from, to),
        from != to,
        0 <= a < b < p.len(),
        p[a] == p[b],
    ensures
        connects(edges, p.subrange(0, a) + p.subrange(b, p.len() as int), from, to),
        (p.subrange(0, a) + p.subrange(b, p.len() as int)).len() < p.len(),
{
    let q = p.subrange(0, a) + p.subrange(b, p.len() as int);
    assert(q.len() == a + p.len() - b);
    assert(q[q.len() - 1] == to);
    assert(q[0] == from) by {
        if a == 0 {
            assert(q[0] == p[b]);
        }
    }
    assert(q.len() >= 2) by {
        if q.len() < 2 {
            assert(q[0] == q[q.len() - 1]);
        }
    }
    assert forall|i: int| 0 <= i < q.len() - 1 implies #[trigger] edges.contains(
        (q[i], q[i + 1]),
    ) by {
        if i + 1 < a {
            assert(edges.contains((p[i], p[i + 1])));
        } else if i + 1 == a {
            assert(q[i] == p[i]);
            assert(q[i + 1] == p[b]);
            assert(edges.contains((p[i], p[i + 1])));
        } else {
            let j = i - a + b;
            assert(q[i] == p[j]);
            assert(q[i + 1] == p[j + 1]);
            assert(edges.contains((p[j], p[j + 1])));
        }
    }
}

/// Whenever a walk joins two distinct nodes, so does a simple path that is
/// no longer than the walk.
pub proof fn lemma_simple_path_exists<T>(edges: Set<(T, T)>, p: Seq<T>, from: T, to: T) -> (s: Seq<T>)
    requires
        connects(edges, p, from, to),
        from != to,
    ensures
        is_simple_path(edges, s, from, to),
        s.len() <= p.len(),
    decreases p.len(),
{
    if p.no_duplicates() {
        p
    } else {
        let (a, b) = choose|a: int, b: int|
            0 <= a < p.len() && 0 <= b < p.len() && a != b && p[a] == p[b];
        let (lo, hi) = if a < b {
            (a, b)
        } else {
            (b, a)
        };
        lemma_splice(edges, p, from, to, lo, hi);
        lemma_simple_path_exists(
            edges,
            p.subrange(0, lo) + p.subrange(hi, p.len() as int),
            from,
            to,
        )
    }
}

/// A sequence without repetition whose entries all lie in a finite set is
/// no longer than the set is large.
pub proof fn lemma_distinct_entries_bounded<T>(nodes: Set<T>, p: Seq<T>)
    requires
        nodes.finite(),
        p.no_duplicates(),
        forall|i: int| 0 <= i < p.len() ==> nodes.contains(#[trigger] p[i]),
    ensures
        p.len() <= nodes.len(),
{
    p.unique_seq_to_set();
    assert(p.to_set().subset_of(nodes)) by {
        assert forall|x: T| p.to_set().contains(x) implies nodes.contains(x) by {
            let i = choose|i: int| 0 <= i < p.len() && p[i] == x;
            assert(nodes.contains(p[i]));
        }
    }
    vstd::set_lib::lemma_len_subset(p.to_set(), nodes);
}

} // verus!
