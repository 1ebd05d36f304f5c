//! Graphs whose nodes are the positions `0..n` of a vector and whose edges
//! are given by one list of neighbours per position.
//!
//! The searches number the nodes of a backend, copy its adjacency into this
//! form, and work on the positions.

use vstd::prelude::*;
use crate::path::is_walk;

verus! {

/// The edge relation that the neighbour lists spell out.
pub open spec fn links(adj: Seq<Vec<usize>>) -> Set<(usize, usize)> {
    Set::new(|e: (usize, usize)| e.0 < adj.len() && adj[e.0 as int]@.contains(e.1))
}

/// Every listed neighbour is itself a position of `adj`.
pub open spec fn in_range(adj: Seq<Vec<usize>>) -> bool {
    forall|i: int, k: int|
        0 <= i < adj.len() && 0 <= k < adj[i]@.len() ==> (#[trigger] adj[i]@[k]) < adj.len()
}

/// The sum of the entries of `s`.
pub open spec fn total(s: Seq<int>) -> int
    decreases s.len(),
{
    if s.len() == 0 {
        0
    } else {
        total(s.drop_last()) + s.last()
    }
}

/// Replacing one entry changes the sum by the difference of the two.
pub proof fn lemma_total_update(s: Seq<int>, i: int, x: int)
    requires
        0 <= i < s.len(),
    ensures
        total(s.update(i, x)) == total(s) - s[i] + x,
    decreases s.len(),
{
    let t = s.update(i, x);
    if i == s.len() - 1 {
        assert(t.drop_last() =~= s.drop_last());
    } else {
        lemma_total_update(s.drop_last(), i, x);
        assert(t.drop_last() =~= s.drop_last().update(i, x));
    }
}

/// A sum of entries that are not negative is not negative.
pub proof fn lemma_total_nonnegative(s: Seq<int>)
    requires
        forall|i: int| 0 <= i < s.len() ==> 0 <= #[trigger] s[i],
    ensures
        0 <= total(s),
    decreases s.len(),
{
    if s.len() > 0 {
        lemma_total_nonnegative(s.drop_last());
    }
}

/// Every entry of a walk that starts at a position of `adj` is a position.
pub proof fn lemma_walk_in_range(adj: Seq<Vec<usize>>, q: Seq<usize>, j: int)
    requires
        in_range(adj),
        q.len() >= 1,
        q[0] < adj.len(),
        is_walk(links(adj), q),
        0 <= j < q.len(),
    ensures
        q[j] < adj.len(),
    decreases j,
{
    if j > 0 {
        lemma_walk_in_range(adj, q, j - 1);
        assert(links(adj).contains((q[j - 1], q[j - 1 + 1])));
        let u = q[j - 1] as int;
        let k = choose|k: int| 0 <= k < adj[u]@.len() && adj[u]@[k] == q[j];
        assert(adj[u]@[k] < adj.len());
    }
}

} // verus!
