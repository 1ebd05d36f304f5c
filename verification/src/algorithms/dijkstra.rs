//! Shortest paths where every edge counts one.

use vstd::multiset::Multiset;
use vstd::prelude::*;
use crate::algorithms::algo::Algorithm;
use crate::algorithms::dense::{
    in_range, lemma_total_nonnegative, lemma_total_update, lemma_walk_in_range, links, total,
};
use crate::algorithms::numbering::{
    index_of, lemma_named_path, lemma_reachable_alike, lemma_shortest_alike,
    lemma_unregistered_unreachable, number, read_back,
};
use crate::algorithms::queue::{MinQueue, NodeWithDist};
use crate::graph::Graph;
use crate::path::{
    connects, is_shortest, is_simple_path, is_walk, lemma_distinct_entries_bounded,
    lemma_simple_path_exists, reachable,
};

verus! {

/// The distance recorded for a node that no relaxation has reached yet.
const UNREACHED: usize = usize::MAX;

/// The distances as mathematical integers, for summing.
spec fn as_ints(dist: Seq<usize>) -> Seq<int> {
    Seq::new(dist.len(), |i: int| dist[i] as int)
}

/// The queue entry that stands for node `w` at its current distance.
spec fn entry_of(dist: Seq<usize>, w: int) -> NodeWithDist {
    NodeWithDist { node: w as usize, dist: dist[w] }
}

/// Distances and predecessor slots describe a tree rooted at `from`: the
/// root has distance 0 and no predecessor; any other node has a predecessor
/// exactly when it has been reached, the predecessor has an edge to it and
/// lies strictly closer to the root.
spec fn tree_ok(
    adj: Seq<Vec<usize>>,
    dist: Seq<usize>,
    pred: Seq<Option<usize>>,
    from: usize,
) -> bool {
    &&& dist.len() == adj.len()
    &&& pred.len() == adj.len()
    &&& from < adj.len()
    &&& dist[from as int] == 0
    &&& pred[from as int] is None
    &&& forall|v: int|
        0 <= v < adj.len() && v != from ==> ((#[trigger] pred[v]) is None <==> dist[v]
            == UNREACHED)
    &&& forall|v: int|
        0 <= v < adj.len() ==> ((#[trigger] pred[v]) matches Some(u) ==> {
            &&& u < adj.len()
            &&& adj[u as int]@.contains(v as usize)
            &&& dist[u as int] + 1 <= dist[v]
        })
}

/// No queue entry promises a node a smaller distance than the one recorded.
spec fn queue_ok(queue: Multiset<NodeWithDist>, dist: Seq<usize>) -> bool {
    forall|e: NodeWithDist| #[trigger]
        queue.contains(e) ==> e.node < dist.len() && dist[e.node as int] <= e.dist
}

/// Every node that is neither settled nor `skip` is queued at its recorded
/// distance.
spec fn queue_covers(
    queue: Multiset<NodeWithDist>,
    dist: Seq<usize>,
    settled: Seq<bool>,
    skip: int,
) -> bool {
    forall|w: int|
        0 <= w < dist.len() && !(#[trigger] settled[w]) && w != skip ==> queue.contains(
            entry_of(dist, w),
        )
}

/// Every neighbour of a settled node is at most one step farther than it.
spec fn settled_closed(adj: Seq<Vec<usize>>, dist: Seq<usize>, settled: Seq<bool>) -> bool {
    forall|u: int, k: int|
        0 <= u < adj.len() && settled[u] && 0 <= k < adj[u]@.len() ==> dist[(
        #[trigger] adj[u]@[k]) as int] <= dist[u] + 1
}

/// Settled nodes have been reached.
spec fn settled_reached(dist: Seq<usize>, settled: Seq<bool>) -> bool {
    forall|u: int| 0 <= u < dist.len() && #[trigger] settled[u] ==> dist[u] < UNREACHED
}

/// No settled node lies farther than `bound`.
spec fn settled_within(dist: Seq<usize>, settled: Seq<bool>, bound: int) -> bool {
    forall|u: int| 0 <= u < dist.len() && #[trigger] settled[u] ==> dist[u] <= bound
}

/// No queue entry carries a distance below `bound`.
spec fn queue_from(queue: Multiset<NodeWithDist>, bound: int) -> bool {
    forall|e: NodeWithDist| #[trigger] queue.contains(e) ==> bound <= e.dist
}

/// No queue entry carries a smaller distance than any settled node has.
spec fn settled_below(queue: Multiset<NodeWithDist>, dist: Seq<usize>, settled: Seq<bool>) -> bool {
    forall|u: int|
        0 <= u < dist.len() && #[trigger] settled[u] ==> queue_from(queue, dist[u] as int)
}

/// No unsettled node lies closer to the root than `to` does.
spec fn frontier_min(dist: Seq<usize>, settled: Seq<bool>, to: usize) -> bool {
    forall|w: int| 0 <= w < dist.len() && !(#[trigger] settled[w]) ==> dist[to as int] <= dist[w]
}

/// Along any walk from the root, the recorded distance of `to` is at most
/// the number of steps taken, or the node arrived at is settled and its
/// recorded distance is at most that number.
proof fn lemma_lower_bound(
    adj: Seq<Vec<usize>>,
    dist: Seq<usize>,
    settled: Seq<bool>,
    from: usize,
    to: usize,
    q: Seq<usize>,
    j: int,
)
    requires
        in_range(adj),
        dist.len() == adj.len(),
        settled.len() == adj.len(),
        from < adj.len(),
        to < adj.len(),
        dist[from as int] == 0,
        settled_closed(adj, dist, settled),
        frontier_min(dist, settled, to),
        q.len() >= 1,
        q[0] == from,
        is_walk(links(adj), q),
        0 <= j < q.len(),
    ensures
        q[j] < adj.len(),
        dist[to as int] <= j || (settled[q[j] as int] && dist[q[j] as int] <= j),
    decreases j,
{
    if j > 0 {
        lemma_lower_bound(adj, dist, settled, from, to, q, j - 1);
        assert(links(adj).contains((q[j - 1], q[j - 1 + 1])));
        let u = q[j - 1] as int;
        let k = choose|k: int| 0 <= k < adj[u]@.len() && adj[u]@[k] == q[j];
        assert(adj[u]@[k] < adj.len());
        if dist[to as int] > j - 1 {
            assert(dist[adj[u]@[k] as int] <= dist[u] + 1);
        }
    }
}

/// Once the search has stopped, the recorded distance of `to` is at most the
/// number of edges of any walk that leads there from the root.
proof fn lemma_recorded_is_least(
    adj: Seq<Vec<usize>>,
    dist: Seq<usize>,
    settled: Seq<bool>,
    from: usize,
    to: usize,
    q: Seq<usize>,
)
    requires
        in_range(adj),
        dist.len() == adj.len(),
        settled.len() == adj.len(),
        from < adj.len(),
        to < adj.len(),
        dist[from as int] == 0,
        settled_closed(adj, dist, settled),
        frontier_min(dist, settled, to),
        !settled[to as int],
        connects(links(adj), q, from, to),
    ensures
        dist[to as int] <= q.len() - 1,
{
    lemma_lower_bound(adj, dist, settled, from, to, q, q.len() - 1);
}

/// A walk between two distinct positions can be cut down to fewer entries
/// than there are positions.
proof fn lemma_short_walk_exists(adj: Seq<Vec<usize>>, q: Seq<usize>, from: usize, to: usize) -> (s:
    Seq<usize>)
    requires
        in_range(adj),
        from < adj.len(),
        from != to,
        connects(links(adj), q, from, to),
    ensures
        is_simple_path(links(adj), s, from, to),
        s.len() <= q.len(),
        s.len() <= adj.len(),
{
    let s = lemma_simple_path_exists(links(adj), q, from, to);
    let positions = Set::new(|x: usize| x < adj.len());
    let ints = vstd::set_lib::set_int_range(0, adj.len() as int);
    vstd::set_lib::lemma_int_range(0, adj.len() as int);
    assert(ints.map(|i: int| i as usize) =~= positions) by {
        assert forall|x: usize| positions.contains(x) implies ints.map(|i: int| i as usize).contains(
            x,
        ) by {
            assert(ints.contains(x as int));
        }
    }
    vstd::set_lib::lemma_map_size_bound(ints, positions, |i: int| i as usize);
    assert forall|i: int| 0 <= i < s.len() implies positions.contains(#[trigger] s[i]) by {
        lemma_walk_in_range(adj, s, i);
    }
    lemma_distinct_entries_bounded(positions, s);
    s
}

/// What adding an entry does to the entries that a queue holds.
proof fn lemma_queued(queue: Multiset<NodeWithDist>, e: NodeWithDist)
    ensures
        queue.insert(e).len() == queue.len() + 1,
        forall|x: NodeWithDist| #[trigger]
            queue.insert(e).contains(x) <==> queue.contains(x) || x == e,
{
    broadcast use vstd::multiset::group_multiset_properties;

}

/// What taking an entry out does to the entries that a queue holds.
proof fn lemma_unqueued(queue: Multiset<NodeWithDist>, e: NodeWithDist)
    requires
        queue.contains(e),
    ensures
        queue.remove(e).len() == queue.len() - 1,
        forall|x: NodeWithDist| #[trigger] queue.remove(e).contains(x) ==> queue.contains(x),
        forall|x: NodeWithDist| #[trigger] queue.contains(x) && x != e ==> queue.remove(e).contains(x),
{
    broadcast use vstd::multiset::group_multiset_properties;

}

/// Offers every neighbour of `x` the distance of `x` plus one, records the
/// improvements and queues the improved neighbours; afterwards `x` counts as
/// settled.
fn relax(
    adj: &Vec<Vec<usize>>,
    x: usize,
    dist: &mut Vec<usize>,
    pred: &mut Vec<Option<usize>>,
    queue: &mut MinQueue,
    Ghost(settled): Ghost<Seq<bool>>,
    Ghost(from): Ghost<usize>,
    Ghost(cost): Ghost<usize>,
)
    requires
        in_range(adj@),
        x < adj.len(),
        settled.len() == adj.len(),
        old(queue).wf(),
        tree_ok(adj@, old(dist)@, old(pred)@, from),
        queue_ok(old(queue)@, old(dist)@),
        queue_covers(old(queue)@, old(dist)@, settled, x as int),
        settled_closed(adj@, old(dist)@, settled),
        settled_reached(old(dist)@, settled),
        settled_within(old(dist)@, settled, cost as int),
        queue_from(old(queue)@, cost as int),
        old(dist)@[x as int] <= cost < UNREACHED,
        !settled[x as int] ==> old(dist)@[x as int] == cost,
    ensures
        final(queue).wf(),
        tree_ok(adj@, final(dist)@, final(pred)@, from),
        queue_ok(final(queue)@, final(dist)@),
        queue_covers(final(queue)@, final(dist)@, settled.update(x as int, true), -1),
        settled_closed(adj@, final(dist)@, settled.update(x as int, true)),
        settled_reached(final(dist)@, settled.update(x as int, true)),
        settled_below(final(queue)@, final(dist)@, settled.update(x as int, true)),
        total(as_ints(final(dist)@)) <= total(as_ints(old(dist)@)),
        total(as_ints(final(dist)@)) == total(as_ints(old(dist)@)) ==> final(queue)@ == old(queue)@,
{
    let near: usize = dist[x];
    let ghost total0 = total(as_ints(dist@));
    let mut k: usize = 0;
    while k < adj[x].len()
        invariant
            in_range(adj@),
            x < adj.len(),
            settled.len() == adj.len(),
            k <= adj@[x as int]@.len(),
            queue.wf(),
            tree_ok(adj@, dist@, pred@, from),
            queue_ok(queue@, dist@),
            queue_covers(queue@, dist@, settled, x as int),
            settled_closed(adj@, dist@, settled),
            settled_reached(dist@, settled),
            settled_within(dist@, settled, cost as int),
            settled_below(queue@, dist@, settled),
            queue_from(queue@, near as int),
            dist@[x as int] == near,
            near <= cost < UNREACHED,
            !settled[x as int] ==> near == cost,
            forall|j: int| 0 <= j < k ==> dist@[(#[trigger] adj@[x as int]@[j]) as int] <= near + 1,
            total(as_ints(dist@)) <= total0,
            total(as_ints(dist@)) == total0 ==> queue@ == old(queue)@,
        decreases adj@[x as int]@.len() - k,
    {
        let a: usize = adj[x][k];
        assert(a < adj.len());
        let far: usize = dist[a];
        let alt: usize = near + 1;
        if alt < far {
            let ghost dist0 = dist@;
            let ghost queue0 = queue@;
            proof {
                if settled[a as int] {
                    if settled[x as int] {
                        assert(dist@[adj@[x as int]@[k as int] as int] <= dist@[x as int] + 1);
                    }
                }
                assert(!settled[a as int]);
                assert(a != x && a != from);
            }
            pred[a] = Some(x);
            dist[a] = alt;
            let e = NodeWithDist { node: a, dist: alt };
            queue.push(e);
            proof {
                assert(adj@[x as int]@.contains(a));
                lemma_total_update(as_ints(dist0), a as int, alt as int);
                assert(as_ints(dist@) =~= as_ints(dist0).update(a as int, alt as int));
                lemma_queued(queue0, e);
                assert forall|w: int|
                    0 <= w < dist@.len() && !(#[trigger] settled[w]) && w != x implies queue@.contains(
                    entry_of(dist@, w),
                ) by {
                    if w != a {
                        assert(queue0.contains(entry_of(dist0, w)));
                    }
                }
                assert forall|y: NodeWithDist| #[trigger] queue@.contains(y) implies y.node
                    < dist@.len() && dist@[y.node as int] <= y.dist && near <= y.dist by {
                    if y != e {
                        assert(queue0.contains(y));
                    }
                }
                assert forall|u: int| 0 <= u < dist@.len() && #[trigger] settled[u] implies queue_from(
                    queue@,
                    dist@[u] as int,
                ) by {
                    assert(queue_from(queue0, dist0[u] as int));
                    assert forall|y: NodeWithDist| #[trigger] queue@.contains(y) implies dist@[u]
                        <= y.dist by {
                        if y != e {
                            assert(queue0.contains(y));
                        }
                    }
                }
                assert forall|u: int, j: int|
                    0 <= u < adj@.len() && settled[u] && 0 <= j < adj@[u]@.len() implies dist@[(
                #[trigger] adj@[u]@[j]) as int] <= dist@[u] + 1 by {
                    assert(dist0[adj@[u]@[j] as int] <= dist0[u] + 1);
                }
            }
        }
        k += 1;
    }
    proof {
        let done = settled.update(x as int, true);
        assert forall|u: int| 0 <= u < dist@.len() && #[trigger] done[u] implies queue_from(
            queue@,
            dist@[u] as int,
        ) by {
            if u != x {
                assert(settled[u]);
            }
        }
        assert forall|u: int, j: int|
            0 <= u < adj@.len() && done[u] && 0 <= j < adj@[u]@.len() implies dist@[(
        #[trigger] adj@[u]@[j]) as int] <= dist@[u] + 1 by {
            if u != x {
                assert(settled[u]);
            }
        }
        assert forall|w: int|
            0 <= w < dist@.len() && !(#[trigger] done[w]) && w != -1 implies queue@.contains(
            entry_of(dist@, w),
        ) by {
            assert(!settled[w] && w != x);
        }
        assert forall|u: int| 0 <= u < dist@.len() && #[trigger] done[u] implies dist@[u]
            < UNREACHED by {
            if u != x {
                assert(settled[u]);
            }
        }
    }
}


/// The entries of `v` in opposite order.
fn reversed(v: &Vec<usize>) -> (r: Vec<usize>)
    ensures
        r@ == v@.reverse(),
{
    let mut r: Vec<usize> = Vec::new();
    let mut i: usize = v.len();
    while i > 0
        invariant
            i <= v.len(),
            r@.len() == v.len() - i,
            forall|j: int| 0 <= j < r@.len() ==> r@[j] == v@[v.len() - 1 - j],
        decreases i,
    {
        i -= 1;
        r.push(v[i]);
    }
    assert(r@ =~= v@.reverse());
    r
}

/// Follows the predecessor slots from `to` back to the root and returns the
/// nodes met, root first.
fn walk_back(
    adj: &Vec<Vec<usize>>,
    dist: &Vec<usize>,
    pred: &Vec<Option<usize>>,
    from: usize,
    to: usize,
) -> (p: Vec<usize>)
    requires
        tree_ok(adj@, dist@, pred@, from),
        to < adj.len(),
        to != from,
        pred@[to as int] is Some,
    ensures
        is_simple_path(links(adj@), p@, from, to),
        p@.len() - 1 <= dist@[to as int],
{
    let mut back: Vec<usize> = Vec::new();
    let mut cur: usize = to;
    while cur != from
        invariant
            tree_ok(adj@, dist@, pred@, from),
            to < adj.len(),
            cur < adj.len(),
            cur != from ==> pred@[cur as int] is Some,
            dist@[cur as int] < UNREACHED,
            back@.len() + dist@[cur as int] <= dist@[to as int],
            back@.len() == 0 ==> cur == to,
            back@.len() > 0 ==> back@[0] == to && links(adj@).contains(
                (cur, back@[back@.len() - 1]),
            ),
            forall|i: int| 0 <= i < back@.len() ==> (#[trigger] back@[i]) < adj.len(),
            forall|i: int| 0 <= i < back@.len() ==> dist@[cur as int] < dist@[(
            #[trigger] back@[i]) as int],
            forall|i: int, j: int|
                0 <= i < j < back@.len() ==> dist@[(#[trigger] back@[j]) as int] < dist@[(
                #[trigger] back@[i]) as int],
            forall|i: int|
                0 <= i < back@.len() - 1 ==> #[trigger] links(adj@).contains(
                    (back@[i + 1], back@[i]),
                ),
        decreases dist@[cur as int],
    {
        let ghost back0 = back@;
        back.push(cur);
        let next = pred[cur].unwrap();
        proof {
            assert(adj@[next as int]@.contains(cur));
            assert(links(adj@).contains((next, cur)));
            assert forall|i: int| 0 <= i < back@.len() - 1 implies #[trigger] links(adj@).contains(
                (back@[i + 1], back@[i]),
            ) by {
                if i < back0.len() - 1 {
                    assert(links(adj@).contains((back0[i + 1], back0[i])));
                }
            }
            if next != from {
                assert(dist@[next as int] != UNREACHED);
            }
        }
        cur = next;
    }
    back.push(from);
    let p = reversed(&back);
    proof {
        let n = back@.len() as int;
        assert(p@.len() == n);
        assert forall|i: int| 0 <= i < n - 1 implies #[trigger] links(adj@).contains(
            (p@[i], p@[i + 1]),
        ) by {
            let j = n - 2 - i;
            assert(p@[i] == back@[j + 1]);
            assert(p@[i + 1] == back@[j]);
            if j < n - 2 {
                assert(links(adj@).contains((back@[j + 1], back@[j])));
            }
        }
        assert forall|i: int, j: int| 0 <= i < p@.len() && 0 <= j < p@.len() && i != j implies p@[i]
            != p@[j] by {
            let a = n - 1 - i;
            let b = n - 1 - j;
            assert(p@[i] == back@[a] && p@[j] == back@[b]);
            if a < b {
                assert(dist@[back@[b] as int] < dist@[back@[a] as int]);
            } else {
                assert(dist@[back@[a] as int] < dist@[back@[b] as int]);
            }
        }
    }
    p
}

/// A shortest path from `from` to `to`, by relaxation in the order of a
/// priority queue; `None` if the two are the same node or no walk joins them.
pub fn shortest_path(adj: &Vec<Vec<usize>>, from: usize, to: usize) -> (r: Option<Vec<usize>>)
    requires
        in_range(adj@),
        from < adj.len(),
        to < adj.len(),
    ensures
        r is Some <==> from != to && reachable(links(adj@), from, to),
        r matches Some(p) ==> is_simple_path(links(adj@), p@, from, to) && is_shortest(
            links(adj@),
            p@,
            from,
            to,
        ),
{
    let n = adj.len();
    let mut dist: Vec<usize> = Vec::new();
    let mut pred: Vec<Option<usize>> = Vec::new();
    let mut queue = MinQueue::new();
    let mut v: usize = 0;
    while v < n
        invariant
            n == adj.len(),
            from < n,
            v <= n,
            dist@.len() == v,
            pred@.len() == v,
            queue.wf(),
            forall|i: int| 0 <= i < v ==> #[trigger] dist@[i] == (if i == from { 0 } else { UNREACHED }),
            forall|i: int| 0 <= i < v ==> (#[trigger] pred@[i]) is None,
            forall|i: int| 0 <= i < v ==> queue@.contains(#[trigger] entry_of(dist@, i)),
            forall|e: NodeWithDist| #[trigger]
                queue@.contains(e) ==> e.node < v && e == entry_of(dist@, e.node as int),
        decreases n - v,
    {
        let cost: usize = if v == from { 0 } else { UNREACHED };
        let ghost queue0 = queue@;
        let ghost dist0 = dist@;
        let e = NodeWithDist { node: v, dist: cost };
        queue.push(e);
        dist.push(cost);
        pred.push(None);
        proof {
            lemma_queued(queue0, e);
            assert forall|i: int| 0 <= i < v + 1 implies queue@.contains(
                #[trigger] entry_of(dist@, i),
            ) by {
                if i < v {
                    assert(entry_of(dist@, i) == entry_of(dist0, i));
                    assert(queue0.contains(entry_of(dist0, i)));
                }
            }
            assert forall|y: NodeWithDist| #[trigger] queue@.contains(y) implies y.node < v + 1 && y
                == entry_of(dist@, y.node as int) by {
                if y != e {
                    assert(queue0.contains(y));
                    assert(entry_of(dist@, y.node as int) == entry_of(dist0, y.node as int));
                }
            }
        }
        v += 1;
    }
    let ghost mut settled: Seq<bool> = Seq::new(n as nat, |i: int| false);
    proof {
        assert forall|w: int|
            0 <= w < dist@.len() && !(#[trigger] settled[w]) && w != -1 implies queue@.contains(
            entry_of(dist@, w),
        ) by {
            assert(queue@.contains(entry_of(dist@, w)));
        }
    }
    loop
        invariant_except_break
            queue_ok(queue@, dist@),
            queue_covers(queue@, dist@, settled, -1),
            settled_below(queue@, dist@, settled),
        invariant
            n == adj.len(),
            in_range(adj@),
            to < n,
            settled.len() == n,
            queue.wf(),
            tree_ok(adj@, dist@, pred@, from),
            settled_closed(adj@, dist@, settled),
            settled_reached(dist@, settled),
            !settled[to as int],
        ensures
            frontier_min(dist@, settled, to),
        decreases total(as_ints(dist@)), queue@.len(),
    {
        let ghost queue0 = queue@;
        let ghost total0 = total(as_ints(dist@));
        proof {
            lemma_total_nonnegative(as_ints(dist@));
            assert(queue0.contains(entry_of(dist@, to as int)));
        }
        let e = match queue.pop() {
            Some(e) => e,
            None => {
                break ;
            },
        };
        proof {
            lemma_unqueued(queue0, e);
            // No unsettled node is recorded closer than the entry taken out.
            assert forall|w: int| 0 <= w < dist@.len() && !(#[trigger] settled[w]) implies e.dist
                <= dist@[w] by {
                assert(queue0.contains(entry_of(dist@, w)));
                assert(e.precedes(entry_of(dist@, w)));
            }
        }
        if e.dist == UNREACHED || e.node == to {
            break ;
        }
        proof {
            assert forall|w: int|
                0 <= w < dist@.len() && !(#[trigger] settled[w]) && w != e.node implies queue@.contains(
                entry_of(dist@, w),
            ) by {
                assert(queue0.contains(entry_of(dist@, w)));
            }
            assert forall|y: NodeWithDist| #[trigger] queue@.contains(y) implies y.node < dist@.len()
                && dist@[y.node as int] <= y.dist && e.dist <= y.dist by {
                assert(queue0.contains(y));
                assert(e.precedes(y));
            }
            assert forall|u: int| 0 <= u < dist@.len() && #[trigger] settled[u] implies dist@[u]
                <= e.dist by {
                assert(queue_from(queue0, dist@[u] as int));
            }
        }
        let ghost queue1 = queue@;
        relax(adj, e.node, &mut dist, &mut pred, &mut queue, Ghost(settled), Ghost(from), Ghost(e.dist));
        proof {
            settled = settled.update(e.node as int, true);
            lemma_total_nonnegative(as_ints(dist@));
            assert(queue1.len() == queue0.len() - 1);
            assert(total(as_ints(dist@)) <= total0);
            assert(total(as_ints(dist@)) == total0 ==> queue@.len() < queue0.len());
        }
    }
    if pred[to].is_none() {
        proof {
            if from != to && reachable(links(adj@), from, to) {
                let q = choose|q: Seq<usize>| connects(links(adj@), q, from, to);
                let s = lemma_short_walk_exists(adj@, q, from, to);
                lemma_recorded_is_least(adj@, dist@, settled, from, to, s);
            }
        }
        return None;
    }
    let p = walk_back(adj, &dist, &pred, from, to);
    proof {
        assert forall|q: Seq<usize>| #[trigger] connects(links(adj@), q, from, to) implies p@.len()
            <= q.len() by {
            lemma_recorded_is_least(adj@, dist@, settled, from, to, q);
        }
    }
    Some(p)
}


/// Dijkstra's algorithm on a graph whose edges all have weight 1: a path
/// with the least possible number of edges.
pub struct Dijkstra<'a, G: Graph> {
    graph: &'a G,
}

impl<'a, G: Graph> Dijkstra<'a, G> {
    /// A search on `graph`.
    pub fn new(graph: &'a G) -> (r: Self)
        ensures
            r.graph() == *graph,
    {
        Self { graph }
    }
}

impl<'a, G: Graph> Algorithm<G> for Dijkstra<'a, G> {
    closed spec fn graph(&self) -> G {
        *self.graph
    }

    fn run(&self, from: G::Index, to: G::Index) -> (r: Option<Vec<G::Index>>)
        ensures
            r matches Some(p) ==> is_shortest(self.graph().edges(), p@, from, to),
    {
        proof {
            self.graph.lemma_wf();
            if !self.graph.nodes().contains(from) || !self.graph.nodes().contains(to) {
                lemma_unregistered_unreachable(self.graph.nodes(), self.graph.edges(), from, to);
            }
        }
        let (names, adj) = number(self.graph);
        let fi = match index_of(&names, from) {
            Some(i) => i,
            None => {
                return None;
            },
        };
        let ti = match index_of(&names, to) {
            Some(i) => i,
            None => {
                return None;
            },
        };
        proof {
            lemma_reachable_alike(names@, adj@, self.graph.edges(), fi, ti);
        }
        match shortest_path(&adj, fi, ti) {
            None => None,
            Some(p) => {
                proof {
                    lemma_named_path(names@, adj@, self.graph.edges(), p@, fi, ti);
                    lemma_shortest_alike(names@, adj@, self.graph.edges(), p@, fi, ti);
                    assert forall|i: int| 0 <= i < p@.len() implies (#[trigger] p@[i])
                        < names@.len() by {
                        lemma_walk_in_range(adj@, p@, i);
                    }
                }
                Some(read_back(&names, &p))
            },
        }
    }
}

} // verus!
