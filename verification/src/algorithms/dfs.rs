//! Depth-first search.

use vstd::prelude::*;
use crate::algorithms::algo::Algorithm;
use crate::algorithms::dense::{
    in_range, lemma_total_nonnegative, lemma_total_update, lemma_walk_in_range, links, total,
};
use crate::algorithms::numbering::{
    index_of, lemma_named_path, lemma_reachable_alike, lemma_unregistered_unreachable, number,
    read_back,
};
use crate::graph::Graph;
use crate::path::{connects, is_simple_path, is_walk, reachable};

verus! {

/// For each position, the number of its neighbours not looked at yet.
spec fn remaining(adj: Seq<Vec<usize>>, cursor: Seq<usize>) -> Seq<int> {
    Seq::new(adj.len(), |v: int| adj[v]@.len() - cursor[v])
}

/// Every neighbour of a visited node that the node's cursor has passed is
/// visited too.
spec fn passed_are_visited(adj: Seq<Vec<usize>>, visited: Seq<bool>, cursor: Seq<usize>) -> bool {
    forall|v: int, k: int|
        0 <= v < adj.len() && visited[v] && 0 <= k < cursor[v] ==> visited[(
        #[trigger] adj[v]@[k]) as int]
}

/// A visited node that is no longer on the stack has had all of its
/// neighbours looked at.
spec fn off_stack_done(
    adj: Seq<Vec<usize>>,
    visited: Seq<bool>,
    cursor: Seq<usize>,
    stack: Seq<usize>,
) -> bool {
    forall|v: int|
        0 <= v < adj.len() && #[trigger] visited[v] && !stack.contains(v as usize) ==> cursor[v]
            == adj[v]@.len()
}

/// A set of visited nodes that holds all neighbours of its members holds
/// every node that a walk from one of its members arrives at.
proof fn lemma_closed_set_holds_walk(
    adj: Seq<Vec<usize>>,
    visited: Seq<bool>,
    q: Seq<usize>,
    j: int,
)
    requires
        in_range(adj),
        visited.len() == adj.len(),
        forall|v: int, k: int|
            0 <= v < adj.len() && visited[v] && 0 <= k < adj[v]@.len() ==> visited[(
            #[trigger] adj[v]@[k]) as int],
        q.len() >= 1,
        q[0] < adj.len(),
        visited[q[0] as int],
        is_walk(links(adj), q),
        0 <= j < q.len(),
    ensures
        q[j] < adj.len(),
        visited[q[j] as int],
    decreases j,
{
    if j > 0 {
        lemma_closed_set_holds_walk(adj, visited, q, j - 1);
        assert(links(adj).contains((q[j - 1], q[j - 1 + 1])));
        let u = q[j - 1] as int;
        let k = choose|k: int| 0 <= k < adj[u]@.len() && adj[u]@[k] == q[j];
        assert(visited[adj[u]@[k] as int]);
    }
}

/// `x` does not stand among the first `c` neighbours listed for `u`.
pub open spec fn unseen(adj: Seq<Vec<usize>>, u: usize, c: int, x: usize) -> bool {
    forall|k: int| 0 <= k < c && k < adj[u as int]@.len() ==> (#[trigger] adj[u as int]@[k]) != x
}

/// Among the neighbours listed for `u`, `a` stands before any place at which
/// `b` stands.
pub open spec fn listed_before(adj: Seq<Vec<usize>>, u: usize, a: usize, b: usize) -> bool {
    exists|k: int|
        0 <= k < adj[u as int]@.len() && (#[trigger] adj[u as int]@[k]) == a && unseen(
            adj,
            u,
            k + 1,
            b,
        )
}

/// `p` and `q` go together up to their entry `i`, and there `p` turns to a
/// neighbour that is listed before the one that `q` turns to.
pub open spec fn turns_first_at(adj: Seq<Vec<usize>>, p: Seq<usize>, q: Seq<usize>, i: int) -> bool {
    &&& 0 <= i
    &&& i + 1 < p.len()
    &&& i + 1 < q.len()
    &&& p.take(i + 1) == q.take(i + 1)
    &&& listed_before(adj, p[i], p[i + 1], q[i + 1])
}

/// `p` is the simple path from `from` to `to` that comes first when
/// neighbours are tried in the order listed: where any other such path
/// leaves `p`, it turns to a neighbour listed later.
pub open spec fn is_first_path(adj: Seq<Vec<usize>>, p: Seq<usize>, from: usize, to: usize) -> bool {
    forall|q: Seq<usize>| #[trigger]
        is_simple_path(links(adj), q, from, to) && q != p ==> exists|i: int|
            turns_first_at(adj, p, q, i)
}

/// `q` goes along the stack up to entry `i` and has an entry after that.
spec fn follows(stack: Seq<usize>, q: Seq<usize>, i: int) -> bool {
    &&& 0 <= i < stack.len()
    &&& i + 1 < q.len()
    &&& q.take(i + 1) == stack.take(i + 1)
}

/// After entry `i`, `q` either stays on the stack or turns to a neighbour
/// that the cursor of that entry has not passed.
spec fn still_open(
    adj: Seq<Vec<usize>>,
    stack: Seq<usize>,
    cursor: Seq<usize>,
    q: Seq<usize>,
    i: int,
) -> bool {
    (i + 1 < stack.len() && q[i + 1] == stack[i + 1]) || unseen(
        adj,
        stack[i],
        cursor[stack[i] as int] as int,
        q[i + 1],
    )
}

/// No simple path to the target has been passed over: wherever one leaves
/// the stack, it turns to a neighbour still to be looked at.
spec fn none_passed(
    adj: Seq<Vec<usize>>,
    stack: Seq<usize>,
    cursor: Seq<usize>,
    from: usize,
    to: usize,
) -> bool {
    forall|q: Seq<usize>, i: int|
        is_simple_path(links(adj), q, from, to) && #[trigger] follows(stack, q, i) ==> still_open(
            adj,
            stack,
            cursor,
            q,
            i,
        )
}

/// Each entry of the stack but the last has its cursor just behind the
/// first place at which the next entry is listed among its neighbours.
spec fn stack_turns(adj: Seq<Vec<usize>>, stack: Seq<usize>, cursor: Seq<usize>) -> bool {
    forall|i: int|
        0 <= i && i + 1 < stack.len() ==> {
            let u = #[trigger] stack[i];
            let c = cursor[u as int];
            &&& 1 <= c <= adj[u as int]@.len()
            &&& adj[u as int]@[c - 1] == stack[i + 1]
            &&& unseen(adj, u, c - 1, stack[i + 1])
        }
}

/// What the exploration knows of the nodes it has visited.
spec fn explored(
    adj: Seq<Vec<usize>>,
    visited: Seq<bool>,
    cursor: Seq<usize>,
    stack: Seq<usize>,
    to: usize,
) -> bool {
    &&& in_range(adj)
    &&& visited.len() == adj.len()
    &&& cursor.len() == adj.len()
    &&& to < adj.len()
    &&& !visited[to as int]
    &&& forall|v: int| 0 <= v < adj.len() ==> (#[trigger] cursor[v]) <= adj[v]@.len()
    &&& passed_are_visited(adj, visited, cursor)
    &&& off_stack_done(adj, visited, cursor, stack)
}

/// Once a simple path to the target has left the stack for a node visited
/// before, every later entry of it is visited and off the stack.
proof fn lemma_behind_visited(
    adj: Seq<Vec<usize>>,
    visited: Seq<bool>,
    cursor: Seq<usize>,
    stack: Seq<usize>,
    q: Seq<usize>,
    from: usize,
    to: usize,
    t: int,
)
    requires
        explored(adj, visited, cursor, stack, to),
        from < adj.len(),
        is_simple_path(links(adj), q, from, to),
        follows(stack, q, stack.len() - 1),
        visited[q[stack.len() as int] as int],
        stack.len() <= t < q.len(),
    ensures
        q[t] < adj.len(),
        visited[q[t] as int],
        !stack.contains(q[t]),
    decreases t,
{
    let m = stack.len() - 1;
    lemma_walk_in_range(adj, q, t);
    if stack.contains(q[t]) {
        let j = choose|j: int| 0 <= j < stack.len() && stack[j] == q[t];
        assert(q.take(m + 1)[j] == stack.take(m + 1)[j]);
        assert(q[j] == q[t]);
    }
    if t > m + 1 {
        lemma_behind_visited(adj, visited, cursor, stack, q, from, to, t - 1);
        let w = q[t - 1];
        assert(links(adj).contains((q[t - 1], q[t - 1 + 1])));
        let k = choose|k: int| 0 <= k < adj[w as int]@.len() && adj[w as int]@[k] == q[t];
        assert(cursor[w as int] == adj[w as int]@.len());
        assert(visited[adj[w as int]@[k] as int]);
    }
}

/// No simple path to the target leaves the stack for a node visited before.
proof fn lemma_visited_blocks(
    adj: Seq<Vec<usize>>,
    visited: Seq<bool>,
    cursor: Seq<usize>,
    stack: Seq<usize>,
    q: Seq<usize>,
    from: usize,
    to: usize,
)
    requires
        explored(adj, visited, cursor, stack, to),
        from < adj.len(),
        is_simple_path(links(adj), q, from, to),
        follows(stack, q, stack.len() - 1),
    ensures
        !visited[q[stack.len() as int] as int],
{
    if visited[q[stack.len() as int] as int] {
        lemma_behind_visited(adj, visited, cursor, stack, q, from, to, q.len() - 1);
    }
}

/// Passing over a neighbour that has been visited before passes over no
/// simple path to the target.
proof fn lemma_skip_keeps_open(
    adj: Seq<Vec<usize>>,
    visited: Seq<bool>,
    cursor: Seq<usize>,
    stack: Seq<usize>,
    from: usize,
    to: usize,
)
    requires
        explored(adj, visited, cursor, stack, to),
        from < adj.len(),
        stack.len() > 0,
        stack.no_duplicates(),
        forall|i: int| 0 <= i < stack.len() ==> (#[trigger] stack[i]) < adj.len(),
        cursor[stack.last() as int] < adj[stack.last() as int]@.len(),
        visited[adj[stack.last() as int]@[cursor[stack.last() as int] as int] as int],
        none_passed(adj, stack, cursor, from, to),
        stack_turns(adj, stack, cursor),
    ensures
        none_passed(
            adj,
            stack,
            cursor.update(stack.last() as int, (cursor[stack.last() as int] + 1) as usize),
            from,
            to,
        ),
        stack_turns(
            adj,
            stack,
            cursor.update(stack.last() as int, (cursor[stack.last() as int] + 1) as usize),
        ),
{
    let m = stack.len() - 1;
    let u = stack[m];
    let k = cursor[u as int] as int;
    assert(adj[u as int].len() == adj[u as int]@.len());
    let next = cursor.update(u as int, (k + 1) as usize);
    assert forall|q: Seq<usize>, i: int|
        is_simple_path(links(adj), q, from, to) && #[trigger] follows(
            stack,
            q,
            i,
        ) implies still_open(adj, stack, next, q, i) by {
        assert(still_open(adj, stack, cursor, q, i));
        if i == m {
            lemma_visited_blocks(adj, visited, cursor, stack, q, from, to);
            assert(q[m + 1] != adj[u as int]@[k]);
        } else {
            assert(stack[i] != stack[m]);
        }
    }
    assert forall|i: int| 0 <= i && i + 1 < stack.len() implies {
        let w = #[trigger] stack[i];
        let c = next[w as int];
        &&& 1 <= c <= adj[w as int]@.len()
        &&& adj[w as int]@[c - 1] == stack[i + 1]
        &&& unseen(adj, w, c - 1, stack[i + 1])
    } by {
        assert(stack[i] != stack[m]);
        let w = stack[i];
        assert(adj[w as int]@[cursor[w as int] - 1] == stack[i + 1]);
    }
}

/// Going on to a neighbour that has not been visited passes over no simple
/// path to the target, and the stack turns where the cursors say.
proof fn lemma_push_keeps_open(
    adj: Seq<Vec<usize>>,
    visited: Seq<bool>,
    cursor: Seq<usize>,
    stack: Seq<usize>,
    from: usize,
    to: usize,
)
    requires
        explored(adj, visited, cursor, stack, to),
        stack.len() > 0,
        stack.no_duplicates(),
        forall|i: int| 0 <= i < stack.len() ==> (#[trigger] stack[i]) < adj.len() && visited[stack[i] as int],
        forall|v: int| 0 <= v < adj.len() && !(#[trigger] visited[v]) ==> cursor[v] == 0,
        cursor[stack.last() as int] < adj[stack.last() as int]@.len(),
        !visited[adj[stack.last() as int]@[cursor[stack.last() as int] as int] as int],
        none_passed(adj, stack, cursor, from, to),
        stack_turns(adj, stack, cursor),
    ensures
        none_passed(
            adj,
            stack.push(adj[stack.last() as int]@[cursor[stack.last() as int] as int]),
            cursor.update(stack.last() as int, (cursor[stack.last() as int] + 1) as usize),
            from,
            to,
        ),
        stack_turns(
            adj,
            stack.push(adj[stack.last() as int]@[cursor[stack.last() as int] as int]),
            cursor.update(stack.last() as int, (cursor[stack.last() as int] + 1) as usize),
        ),
{
    let m = stack.len() - 1;
    let u = stack[m];
    let k = cursor[u as int] as int;
    let a = adj[u as int]@[k];
    assert(adj[u as int].len() == adj[u as int]@.len());
    let next = cursor.update(u as int, (k + 1) as usize);
    let longer = stack.push(a);
    assert(a < adj.len());
    assert forall|q: Seq<usize>, i: int|
        is_simple_path(links(adj), q, from, to) && #[trigger] follows(
            longer,
            q,
            i,
        ) implies still_open(adj, longer, next, q, i) by {
        if i <= m {
            assert(longer.take(i + 1) =~= stack.take(i + 1));
            assert(follows(stack, q, i));
            assert(still_open(adj, stack, cursor, q, i));
            if i < m {
                assert(stack[i] != stack[m]);
            }
        } else {
            assert(longer[i] == a);
            assert(next[a as int] == 0);
        }
    }
    assert forall|i: int| 0 <= i && i + 1 < longer.len() implies {
        let w = #[trigger] longer[i];
        let c = next[w as int];
        &&& 1 <= c <= adj[w as int]@.len()
        &&& adj[w as int]@[c - 1] == longer[i + 1]
        &&& unseen(adj, w, c - 1, longer[i + 1])
    } by {
        if i < m {
            assert(stack[i] != stack[m]);
            let w = stack[i];
            assert(longer[i] == w && longer[i + 1] == stack[i + 1]);
            assert(next[w as int] == cursor[w as int]);
            assert(adj[w as int]@[cursor[w as int] - 1] == stack[i + 1]);
        } else {
            assert(longer[i] == u && longer[i + 1] == a);
            assert(next[u as int] == k + 1);
            assert(visited[u as int]);
            assert forall|j: int| 0 <= j < k && j < adj[u as int]@.len() implies (
            #[trigger] adj[u as int]@[j]) != a by {
                assert(visited[adj[u as int]@[j] as int]);
            }
        }
    }
}

/// Leaving a node whose neighbours have all been looked at passes over no
/// simple path to the target.
proof fn lemma_pop_keeps_open(
    adj: Seq<Vec<usize>>,
    cursor: Seq<usize>,
    stack: Seq<usize>,
    from: usize,
    to: usize,
)
    requires
        in_range(adj),
        cursor.len() == adj.len(),
        from < adj.len(),
        stack.len() > 0,
        stack.no_duplicates(),
        forall|i: int| 0 <= i < stack.len() ==> (#[trigger] stack[i]) < adj.len(),
        !stack.contains(to),
        cursor[stack.last() as int] == adj[stack.last() as int]@.len(),
        none_passed(adj, stack, cursor, from, to),
        stack_turns(adj, stack, cursor),
    ensures
        none_passed(adj, stack.drop_last(), cursor, from, to),
        stack_turns(adj, stack.drop_last(), cursor),
{
    let m = stack.len() - 1;
    let u = stack[m];
    let shorter = stack.drop_last();
    assert forall|q: Seq<usize>, i: int|
        is_simple_path(links(adj), q, from, to) && #[trigger] follows(
            shorter,
            q,
            i,
        ) implies still_open(adj, shorter, cursor, q, i) by {
        assert(shorter.take(i + 1) =~= stack.take(i + 1));
        assert(follows(stack, q, i));
        assert(still_open(adj, stack, cursor, q, i));
        if i == m - 1 && q[m] == u {
            // Then `q` would go on from `u` to a neighbour that has been looked at.
            assert(stack.contains(u));
            assert(m + 1 < q.len());
            assert(links(adj).contains((q[m], q[m + 1])));
            let qm = q.take(m);
            let sm = stack.take(m);
            assert(q.take(m + 1) =~= stack.take(m + 1)) by {
                assert forall|j: int| 0 <= j < m implies q[j] == stack[j] by {
                    assert(qm[j] == sm[j]);
                }
            }
            assert(follows(stack, q, m));
            assert(still_open(adj, stack, cursor, q, m));
            let k = choose|k: int| 0 <= k < adj[u as int]@.len() && adj[u as int]@[k] == q[m + 1];
            assert(adj[u as int]@[k] != q[m + 1]);
        }
    }
    assert forall|i: int| 0 <= i && i + 1 < shorter.len() implies {
        let w = #[trigger] shorter[i];
        let c = cursor[w as int];
        &&& 1 <= c <= adj[w as int]@.len()
        &&& adj[w as int]@[c - 1] == shorter[i + 1]
        &&& unseen(adj, w, c - 1, shorter[i + 1])
    } by {
        let w = stack[i];
        assert(adj[w as int]@[cursor[w as int] - 1] == stack[i + 1]);
    }
}

/// When the next neighbour of the last stack entry is the target, the stack
/// with the target on top is the first simple path.
proof fn lemma_found_is_first(
    adj: Seq<Vec<usize>>,
    visited: Seq<bool>,
    cursor: Seq<usize>,
    stack: Seq<usize>,
    from: usize,
    to: usize,
)
    requires
        explored(adj, visited, cursor, stack, to),
        stack.len() > 0,
        stack[0] == from,
        forall|i: int| 0 <= i < stack.len() ==> (#[trigger] stack[i]) < adj.len() && visited[stack[i] as int],
        cursor[stack.last() as int] < adj[stack.last() as int]@.len(),
        adj[stack.last() as int]@[cursor[stack.last() as int] as int] == to,
        none_passed(adj, stack, cursor, from, to),
        stack_turns(adj, stack, cursor),
    ensures
        is_first_path(adj, stack.push(to), from, to),
{
    let m = stack.len() - 1;
    let p = stack.push(to);
    assert forall|q: Seq<usize>| #[trigger]
        is_simple_path(links(adj), q, from, to) && q != p implies exists|i: int|
        turns_first_at(adj, p, q, i) by {
        // The two part somewhere: `q` cannot run along all of the stack and
        // then end, since it ends at the target, which is not on the stack.
        let d = lemma_parting(stack, to, q);
        let i = d - 1;
        assert forall|j: int| 0 <= j < d implies q[j] == stack[j] && q[j] == p[j] by {
            assert(q[j] == p[j]);
        }
        assert(q.take(i + 1) =~= stack.take(i + 1));
        assert(p.take(i + 1) =~= q.take(i + 1));
        assert(follows(stack, q, i));
        assert(still_open(adj, stack, cursor, q, i));
        let u = stack[i];
        if i < m {
            let c = cursor[u as int] as int;
            assert(adj[u as int]@[c - 1] == stack[i + 1]);
            assert(unseen(adj, u, c, q[i + 1]));
            assert(unseen(adj, u, c - 1 + 1, q[i + 1]));
            assert(listed_before(adj, p[i], p[i + 1], q[i + 1]));
        } else {
            let k = cursor[u as int] as int;
            assert(adj[u as int]@[k] == p[i + 1]);
            assert(unseen(adj, u, k + 1, q[i + 1]));
            assert(listed_before(adj, p[i], p[i + 1], q[i + 1]));
        }
        assert(turns_first_at(adj, p, q, i));
    }
}

/// A simple path to `to` other than the stack with `to` on top differs from
/// it at some entry that both have, after going along with it up to there.
proof fn lemma_parting(stack: Seq<usize>, to: usize, q: Seq<usize>) -> (d: int)
    requires
        stack.len() > 0,
        !stack.contains(to),
        q.len() >= 2,
        q[0] == stack[0],
        q[q.len() - 1] == to,
        q.no_duplicates(),
        q != stack.push(to),
    ensures
        1 <= d <= stack.len(),
        d < q.len(),
        forall|j: int| 0 <= j < d ==> q[j] == stack.push(to)[j],
        q[d] != stack.push(to)[d],
{
    let p = stack.push(to);
    lemma_parting_from(stack, to, q, 1)
}

/// As [`lemma_parting`], looking from entry `s` on.
proof fn lemma_parting_from(stack: Seq<usize>, to: usize, q: Seq<usize>, s: int) -> (d: int)
    requires
        stack.len() > 0,
        !stack.contains(to),
        q.len() >= 2,
        q[q.len() - 1] == to,
        q.no_duplicates(),
        q != stack.push(to),
        1 <= s <= stack.len(),
        s < q.len(),
        forall|j: int| 0 <= j < s ==> q[j] == stack.push(to)[j],
    ensures
        s <= d <= stack.len(),
        d < q.len(),
        forall|j: int| 0 <= j < d ==> q[j] == stack.push(to)[j],
        q[d] != stack.push(to)[d],
    decreases stack.len() - s,
{
    let p = stack.push(to);
    if q[s] != p[s] {
        s
    } else if s == stack.len() {
        // `q` has the target at entry `s`, so it ends there and is `p`.
        assert(q[s] == to);
        if s + 1 < q.len() {
            assert(q[s] == q[q.len() - 1]);
        }
        assert(q =~= p);
        s
    } else {
        // `q` has a stack entry at `s`, so it does not end there.
        assert(stack.contains(stack[s]));
        assert(q[s] != to);
        lemma_parting_from(stack, to, q, s + 1)
    }
}

/// The first path from `from` to `to` that a depth-first exploration comes
/// upon, taking neighbours in the order listed; `None` if the two are the
/// same node or no walk joins them.
///
/// The exploration keeps the current path on an explicit stack and one
/// cursor per node into its neighbour list, so its depth is not bounded by
/// the call stack.
pub fn inner_dfs(adj: &Vec<Vec<usize>>, from: usize, to: usize) -> (r: Option<Vec<usize>>)
    requires
        in_range(adj@),
        from < adj.len(),
        to < adj.len(),
    ensures
        r is Some <==> from != to && reachable(links(adj@), from, to),
        r matches Some(p) ==> is_simple_path(links(adj@), p@, from, to) && is_first_path(
            adj@,
            p@,
            from,
            to,
        ),
{
    if from == to {
        return None;
    }
    let n = adj.len();
    let mut visited: Vec<bool> = Vec::new();
    let mut cursor: Vec<usize> = Vec::new();
    let mut v: usize = 0;
    while v < n
        invariant
            v <= n,
            visited@.len() == v,
            cursor@.len() == v,
            forall|i: int| 0 <= i < v ==> !(#[trigger] visited@[i]),
            forall|i: int| 0 <= i < v ==> #[trigger] cursor@[i] == 0,
        decreases n - v,
    {
        visited.push(false);
        cursor.push(0);
        v += 1;
    }
    let mut cur: Vec<usize> = Vec::new();
    cur.push(from);
    visited[from] = true;
    assert(cur@[0] == from);
    while cur.len() > 0
        invariant
            n == adj.len(),
            in_range(adj@),
            from < n,
            to < n,
            from != to,
            visited@.len() == n,
            cursor@.len() == n,
            visited@[from as int],
            !visited@[to as int],
            forall|i: int| 0 <= i < cur@.len() ==> (#[trigger] cur@[i]) < n && visited@[cur@[i] as int],
            cur@.no_duplicates(),
            cur@.len() > 0 ==> cur@[0] == from,
            is_walk(links(adj@), cur@),
            forall|v: int| 0 <= v < n ==> (#[trigger] cursor@[v]) <= adj@[v]@.len(),
            forall|v: int| 0 <= v < n && !(#[trigger] visited@[v]) ==> cursor@[v] == 0,
            passed_are_visited(adj@, visited@, cursor@),
            off_stack_done(adj@, visited@, cursor@, cur@),
            none_passed(adj@, cur@, cursor@, from, to),
            stack_turns(adj@, cur@, cursor@),
        decreases 2 * total(remaining(adj@, cursor@)) + cur@.len(),
    {
        let ghost cur0 = cur@;
        let ghost cursor0 = cursor@;
        let ghost visited0 = visited@;
        let ghost work0 = total(remaining(adj@, cursor@));
        proof {
            lemma_total_nonnegative(remaining(adj@, cursor@));
        }
        assert(explored(adj@, visited0, cursor0, cur0, to));
        assert(!cur0.contains(to)) by {
            if cur0.contains(to) {
                let i = choose|i: int| 0 <= i < cur0.len() && cur0[i] == to;
                assert(visited0[cur0[i] as int]);
            }
        }
        let u: usize = cur[cur.len() - 1];
        let k: usize = cursor[u];
        if k < adj[u].len() {
            cursor[u] = k + 1;
            let a: usize = adj[u][k];
            proof {
                assert(a < n);
                lemma_total_update(remaining(adj@, cursor0), u as int, adj@[u as int]@.len() - (k + 1));
                assert(remaining(adj@, cursor@) =~= remaining(adj@, cursor0).update(
                    u as int,
                    adj@[u as int]@.len() - (k + 1),
                ));
                assert(total(remaining(adj@, cursor@)) == work0 - 1);
                assert(adj@[u as int]@.contains(a));
                assert(links(adj@).contains((u, a)));
                assert(cur0.contains(u));
            }
            if !visited[a] {
                cur.push(a);
                proof {
                    assert(cur@.len() == cur0.len() + 1);
                    assert forall|i: int| 0 <= i < cur@.len() - 1 implies #[trigger] links(
                        adj@,
                    ).contains((cur@[i], cur@[i + 1])) by {
                        if i < cur0.len() - 1 {
                            assert(links(adj@).contains((cur0[i], cur0[i + 1])));
                        }
                    }
                    assert forall|i: int, j: int|
                        0 <= i < cur@.len() && 0 <= j < cur@.len() && i != j implies cur@[i]
                        != cur@[j] by {
                        if i < cur0.len() && j < cur0.len() {
                            assert(cur0[i] != cur0[j]);
                        }
                    }
                }
                if a == to {
                    proof {
                        assert(connects(links(adj@), cur@, from, to));
                        lemma_found_is_first(adj@, visited0, cursor0, cur0, from, to);
                        assert(cur@ =~= cur0.push(to));
                    }
                    return Some(cur);
                }
                visited[a] = true;
                proof {
                    lemma_push_keeps_open(adj@, visited0, cursor0, cur0, from, to);
                    assert(cur@ =~= cur0.push(a));
                    assert(cursor@ =~= cursor0.update(u as int, (k + 1) as usize));
                    assert forall|v: int|
                        0 <= v < n && #[trigger] visited@[v] && !cur@.contains(
                            v as usize,
                        ) implies cursor@[v] == adj@[v]@.len() by {
                        assert(v != a) by {
                            assert(cur@[cur0.len() as int] == a);
                        }
                        assert(visited0[v]);
                        if cur0.contains(v as usize) {
                            let i = choose|i: int| 0 <= i < cur0.len() && cur0[i] == v as usize;
                            assert(cur@[i] == v as usize);
                        }
                    }
                    assert forall|v: int, j: int|
                        0 <= v < n && visited@[v] && 0 <= j < cursor@[v] implies visited@[(
                    #[trigger] adj@[v]@[j]) as int] by {
                        if v == u && j == k {
                        } else {
                            assert(visited0[v]);
                            assert(0 <= j < cursor0[v]);
                            assert(visited0[adj@[v]@[j] as int]);
                        }
                    }
                }
            } else {
                proof {
                    lemma_skip_keeps_open(adj@, visited0, cursor0, cur0, from, to);
                    assert(cursor@ =~= cursor0.update(u as int, (k + 1) as usize));
                    assert forall|v: int, j: int|
                        0 <= v < n && visited@[v] && 0 <= j < cursor@[v] implies visited@[(
                    #[trigger] adj@[v]@[j]) as int] by {
                        if v == u && j == k {
                        } else {
                            assert(0 <= j < cursor0[v]);
                            assert(visited0[adj@[v]@[j] as int]);
                        }
                    }
                }
            }
        } else {
            cur.pop();
            proof {
                lemma_pop_keeps_open(adj@, cursor0, cur0, from, to);
                assert(cur@ =~= cur0.drop_last());
                assert(cur@.len() == cur0.len() - 1);
                assert(remaining(adj@, cursor@) == remaining(adj@, cursor0));
                assert forall|v: int|
                    0 <= v < n && #[trigger] visited@[v] && !cur@.contains(
                        v as usize,
                    ) implies cursor@[v] == adj@[v]@.len() by {
                    if v != u {
                        if cur0.contains(v as usize) {
                            let i = choose|i: int| 0 <= i < cur0.len() && cur0[i] == v as usize;
                            assert(cur@[i] == v as usize);
                        }
                    }
                }
                assert forall|i: int| 0 <= i < cur@.len() - 1 implies #[trigger] links(
                    adj@,
                ).contains((cur@[i], cur@[i + 1])) by {
                    assert(links(adj@).contains((cur0[i], cur0[i + 1])));
                }
            }
        }
        proof {
            lemma_total_nonnegative(remaining(adj@, cursor@));
        }
    }
    proof {
        if reachable(links(adj@), from, to) {
            let q = choose|q: Seq<usize>| connects(links(adj@), q, from, to);
            assert forall|v: int, k: int|
                0 <= v < adj@.len() && visited@[v] && 0 <= k < adj@[v]@.len() implies visited@[(
            #[trigger] adj@[v]@[k]) as int] by {
                assert(!cur@.contains(v as usize));
                assert(0 <= k < cursor@[v]);
            }
            lemma_closed_set_holds_walk(adj@, visited@, q, q.len() - 1);
        }
    }
    None
}


/// Depth-first search on a graph: the first path that a backtracking
/// exploration comes upon, not necessarily a shortest one.
pub struct Dfs<'a, G: Graph> {
    graph: &'a G,
}

impl<'a, G: Graph> Dfs<'a, G> {
    /// A search on `graph`.
    pub fn new(graph: &'a G) -> (r: Self)
        ensures
            r.graph() == *graph,
    {
        Self { graph }
    }
}

impl<'a, G: Graph> Algorithm<G> for Dfs<'a, G> {
    closed spec fn graph(&self) -> G {
        *self.graph
    }

    fn run(&self, from: G::Index, to: G::Index) -> (r: Option<Vec<G::Index>>) {
        proof {
            self.graph.lemma_wf();
            if !self.graph.nodes().contains(from) || !self.graph.nodes().contains(to) {
                lemma_unregistered_unreachable(self.graph.nodes(), self.graph.edges(), from, to);
            }
        }
        let (names, adj) = number(self.graph);
        let fi = match index_of(&names, from) {
            Some(i) => i,
            None => {
                return None;
            },
        };
        let ti = match index_of(&names, to) {
            Some(i) => i,
            None => {
                return None;
            },
        };
        proof {
            lemma_reachable_alike(names@, adj@, self.graph.edges(), fi, ti);
        }
        match inner_dfs(&adj, fi, ti) {
            None => None,
            Some(p) => {
                proof {
                    lemma_named_path(names@, adj@, self.graph.edges(), p@, fi, ti);
                    assert forall|i: int| 0 <= i < p@.len() implies (#[trigger] p@[i])
                        < names@.len() by {
                        lemma_walk_in_range(adj@, p@, i);
                    }
                }
                Some(read_back(&names, &p))
            },
        }
    }
}

} // verus!
