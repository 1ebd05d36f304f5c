//! Edge stores: the adjacency structure of a backend, over bare identifiers.
//!
//! A store knows which identifiers are in use and which ordered pairs of them
//! are linked, and keeps count of both. The backends pair a store with
//! whatever gives the identifiers their meaning.

use vstd::prelude::*;
use crate::relation::{edges_within, successors, without};

pub mod lists;
pub mod matrix;
pub mod sets;

verus! {

/// Where identifier `k` ends up when `id` is removed from a dense numbering.
pub open spec fn lowered(k: usize, id: usize) -> usize {
    if k > id {
        (k - 1) as usize
    } else {
        k
    }
}

/// The links `links` under the numbering that closes the gap left by `id`.
pub open spec fn renumbered(links: Set<(usize, usize)>, id: usize) -> Set<(usize, usize)> {
    links.map(|p: (usize, usize)| (lowered(p.0, id), lowered(p.1, id)))
}

/// Renumbering links that do not touch `id` neither merges nor loses any.
pub proof fn lemma_renumbered_len(links: Set<(usize, usize)>, id: usize)
    requires
        links.finite(),
        forall|a: usize, b: usize| #[trigger] links.contains((a, b)) ==> a != id && b != id,
    ensures
        renumbered(links, id).finite(),
        renumbered(links, id).len() == links.len(),
{
    let f = |p: (usize, usize)| (lowered(p.0, id), lowered(p.1, id));
    assert(vstd::relations::injective_on(f, links)) by {
        assert forall|p: (usize, usize), q: (usize, usize)|
            links.contains(p) && links.contains(q) && #[trigger] f(p) == #[trigger] f(q) implies p
            == q by {
            assert(links.contains((p.0, p.1)));
            assert(links.contains((q.0, q.1)));
        }
    }
    vstd::set_lib::lemma_map_size(links, renumbered(links, id), f);
}

/// The identifiers from 1 up to `n`.
pub open spec fn id_range(n: nat) -> Set<usize> {
    Set::new(|id: usize| 1 <= id <= n)
}

/// There are `n` identifiers from 1 up to `n`.
pub proof fn lemma_range_len(n: nat)
    requires
        n <= usize::MAX,
    ensures
        id_range(n).finite(),
        id_range(n).len() == n,
{
    let ints = vstd::set_lib::set_int_range(1, n as int + 1);
    vstd::set_lib::lemma_int_range(1, n as int + 1);
    let f = |i: int| i as usize;
    assert(ints.map(f) =~= id_range(n)) by {
        assert forall|id: usize| id_range(n).contains(id) implies ints.map(f).contains(id) by {
            assert(ints.contains(id as int));
        }
    }
    assert(vstd::relations::injective_on(f, ints));
    vstd::set_lib::lemma_map_size(ints, id_range(n), f);
}

/// The operations that a backend needs of its adjacency structure.
pub trait EdgeStore: Sized {
    /// The store's internal invariant.
    spec fn wf(&self) -> bool;

    /// The identifiers in use.
    spec fn ids(&self) -> Set<usize>;

    /// The ordered pairs of identifiers that are linked.
    spec fn links(&self) -> Set<(usize, usize)>;

    /// The largest identifier that the store has been told of and that no
    /// renumbering has taken back.
    spec fn span(&self) -> nat;

    /// Whether the store numbers its identifiers without gaps, renumbering on
    /// removal.
    spec fn dense() -> bool;

    /// Both sets are finite, links join identifiers in use, and identifiers
    /// in use do not exceed the span; a dense store uses every identifier up
    /// to its span.
    proof fn lemma_wf(&self)
        requires
            self.wf(),
        ensures
            self.ids().finite(),
            self.links().finite(),
            edges_within(self.ids(), self.links()),
            self.span() <= usize::MAX,
            forall|id: usize| #[trigger] self.ids().contains(id) ==> id <= self.span(),
            Self::dense() ==> forall|id: usize|
                1 <= id <= self.span() ==> #[trigger] self.ids().contains(id),
    ;

    /// Whether the store numbers its identifiers without gaps.
    fn is_dense() -> (b: bool)
        ensures
            b == Self::dense(),
    ;

    /// A store without identifiers.
    fn empty() -> (s: Self)
        ensures
            s.wf(),
            s.ids() == Set::<usize>::empty(),
            s.links() == Set::<(usize, usize)>::empty(),
            s.span() == 0,
    ;

    /// The number of identifiers in use.
    fn id_count(&self) -> (n: usize)
        requires
            self.wf(),
        ensures
            n == self.ids().len(),
    ;

    /// The number of links.
    fn link_count(&self) -> (n: usize)
        requires
            self.wf(),
        ensures
            n == self.links().len(),
    ;

    /// Whether `f` is linked to `t`.
    fn has_link(&self, f: usize, t: usize) -> (b: bool)
        requires
            self.wf(),
        ensures
            b == self.links().contains((f, t)),
    ;

    /// Takes the next identifier into use.
    fn add_id(&mut self, id: usize)
        requires
            old(self).wf(),
            id == old(self).span() + 1,
        ensures
            final(self).wf(),
            final(self).span() == id,
            final(self).ids() == old(self).ids().insert(id),
            final(self).links() == old(self).links(),
    ;

    /// Links `f` to `t`.
    fn add_link(&mut self, f: usize, t: usize)
        requires
            old(self).wf(),
            old(self).ids().contains(f),
            old(self).ids().contains(t),
            !old(self).links().contains((f, t)),
            old(self).links().len() < usize::MAX,
        ensures
            final(self).wf(),
            final(self).span() == old(self).span(),
            final(self).ids() == old(self).ids(),
            final(self).links() == old(self).links().insert((f, t)),
    ;

    /// Takes the link from `f` to `t` away.
    fn remove_link(&mut self, f: usize, t: usize)
        requires
            old(self).wf(),
            old(self).links().contains((f, t)),
        ensures
            final(self).wf(),
            final(self).span() == old(self).span(),
            final(self).ids() == old(self).ids(),
            final(self).links() == old(self).links().remove((f, t)),
    ;

    /// Takes `id` out of use together with every link that touches it. A
    /// dense store then moves every larger identifier down by one.
    fn remove_id(&mut self, id: usize)
        requires
            old(self).wf(),
            old(self).ids().contains(id),
        ensures
            final(self).wf(),
            Self::dense() ==> {
                &&& final(self).span() == old(self).span() - 1
                &&& final(self).ids() == old(self).ids().remove(old(self).span() as usize)
                &&& final(self).links() == renumbered(without(old(self).links(), id), id)
            },
            !Self::dense() ==> {
                &&& final(self).span() == old(self).span()
                &&& final(self).ids() == old(self).ids().remove(id)
                &&& final(self).links() == without(old(self).links(), id)
            },
    ;

    /// The identifiers in use, each once.
    fn id_list(&self) -> (r: Vec<usize>)
        requires
            self.wf(),
        ensures
            r@.no_duplicates(),
            r@.to_set() == self.ids(),
    ;

    /// The identifiers that `id` is linked to, each once.
    fn neighbors(&self, id: usize) -> (r: Vec<usize>)
        requires
            self.wf(),
            self.ids().contains(id),
        ensures
            r@.no_duplicates(),
            r@.to_set() == successors(self.links(), id),
    ;
}

/// Every link of the store, each once.
pub fn link_list<S: EdgeStore>(store: &S) -> (r: Vec<(usize, usize)>)
    requires
        store.wf(),
    ensures
        r@.no_duplicates(),
        r@.to_set() == store.links(),
{
    let ids = store.id_list();
    let mut r: Vec<(usize, usize)> = Vec::new();
    let mut i: usize = 0;
    proof {
        store.lemma_wf();
    }
    while i < ids.len()
        invariant
            store.wf(),
            i <= ids@.len(),
            ids@.no_duplicates(),
            ids@.to_set() == store.ids(),
            r@.no_duplicates(),
            forall|k: int|
                0 <= k < r@.len() ==> store.links().contains(#[trigger] r@[k]) && exists|j: int|
                    0 <= j < i && ids@[j] == r@[k].0,
            forall|j: int, t: usize|
                0 <= j < i && store.links().contains((#[trigger] ids@[j], t))
                    ==> #[trigger] r@.contains((ids@[j], t)),
        decreases ids@.len() - i,
    {
        let f = ids[i];
        assert(ids@.to_set().contains(f));
        let out = store.neighbors(f);
        let ghost r0 = r@;
        let mut k: usize = 0;
        while k < out.len()
            invariant
                i < ids@.len(),
                f == ids@[i as int],
                ids@.no_duplicates(),
                k <= out@.len(),
                out@.no_duplicates(),
                out@.to_set() == successors(store.links(), f),
                r@.len() == r0.len() + k,
                forall|m: int| 0 <= m < r0.len() ==> r@[m] == r0[m],
                forall|m: int| 0 <= m < k ==> #[trigger] r@[r0.len() + m] == (f, out@[m]),
            decreases out@.len() - k,
        {
            r.push((f, out[k]));
            k += 1;
        }
        proof {
            assert forall|a: int, b: int| 0 <= a < r@.len() && 0 <= b < r@.len() && a != b implies r@[a]
                != r@[b] by {
                if a < r0.len() && b < r0.len() {
                    assert(r0[a] != r0[b]);
                } else if a >= r0.len() && b >= r0.len() {
                    assert(r@[r0.len() + (a - r0.len())] == (f, out@[a - r0.len()]));
                    assert(r@[r0.len() + (b - r0.len())] == (f, out@[b - r0.len()]));
                } else {
                    let (lo, hi) = if a < b { (a, b) } else { (b, a) };
                    assert(r@[r0.len() + (hi - r0.len())] == (f, out@[hi - r0.len()]));
                    let j = choose|j: int| 0 <= j < i && ids@[j] == r0[lo].0;
                    assert(ids@[j] != ids@[i as int]);
                }
            }
            assert forall|m: int| 0 <= m < r@.len() implies store.links().contains(
                #[trigger] r@[m],
            ) && exists|j: int| 0 <= j < i + 1 && ids@[j] == r@[m].0 by {
                if m < r0.len() {
                    let j = choose|j: int| 0 <= j < i && ids@[j] == r0[m].0;
                    assert(0 <= j < i + 1 && ids@[j] == r@[m].0);
                } else {
                    assert(r@[r0.len() + (m - r0.len())] == (f, out@[m - r0.len()]));
                    assert(out@.to_set().contains(out@[m - r0.len()]));
                    assert(0 <= i < i + 1 && ids@[i as int] == r@[m].0);
                }
            }
            assert forall|j: int, t: usize|
                0 <= j < i + 1 && store.links().contains(
                    (#[trigger] ids@[j], t),
                ) implies #[trigger] r@.contains((ids@[j], t)) by {
                if j < i {
                    assert(r0.contains((ids@[j], t)));
                    let m = choose|m: int| 0 <= m < r0.len() && r0[m] == (ids@[j], t);
                    assert(r@[m] == (ids@[j], t));
                } else {
                    assert(out@.to_set().contains(t));
                    let m = choose|m: int| 0 <= m < out@.len() && out@[m] == t;
                    assert(r@[r0.len() + m] == (f, t));
                }
            }
        }
        i += 1;
    }
    proof {
        assert(r@.to_set() =~= store.links()) by {
            assert forall|p: (usize, usize)| store.links().contains(p) implies r@.to_set().contains(
                p,
            ) by {
                assert(store.links().contains((p.0, p.1)));
                assert(ids@.to_set().contains(p.0));
                let j = choose|j: int| 0 <= j < ids@.len() && ids@[j] == p.0;
                assert(r@.contains((ids@[j], p.1)));
            }
        }
    }
    r
}

} // verus!
