//! The adjacency-list backend: nodes are handles counted up from 1, and each
//! has a hash set of the handles that it has an edge to.

use vstd::laws_eq::obeys_concrete_eq;
use vstd::prelude::*;
use vstd::std_specs::cmp::PartialEqSpecImpl;
use crate::graph::Graph;
use crate::relation::{lemma_added_twice, lemma_node_removed, successors, without};
use crate::store::sets::NeighborSets;
use crate::store::{link_list, EdgeStore};

verus! {

/// The handle of a node of an [`AdjListGraph`].
#[derive(Eq, PartialOrd, Ord, Clone, Copy, Hash, Debug)]
pub struct Index(usize);

impl PartialEq for Index {
    fn eq(&self, other: &Self) -> (r: bool) {
        self.0 == other.0
    }
}

impl PartialEqSpecImpl for Index {
    open spec fn obeys_eq_spec() -> bool {
        true
    }

    open spec fn eq_spec(&self, other: &Self) -> bool {
        self@ == other@
    }
}

impl View for Index {
    type V = usize;

    closed spec fn view(&self) -> usize {
        self.0
    }
}

impl Index {
    /// The handle that follows this one.
    pub fn next(&self) -> (r: Self)
        requires
            self@ < usize::MAX,
        ensures
            r@ == self@ + 1,
    {
        Index(self.0 + 1)
    }

    /// The number of the handle.
    pub fn value(&self) -> (r: usize)
        ensures
            r == self@,
    {
        self.0
    }

    /// Comparing handles with `==` tells whether they are the same handle.
    pub proof fn lemma_eq_is_lawful()
        ensures
            obeys_concrete_eq::<Index>(),
    {
        reveal(obeys_concrete_eq);
    }

    /// Handles are the same exactly when their numbers are.
    pub proof fn lemma_view_injective(a: Index, b: Index)
        ensures
            a@ == b@ <==> a == b,
    {
    }
}

/// The handles that stand for the identifiers `ids`.
pub closed spec fn handles(ids: Set<usize>) -> Set<Index> {
    Set::new(|i: Index| ids.contains(i.0))
}

/// The links `links` as pairs of handles.
pub closed spec fn handle_pairs(links: Set<(usize, usize)>) -> Set<(Index, Index)> {
    Set::new(|e: (Index, Index)| links.contains((e.0.0, e.1.0)))
}

/// There are as many handles as identifiers.
proof fn lemma_handles_len(ids: Set<usize>)
    requires
        ids.finite(),
    ensures
        handles(ids).finite(),
        handles(ids).len() == ids.len(),
{
    let f = |k: usize| Index(k);
    assert(ids.map(f) =~= handles(ids)) by {
        assert forall|i: Index| handles(ids).contains(i) implies ids.map(f).contains(i) by {
            assert(ids.contains(i.0) && f(i.0) == i);
        }
    }
    assert(vstd::relations::injective_on(f, ids));
    vstd::set_lib::lemma_map_size(ids, handles(ids), f);
}

/// There are as many pairs of handles as links.
proof fn lemma_handle_pairs_len(links: Set<(usize, usize)>)
    requires
        links.finite(),
    ensures
        handle_pairs(links).finite(),
        handle_pairs(links).len() == links.len(),
{
    let f = |p: (usize, usize)| (Index(p.0), Index(p.1));
    assert(links.map(f) =~= handle_pairs(links)) by {
        assert forall|e: (Index, Index)| handle_pairs(links).contains(e) implies links.map(
            f,
        ).contains(e) by {
            assert(links.contains((e.0.0, e.1.0)) && f((e.0.0, e.1.0)) == e);
        }
    }
    assert(vstd::relations::injective_on(f, links));
    vstd::set_lib::lemma_map_size(links, handle_pairs(links), f);
}

/// Adjacency list implementation of [`Graph`].
pub struct AdjListGraph {
    edges: NeighborSets,
}

impl AdjListGraph {
    /// Creates a new graph.
    pub fn new() -> (g: Self)
        ensures
            g.wf(),
            g.nodes() == Set::<Index>::empty(),
            g.edges() == Set::<(Index, Index)>::empty(),
            g.issued() == 0,
    {
        let g = AdjListGraph { edges: NeighborSets::empty() };
        assert(g.nodes() =~= Set::<Index>::empty());
        assert(g.edges() =~= Set::<(Index, Index)>::empty());
        g
    }

    /// The number of the largest handle that the graph has seen; the next
    /// node gets the handle after it.
    pub closed spec fn issued(&self) -> nat {
        self.edges.span()
    }

    /// A handle is spare as long as the handle numbers have not run out.
    pub proof fn lemma_spare(&self)
        ensures
            self.has_spare_index() <==> self.issued() < usize::MAX,
    {
    }

    /// Whether `n` is a registered node.
    pub fn has_node(&self, n: Index) -> (b: bool)
        requires
            self.wf(),
        ensures
            b == self.nodes().contains(n),
    {
        self.edges.has_id(n.0)
    }
}

impl Default for AdjListGraph {
    fn default() -> (g: Self)
        ensures
            g.wf(),
            g.nodes() == Set::<Index>::empty(),
            g.edges() == Set::<(Index, Index)>::empty(),
            g.issued() == 0,
    {
        Self::new()
    }
}

impl Graph for AdjListGraph {
    type Index = Index;

    closed spec fn wf(&self) -> bool {
        self.edges.wf()
    }

    closed spec fn nodes(&self) -> Set<Index> {
        handles(self.edges.ids())
    }

    closed spec fn edges(&self) -> Set<(Index, Index)> {
        handle_pairs(self.edges.links())
    }

    closed spec fn has_spare_index(&self) -> bool {
        self.edges.span() < usize::MAX
    }

    proof fn lemma_wf(&self) {
        self.edges.lemma_wf();
        lemma_handles_len(self.edges.ids());
        lemma_handle_pairs_len(self.edges.links());
    }

    fn can_add_node(&self) -> (b: bool) {
        self.edges.last_id() < usize::MAX
    }

    fn add_node(&mut self) -> (id: Index)
        ensures
            id@ == old(self).issued() + 1,
            final(self).issued() == id@,
    {
        proof {
            self.edges.lemma_wf();
        }
        let ghost ids0 = self.edges.ids();
        let last = self.edges.last_id();
        let id = Index(last + 1);
        self.edges.add_id(id.0);
        assert(self.nodes() =~= handles(ids0).insert(id));
        id
    }

    fn add_edge(&mut self, f: Index, t: Index)
        ensures
            final(self).issued() == if f@ >= t@ && f@ > old(self).issued() {
                f@ as nat
            } else if t@ > old(self).issued() {
                t@ as nat
            } else {
                old(self).issued()
            },
    {
        let ghost ids0 = self.edges.ids();
        let ghost links0 = self.edges.links();
        proof {
            self.edges.lemma_wf();
            lemma_handle_pairs_len(links0);
            lemma_added_twice(self.edges(), f, t);
        }
        self.edges.admit_id(f.0);
        self.edges.admit_id(t.0);
        assert(self.nodes() =~= handles(ids0).insert(f).insert(t));
        if self.edges.has_link(f.0, t.0) {
            assert(self.edges() =~= handle_pairs(links0).insert((f, t)));
            return ;
        }
        self.edges.add_link(f.0, t.0);
        assert(self.edges() =~= handle_pairs(links0).insert((f, t)));
    }

    fn has_edge(&self, f: Index, t: Index) -> (b: bool) {
        self.edges.has_link(f.0, t.0)
    }

    fn remove_node(&mut self, n: Index)
        ensures
            final(self).issued() == old(self).issued(),
    {
        let ghost ids0 = self.edges.ids();
        let ghost links0 = self.edges.links();
        proof {
            self.lemma_wf();
            lemma_node_removed(self.nodes(), self.edges(), n);
        }
        if !self.edges.has_id(n.0) {
            proof {
                self.edges.lemma_wf();
                assert(self.nodes() =~= self.nodes().remove(n));
                assert(self.edges() =~= without(self.edges(), n)) by {
                    assert forall|e: (Index, Index)| self.edges().contains(e) implies e.0 != n
                        && e.1 != n by {
                        assert(links0.contains((e.0.0, e.1.0)));
                    }
                }
            }
            return ;
        }
        self.edges.remove_id(n.0);
        assert(self.nodes() =~= handles(ids0).remove(n));
        assert(self.edges() =~= without(handle_pairs(links0), n));
    }

    fn remove_edge(&mut self, f: Index, t: Index)
        ensures
            final(self).issued() == old(self).issued(),
    {
        let ghost links0 = self.edges.links();
        if self.edges.has_link(f.0, t.0) {
            self.edges.remove_link(f.0, t.0);
        }
        assert(self.edges() =~= handle_pairs(links0).remove((f, t)));
    }

    fn node_count(&self) -> (n: usize) {
        proof {
            self.edges.lemma_wf();
            lemma_handles_len(self.edges.ids());
        }
        self.edges.id_count()
    }

    fn edge_count(&self) -> (n: usize) {
        proof {
            self.edges.lemma_wf();
            lemma_handle_pairs_len(self.edges.links());
        }
        self.edges.link_count()
    }

    fn iter_nodes(&self) -> (r: Vec<Index>) {
        let ids = self.edges.id_list();
        let r = to_handles(&ids);
        assert(r@.to_set() =~= self.nodes()) by {
            assert forall|i: Index| self.nodes().contains(i) implies r@.to_set().contains(i) by {
                assert(ids@.to_set().contains(i.0));
                let k = choose|k: int| 0 <= k < ids@.len() && ids@[k] == i.0;
                assert(r@[k] == i);
            }
            assert forall|i: Index| r@.to_set().contains(i) implies self.nodes().contains(i) by {
                let k = choose|k: int| 0 <= k < r@.len() && r@[k] == i;
                assert(ids@.to_set().contains(ids@[k]));
            }
        }
        r
    }

    fn iter_adj(&self, n: Index) -> (r: Option<Vec<Index>>) {
        if !self.edges.has_id(n.0) {
            return None;
        }
        let out = self.edges.neighbors(n.0);
        let r = to_handles(&out);
        assert(r@.to_set() =~= successors(self.edges(), n)) by {
            assert forall|i: Index| successors(self.edges(), n).contains(
                i,
            ) implies r@.to_set().contains(i) by {
                assert(out@.to_set().contains(i.0));
                let k = choose|k: int| 0 <= k < out@.len() && out@[k] == i.0;
                assert(r@[k] == i);
            }
            assert forall|i: Index| r@.to_set().contains(i) implies successors(
                self.edges(),
                n,
            ).contains(i) by {
                let k = choose|k: int| 0 <= k < r@.len() && r@[k] == i;
                assert(out@.to_set().contains(out@[k]));
            }
        }
        Some(r)
    }

    fn iter_edges(&self) -> (r: Vec<(Index, Index)>) {
        let pairs = link_list(&self.edges);
        let mut r: Vec<(Index, Index)> = Vec::new();
        let mut k: usize = 0;
        while k < pairs.len()
            invariant
                k <= pairs@.len(),
                r@.len() == k,
                forall|j: int|
                    0 <= j < k ==> r@[j] == (Index((#[trigger] pairs@[j]).0), Index(pairs@[j].1)),
            decreases pairs@.len() - k,
        {
            let (f, t) = pairs[k];
            r.push((Index(f), Index(t)));
            k += 1;
        }
        proof {
            assert forall|a: int, b: int| 0 <= a < r@.len() && 0 <= b < r@.len() && a != b implies r@[a]
                != r@[b] by {
                assert(pairs@[a] != pairs@[b]);
            }
            assert(r@.to_set() =~= self.edges()) by {
                assert forall|e: (Index, Index)| self.edges().contains(e) implies r@.to_set().contains(
                    e,
                ) by {
                    assert(pairs@.to_set().contains((e.0.0, e.1.0)));
                    let j = choose|j: int| 0 <= j < pairs@.len() && pairs@[j] == (e.0.0, e.1.0);
                    assert(r@[j] == e);
                }
                assert forall|e: (Index, Index)| r@.to_set().contains(e) implies self.edges().contains(
                    e,
                ) by {
                    let j = choose|j: int| 0 <= j < r@.len() && r@[j] == e;
                    assert(pairs@.to_set().contains(pairs@[j]));
                }
            }
        }
        r
    }
}

/// The handles for the identifiers in `ids`, in the same order.
fn to_handles(ids: &Vec<usize>) -> (r: Vec<Index>)
    ensures
        r@.len() == ids@.len(),
        forall|k: int| 0 <= k < ids@.len() ==> r@[k] == Index(#[trigger] ids@[k]),
        ids@.no_duplicates() ==> r@.no_duplicates(),
{
    let mut r: Vec<Index> = Vec::new();
    let mut k: usize = 0;
    while k < ids.len()
        invariant
            k <= ids@.len(),
            r@.len() == k,
            forall|j: int| 0 <= j < k ==> r@[j] == Index(#[trigger] ids@[j]),
        decreases ids@.len() - k,
    {
        r.push(Index(ids[k]));
        k += 1;
    }
    proof {
        if ids@.no_duplicates() {
            assert forall|a: int, b: int| 0 <= a < r@.len() && 0 <= b < r@.len() && a != b implies r@[a]
                != r@[b] by {
                assert(ids@[a] != ids@[b]);
            }
        }
    }
    r
}

} // verus!
