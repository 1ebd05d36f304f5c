//! A graph over node objects, made of an identifier registry and an edge
//! store over the identifiers.

use vstd::laws_eq::obeys_concrete_eq;
use vstd::prelude::*;
use crate::keyed::graph::Graph;
use crate::mapping::{compacted, holds, DoubleMapping};
use crate::relation::{
    edges_within, incident, lemma_added_twice, lemma_node_removed, successors, without,
};
use crate::store::{link_list, lowered, renumbered, EdgeStore};

verus! {

/// The objects registered in `names`.
pub open spec fn named<N>(names: Map<usize, N>) -> Set<N> {
    Set::new(|n: N| holds(names, n))
}

/// The edges between objects that the links between their identifiers stand
/// for.
pub open spec fn lift<N>(names: Map<usize, N>, links: Set<(usize, usize)>) -> Set<(N, N)> {
    Set::new(
        |e: (N, N)|
            exists|p: (usize, usize)| #[trigger]
                links.contains(p) && names[p.0] == e.0 && names[p.1] == e.1,
    )
}

/// Distinct identifiers name distinct objects.
pub open spec fn one_to_one<N>(names: Map<usize, N>) -> bool {
    forall|a: usize, b: usize|
        #[trigger] names.contains_key(a) && #[trigger] names.contains_key(b) && a != b ==> names[a]
            != names[b]
}

/// There are as many named objects as identifiers.
pub proof fn lemma_named_len<N>(names: Map<usize, N>)
    requires
        one_to_one(names),
        names.dom().finite(),
    ensures
        named(names).finite(),
        named(names).len() == names.dom().len(),
{
    let f = |id: usize| names[id];
    assert(names.dom().map(f) =~= named(names)) by {
        assert forall|n: N| named(names).contains(n) implies names.dom().map(f).contains(n) by {
            let id = choose|id: usize| names.contains_key(id) && names[id] == n;
            assert(names.dom().contains(id));
        }
    }
    assert(vstd::relations::injective_on(f, names.dom()));
    vstd::set_lib::lemma_map_size(names.dom(), named(names), f);
}

/// There are as many edges as links.
pub proof fn lemma_lift_len<N>(names: Map<usize, N>, links: Set<(usize, usize)>)
    requires
        one_to_one(names),
        links.finite(),
        edges_within(names.dom(), links),
    ensures
        lift(names, links).finite(),
        lift(names, links).len() == links.len(),
{
    let f = |p: (usize, usize)| (names[p.0], names[p.1]);
    assert(links.map(f) =~= lift(names, links)) by {
        assert forall|e: (N, N)| lift(names, links).contains(e) implies links.map(f).contains(e) by {
            let p = choose|p: (usize, usize)| #[trigger]
                links.contains(p) && names[p.0] == e.0 && names[p.1] == e.1;
            assert(f(p) == e);
        }
        assert forall|e: (N, N)| links.map(f).contains(e) implies lift(names, links).contains(e) by {
            let p = choose|p: (usize, usize)| links.contains(p) && f(p) == e;
            assert(links.contains(p) && names[p.0] == e.0 && names[p.1] == e.1);
        }
    }
    assert(vstd::relations::injective_on(f, links)) by {
        assert forall|p: (usize, usize), q: (usize, usize)|
            links.contains(p) && links.contains(q) && #[trigger] f(p) == #[trigger] f(q) implies p
            == q by {
            assert(links.contains((p.0, p.1)));
            assert(links.contains((q.0, q.1)));
        }
    }
    vstd::set_lib::lemma_map_size(links, lift(names, links), f);
}

/// An edge is present exactly when the identifiers of its ends are linked.
pub proof fn lemma_lift_contains<N>(names: Map<usize, N>, links: Set<(usize, usize)>, f: usize, t: usize)
    requires
        one_to_one(names),
        edges_within(names.dom(), links),
        names.contains_key(f),
        names.contains_key(t),
    ensures
        lift(names, links).contains((names[f], names[t])) <==> links.contains((f, t)),
{
    if lift(names, links).contains((names[f], names[t])) {
        let p = choose|p: (usize, usize)| #[trigger]
            links.contains(p) && names[p.0] == names[f] && names[p.1] == names[t];
        assert(links.contains((p.0, p.1)));
    }
    if links.contains((f, t)) {
        assert(links.contains((f, t)) && names[(f, t).0] == names[f] && names[(f, t).1] == names[t]);
    }
}

/// Edges join named objects only.
pub proof fn lemma_lift_within<N>(names: Map<usize, N>, links: Set<(usize, usize)>)
    requires
        edges_within(names.dom(), links),
    ensures
        edges_within(named(names), lift(names, links)),
{
    assert forall|a: N, b: N| #[trigger] lift(names, links).contains((a, b)) implies named(
        names,
    ).contains(a) && named(names).contains(b) by {
        let p = choose|p: (usize, usize)| #[trigger]
            links.contains(p) && names[p.0] == a && names[p.1] == b;
        assert(links.contains((p.0, p.1)));
        assert(names.contains_key(p.0) && names[p.0] == a);
        assert(names.contains_key(p.1) && names[p.1] == b);
    }
}

/// Registering one more object changes no edge.
pub proof fn lemma_lift_insert_name<N>(
    names: Map<usize, N>,
    links: Set<(usize, usize)>,
    id: usize,
    obj: N,
)
    requires
        edges_within(names.dom(), links),
        !names.contains_key(id),
    ensures
        lift(names.insert(id, obj), links) == lift(names, links),
        named(names.insert(id, obj)) == named(names).insert(obj),
{
    let more = names.insert(id, obj);
    assert(lift(more, links) =~= lift(names, links)) by {
        assert forall|e: (N, N)| lift(more, links).contains(e) <==> lift(names, links).contains(
            e,
        ) by {
            if lift(more, links).contains(e) {
                let p = choose|p: (usize, usize)| #[trigger]
                    links.contains(p) && more[p.0] == e.0 && more[p.1] == e.1;
                assert(links.contains((p.0, p.1)));
                assert(links.contains(p) && names[p.0] == e.0 && names[p.1] == e.1);
            }
            if lift(names, links).contains(e) {
                let p = choose|p: (usize, usize)| #[trigger]
                    links.contains(p) && names[p.0] == e.0 && names[p.1] == e.1;
                assert(links.contains((p.0, p.1)));
                assert(links.contains(p) && more[p.0] == e.0 && more[p.1] == e.1);
            }
        }
    }
    assert(named(more) =~= named(names).insert(obj)) by {
        assert forall|n: N| named(more).contains(n) <==> named(names).insert(obj).contains(n) by {
            if named(more).contains(n) {
                let k = choose|k: usize| more.contains_key(k) && more[k] == n;
                if k != id {
                    assert(names.contains_key(k) && names[k] == n);
                }
            }
            if named(names).contains(n) {
                let k = choose|k: usize| names.contains_key(k) && names[k] == n;
                assert(more.contains_key(k) && more[k] == n);
            }
            if n == obj {
                assert(more.contains_key(id) && more[id] == n);
            }
        }
    }
}

/// One more link is one more edge.
pub proof fn lemma_lift_insert_link<N>(
    names: Map<usize, N>,
    links: Set<(usize, usize)>,
    f: usize,
    t: usize,
)
    ensures
        lift(names, links.insert((f, t))) == lift(names, links).insert((names[f], names[t])),
{
    let more = links.insert((f, t));
    assert(lift(names, more) =~= lift(names, links).insert((names[f], names[t]))) by {
        assert forall|e: (N, N)| lift(names, more).contains(e) <==> lift(names, links).insert(
            (names[f], names[t]),
        ).contains(e) by {
            if lift(names, more).contains(e) {
                let p = choose|p: (usize, usize)| #[trigger]
                    more.contains(p) && names[p.0] == e.0 && names[p.1] == e.1;
                if p != (f, t) {
                    assert(links.contains(p) && names[p.0] == e.0 && names[p.1] == e.1);
                }
            }
            if lift(names, links).contains(e) {
                let p = choose|p: (usize, usize)| #[trigger]
                    links.contains(p) && names[p.0] == e.0 && names[p.1] == e.1;
                assert(more.contains(p) && names[p.0] == e.0 && names[p.1] == e.1);
            }
            if e == (names[f], names[t]) {
                assert(more.contains((f, t)) && names[(f, t).0] == e.0 && names[(f, t).1] == e.1);
            }
        }
    }
}

/// One link fewer is one edge fewer.
pub proof fn lemma_lift_remove_link<N>(
    names: Map<usize, N>,
    links: Set<(usize, usize)>,
    f: usize,
    t: usize,
)
    requires
        one_to_one(names),
        edges_within(names.dom(), links),
        names.contains_key(f),
        names.contains_key(t),
    ensures
        lift(names, links.remove((f, t))) == lift(names, links).remove((names[f], names[t])),
{
    let fewer = links.remove((f, t));
    assert(lift(names, fewer) =~= lift(names, links).remove((names[f], names[t]))) by {
        assert forall|e: (N, N)| lift(names, fewer).contains(e) <==> lift(names, links).remove(
            (names[f], names[t]),
        ).contains(e) by {
            if lift(names, fewer).contains(e) {
                let p = choose|p: (usize, usize)| #[trigger]
                    fewer.contains(p) && names[p.0] == e.0 && names[p.1] == e.1;
                assert(links.contains((p.0, p.1)));
                assert(links.contains(p) && names[p.0] == e.0 && names[p.1] == e.1);
            }
            if lift(names, links).contains(e) && e != (names[f], names[t]) {
                let p = choose|p: (usize, usize)| #[trigger]
                    links.contains(p) && names[p.0] == e.0 && names[p.1] == e.1;
                assert(fewer.contains(p) && names[p.0] == e.0 && names[p.1] == e.1);
            }
        }
    }
}

/// Retiring an identifier together with its links removes the object it
/// names together with its edges.
pub proof fn lemma_lift_remove_name<N>(names: Map<usize, N>, links: Set<(usize, usize)>, id: usize)
    requires
        one_to_one(names),
        edges_within(names.dom(), links),
        names.contains_key(id),
    ensures
        lift(names.remove(id), without(links, id)) == without(lift(names, links), names[id]),
        named(names.remove(id)) == named(names).remove(names[id]),
        one_to_one(names.remove(id)),
        edges_within(names.remove(id).dom(), without(links, id)),
{
    let fewer = names.remove(id);
    let kept = without(links, id);
    assert(lift(fewer, kept) =~= without(lift(names, links), names[id])) by {
        assert forall|e: (N, N)| lift(fewer, kept).contains(e) <==> without(
            lift(names, links),
            names[id],
        ).contains(e) by {
            if lift(fewer, kept).contains(e) {
                let p = choose|p: (usize, usize)| #[trigger]
                    kept.contains(p) && fewer[p.0] == e.0 && fewer[p.1] == e.1;
                assert(links.contains((p.0, p.1)));
                assert(links.contains(p) && names[p.0] == e.0 && names[p.1] == e.1);
            }
            if without(lift(names, links), names[id]).contains(e) {
                let p = choose|p: (usize, usize)| #[trigger]
                    links.contains(p) && names[p.0] == e.0 && names[p.1] == e.1;
                assert(links.contains((p.0, p.1)));
                assert(kept.contains(p) && fewer[p.0] == e.0 && fewer[p.1] == e.1);
            }
        }
    }
    assert(named(fewer) =~= named(names).remove(names[id])) by {
        assert forall|n: N| named(fewer).contains(n) <==> named(names).remove(names[id]).contains(
            n,
        ) by {
            if named(fewer).contains(n) {
                let k = choose|k: usize| fewer.contains_key(k) && fewer[k] == n;
                assert(names.contains_key(k) && names[k] == n);
            }
            if named(names).contains(n) && n != names[id] {
                let k = choose|k: usize| names.contains_key(k) && names[k] == n;
                assert(fewer.contains_key(k) && fewer[k] == n);
            }
        }
    }
    assert forall|a: usize, b: usize| #[trigger] kept.contains((a, b)) implies fewer.dom().contains(
        a,
    ) && fewer.dom().contains(b) by {
        assert(links.contains((a, b)));
    }
}

/// Renumbering identifiers and links alike changes neither nodes nor edges.
pub proof fn lemma_lift_compacted<N>(names: Map<usize, N>, links: Set<(usize, usize)>, id: usize)
    requires
        one_to_one(names),
        edges_within(names.dom(), links),
        names.contains_key(id),
        forall|k: usize| #[trigger] names.contains_key(k) ==> 1 <= k,
    ensures
        lift(compacted(names, id), renumbered(without(links, id), id)) == lift(
            names.remove(id),
            without(links, id),
        ),
        named(compacted(names, id)) == named(names.remove(id)),
        one_to_one(compacted(names, id)),
        edges_within(compacted(names, id).dom(), renumbered(without(links, id), id)),
{
    let fewer = names.remove(id);
    let dense = compacted(names, id);
    let kept = without(links, id);
    let moved = renumbered(kept, id);
    let g = |p: (usize, usize)| (lowered(p.0, id), lowered(p.1, id));
    assert forall|k: usize| #[trigger] fewer.contains_key(k) implies dense.contains_key(
        lowered(k, id),
    ) && dense[lowered(k, id)] == fewer[k] by {}
    assert(lift(dense, moved) =~= lift(fewer, kept)) by {
        assert forall|e: (N, N)| lift(dense, moved).contains(e) <==> lift(fewer, kept).contains(
            e,
        ) by {
            if lift(dense, moved).contains(e) {
                let q = choose|q: (usize, usize)| #[trigger]
                    moved.contains(q) && dense[q.0] == e.0 && dense[q.1] == e.1;
                let p = choose|p: (usize, usize)| kept.contains(p) && g(p) == q;
                assert(links.contains((p.0, p.1)));
                assert(fewer.contains_key(p.0) && fewer.contains_key(p.1));
                assert(kept.contains(p) && fewer[p.0] == e.0 && fewer[p.1] == e.1);
            }
            if lift(fewer, kept).contains(e) {
                let p = choose|p: (usize, usize)| #[trigger]
                    kept.contains(p) && fewer[p.0] == e.0 && fewer[p.1] == e.1;
                assert(links.contains((p.0, p.1)));
                assert(fewer.contains_key(p.0) && fewer.contains_key(p.1));
                let q = g(p);
                assert(moved.contains(q));
                assert(moved.contains(q) && dense[q.0] == e.0 && dense[q.1] == e.1);
            }
        }
    }
    assert(named(dense) =~= named(fewer)) by {
        assert forall|n: N| named(dense).contains(n) <==> named(fewer).contains(n) by {
            if named(dense).contains(n) {
                let k = choose|k: usize| dense.contains_key(k) && dense[k] == n;
                let k0 = if k < id { k } else { (k + 1) as usize };
                assert(fewer.contains_key(k0) && fewer[k0] == n);
            }
            if named(fewer).contains(n) {
                let k = choose|k: usize| fewer.contains_key(k) && fewer[k] == n;
                assert(dense.contains_key(lowered(k, id)) && dense[lowered(k, id)] == n);
            }
        }
    }
    assert forall|a: usize, b: usize|
        #[trigger] dense.contains_key(a) && #[trigger] dense.contains_key(b) && a
            != b implies dense[a] != dense[b] by {
        let a0 = if a < id { a } else { (a + 1) as usize };
        let b0 = if b < id { b } else { (b + 1) as usize };
        assert(names.contains_key(a0) && names.contains_key(b0));
    }
    assert forall|a: usize, b: usize| #[trigger] moved.contains((a, b)) implies dense.dom().contains(
        a,
    ) && dense.dom().contains(b) by {
        let p = choose|p: (usize, usize)| kept.contains(p) && g(p) == (a, b);
        assert(links.contains((p.0, p.1)));
        assert(fewer.contains_key(p.0) && fewer.contains_key(p.1));
    }
}

/// A registry that gives node objects their identifiers, and an edge store
/// over those identifiers.
pub struct Registered<N, S> {
    identifiers: DoubleMapping<N>,
    store: S,
}

impl<N: Eq, S: EdgeStore> Registered<N, S> {
    /// How the two sets relate to the registry and the store.
    proof fn lemma_parts(&self)
        requires
            self.wf(),
        ensures
            self.nodes().finite(),
            self.edges().finite(),
            self.nodes().len() == self.store.ids().len(),
            self.edges().len() == self.store.links().len(),
            edges_within(self.nodes(), self.edges()),
            one_to_one(self.identifiers@),
            edges_within(self.identifiers@.dom(), self.store.links()),
    {
        self.identifiers.lemma_wf();
        self.store.lemma_wf();
        lemma_named_len(self.identifiers@);
        lemma_lift_len(self.identifiers@, self.store.links());
        lemma_lift_within(self.identifiers@, self.store.links());
    }

    /// A graph without nodes.
    pub fn new() -> (g: Self)
        ensures
            g.wf(),
            g.nodes() == Set::<N>::empty(),
            g.edges() == Set::<(N, N)>::empty(),
    {
        let g = Registered { identifiers: DoubleMapping::new(S::is_dense()), store: S::empty() };
        assert(g.nodes() =~= Set::<N>::empty());
        assert(g.edges() =~= Set::<(N, N)>::empty());
        g
    }

    /// The identifier of `n`, which is registered first if it is not yet.
    fn find_or_add(&mut self, n: N) -> (id: usize)
        requires
            old(self).wf(),
            obeys_concrete_eq::<N>(),
        ensures
            final(self).wf(),
            final(self).identifiers@.contains_key(id),
            final(self).identifiers@[id] == n,
            final(self).nodes() == old(self).nodes().insert(n),
            final(self).edges() == old(self).edges(),
            final(self).store.links() == old(self).store.links(),
            forall|k: usize| #[trigger]
                old(self).identifiers@.contains_key(k) ==> final(self).identifiers@.contains_key(k)
                    && final(self).identifiers@[k] == old(self).identifiers@[k],
    {
        proof {
            self.lemma_parts();
        }
        match self.identifiers.get_by_obj(&n) {
            Some(id) => {
                assert(self.nodes() =~= self.nodes().insert(n)) by {
                    assert(holds(self.identifiers@, n));
                }
                id
            },
            None => {
                let id = self.identifiers.insert(n).unwrap();
                proof {
                    old(self).identifiers.lemma_wf();
                    lemma_lift_insert_name(
                        old(self).identifiers@,
                        old(self).store.links(),
                        id,
                        n,
                    );
                }
                self.store.add_id(id);
                id
            },
        }
    }
}

impl<N: Eq, S: EdgeStore> Graph<N> for Registered<N, S> {
    closed spec fn wf(&self) -> bool {
        &&& self.identifiers.wf()
        &&& self.store.wf()
        &&& self.store.ids() == self.identifiers@.dom()
        &&& self.store.span() == self.identifiers.issued()
        &&& S::dense() == self.identifiers.compacting()
    }

    closed spec fn nodes(&self) -> Set<N> {
        named(self.identifiers@)
    }

    closed spec fn edges(&self) -> Set<(N, N)> {
        lift(self.identifiers@, self.store.links())
    }

    proof fn lemma_wf(&self) {
        self.lemma_parts();
    }

    fn add_node(&mut self, n: N) {
        self.find_or_add(n);
    }

    fn add_edge(&mut self, f: N, t: N) {
        proof {
            self.lemma_parts();
            lemma_added_twice(self.edges(), f, t);
        }
        let i_f = self.find_or_add(f);
        let i_t = self.find_or_add(t);
        proof {
            self.lemma_parts();
            lemma_lift_contains(self.identifiers@, self.store.links(), i_f, i_t);
        }
        if self.store.has_link(i_f, i_t) {
            assert(self.edges() =~= self.edges().insert((f, t)));
            return ;
        }
        proof {
            lemma_lift_insert_link(self.identifiers@, self.store.links(), i_f, i_t);
        }
        self.store.add_link(i_f, i_t);
    }

    fn has_node(&self, n: &N) -> (b: bool) {
        self.identifiers.contains_obj(n)
    }

    fn has_edge(&self, f: &N, t: &N) -> (b: bool) {
        proof {
            self.lemma_parts();
        }
        match (self.identifiers.get_by_obj(f), self.identifiers.get_by_obj(t)) {
            (Some(i_f), Some(i_t)) => {
                proof {
                    lemma_lift_contains(self.identifiers@, self.store.links(), i_f, i_t);
                }
                self.store.has_link(i_f, i_t)
            },
            _ => {
                assert(!self.nodes().contains(*f) || !self.nodes().contains(*t));
                false
            },
        }
    }

    fn remove_node(&mut self, n: &N) {
        proof {
            self.lemma_parts();
            lemma_node_removed(self.nodes(), self.edges(), *n);
        }
        match self.identifiers.get_by_obj(n) {
            None => {
                assert(self.nodes() =~= self.nodes().remove(*n));
                assert(self.edges() =~= without(self.edges(), *n)) by {
                    assert forall|e: (N, N)| self.edges().contains(e) implies e.0 != *n && e.1
                        != *n by {
                        assert(self.edges().contains((e.0, e.1)));
                    }
                }
            },
            Some(id) => {
                proof {
                    self.identifiers.lemma_wf();
                    lemma_lift_remove_name(self.identifiers@, self.store.links(), id);
                    if S::dense() {
                        lemma_lift_compacted(self.identifiers@, self.store.links(), id);
                        assert(compacted(self.identifiers@, id).dom() =~= self.identifiers@.dom().remove(
                            self.identifiers.issued() as usize,
                        ));
                    }
                }
                self.identifiers.remove(id);
                self.store.remove_id(id);
            },
        }
    }

    fn remove_edge(&mut self, f: &N, t: &N) {
        if !self.has_edge(f, t) {
            assert(self.edges() =~= self.edges().remove((*f, *t)));
            return ;
        }
        proof {
            self.lemma_parts();
        }
        let i_f = self.identifiers.get_by_obj(f).unwrap();
        let i_t = self.identifiers.get_by_obj(t).unwrap();
        proof {
            lemma_lift_contains(self.identifiers@, self.store.links(), i_f, i_t);
            lemma_lift_remove_link(self.identifiers@, self.store.links(), i_f, i_t);
        }
        self.store.remove_link(i_f, i_t);
    }

    fn node_count(&self) -> (n: usize) {
        proof {
            self.lemma_parts();
        }
        self.store.id_count()
    }

    fn edge_count(&self) -> (n: usize) {
        proof {
            self.lemma_parts();
        }
        self.store.link_count()
    }

    fn iter_nodes(&self) -> (r: Vec<&N>) {
        let r = self.identifiers.iter_obj();
        assert(r@.unref().to_set() =~= self.nodes());
        r
    }

    fn iter_adj(&self, n: &N) -> (r: Option<Vec<&N>>) {
        proof {
            self.lemma_parts();
        }
        let id = match self.identifiers.get_by_obj(n) {
            Some(id) => id,
            None => {
                return None;
            },
        };
        let out = self.store.neighbors(id);
        let mut r: Vec<&N> = Vec::new();
        let mut k: usize = 0;
        while k < out.len()
            invariant
                self.wf(),
                k <= out@.len(),
                out@.to_set() == successors(self.store.links(), id),
                edges_within(self.identifiers@.dom(), self.store.links()),
                r@.len() == k,
                forall|j: int|
                    0 <= j < k ==> self.identifiers@.contains_key(#[trigger] out@[j]) && *r@[j]
                        == self.identifiers@[out@[j]],
            decreases out@.len() - k,
        {
            assert(out@.to_set().contains(out@[k as int]));
            assert(self.store.links().contains((id, out@[k as int])));
            let obj = self.identifiers.get_by_id(out[k]).unwrap();
            r.push(obj);
            k += 1;
        }
        proof {
            let names = self.identifiers@;
            let links = self.store.links();
            let objs = r@.unref();
            assert forall|a: int, b: int| 0 <= a < objs.len() && 0 <= b < objs.len() && a
                != b implies objs[a] != objs[b] by {
                assert(out@[a] != out@[b]);
                assert(names.contains_key(out@[a]) && names.contains_key(out@[b]));
            }
            assert(objs.to_set() =~= successors(self.edges(), *n)) by {
                assert forall|x: N| objs.to_set().contains(x) implies successors(
                    self.edges(),
                    *n,
                ).contains(x) by {
                    let j = choose|j: int| 0 <= j < objs.len() && objs[j] == x;
                    assert(out@.to_set().contains(out@[j]));
                    lemma_lift_contains(names, links, id, out@[j]);
                }
                assert forall|x: N| successors(self.edges(), *n).contains(
                    x,
                ) implies objs.to_set().contains(x) by {
                    let p = choose|p: (usize, usize)| #[trigger]
                        links.contains(p) && names[p.0] == *n && names[p.1] == x;
                    assert(links.contains((p.0, p.1)));
                    assert(p.0 == id);
                    assert(out@.to_set().contains(p.1));
                    let j = choose|j: int| 0 <= j < out@.len() && out@[j] == p.1;
                    assert(objs[j] == x);
                }
            }
        }
        Some(r)
    }

    fn iter_edges(&self) -> (r: Vec<(&N, &N)>) {
        proof {
            self.lemma_parts();
        }
        let pairs = link_list(&self.store);
        let mut r: Vec<(&N, &N)> = Vec::new();
        let mut k: usize = 0;
        while k < pairs.len()
            invariant
                self.wf(),
                k <= pairs@.len(),
                pairs@.to_set() == self.store.links(),
                edges_within(self.identifiers@.dom(), self.store.links()),
                r@.len() == k,
                forall|j: int|
                    0 <= j < k ==> {
                        &&& self.identifiers@.contains_key((#[trigger] pairs@[j]).0)
                        &&& self.identifiers@.contains_key(pairs@[j].1)
                        &&& *r@[j].0 == self.identifiers@[pairs@[j].0]
                        &&& *r@[j].1 == self.identifiers@[pairs@[j].1]
                    },
            decreases pairs@.len() - k,
        {
            let (f, t) = pairs[k];
            assert(pairs@.to_set().contains(pairs@[k as int]));
            assert(self.store.links().contains((f, t)));
            let from = self.identifiers.get_by_id(f).unwrap();
            let to = self.identifiers.get_by_id(t).unwrap();
            r.push((from, to));
            k += 1;
        }
        proof {
            let names = self.identifiers@;
            let links = self.store.links();
            let es = r@.unref();
            assert forall|a: int, b: int| 0 <= a < es.len() && 0 <= b < es.len() && a
                != b implies es[a] != es[b] by {
                assert(pairs@[a] != pairs@[b]);
                assert(names.contains_key(pairs@[a].0) && names.contains_key(pairs@[b].0));
                assert(names.contains_key(pairs@[a].1) && names.contains_key(pairs@[b].1));
            }
            assert(es.to_set() =~= self.edges()) by {
                assert forall|e: (N, N)| es.to_set().contains(e) implies self.edges().contains(
                    e,
                ) by {
                    let j = choose|j: int| 0 <= j < es.len() && es[j] == e;
                    assert(pairs@.to_set().contains(pairs@[j]));
                    assert(links.contains(pairs@[j]) && names[pairs@[j].0] == e.0 && names[pairs@[j].1]
                        == e.1);
                }
                assert forall|e: (N, N)| self.edges().contains(e) implies es.to_set().contains(
                    e,
                ) by {
                    let p = choose|p: (usize, usize)| #[trigger]
                        links.contains(p) && names[p.0] == e.0 && names[p.1] == e.1;
                    assert(pairs@.to_set().contains(p));
                    let j = choose|j: int| 0 <= j < pairs@.len() && pairs@[j] == p;
                    assert(es[j] == e);
                }
            }
        }
        r
    }
}

} // verus!
