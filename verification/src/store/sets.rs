//! An edge store that keeps one hash set of neighbours per identifier.

use std::collections::{HashMap, HashSet};
use vstd::prelude::*;
use vstd::std_specs::iter::IteratorSpec;
use crate::relation::{lemma_without_source_len, successors, without, without_source};
use crate::store::EdgeStore;

verus! {

/// The members of `s`, each once.
pub fn members(s: &HashSet<usize>) -> (r: Vec<usize>)
    ensures
        r@.no_duplicates(),
        r@.to_set() == s@,
{
    let mut r: Vec<usize> = Vec::new();
    for k in it: s.iter()
        invariant
            r@.len() == it.index(),
            forall|j: int| 0 <= j < r@.len() ==> r@[j] == *it.seq()[j],
    {
        r.push(*k);
    }
    assert(r@ =~= s.iter().remaining().unref());
    r
}

/// The keys of `m`, each once.
pub fn keys_of(m: &HashMap<usize, HashSet<usize>>) -> (r: Vec<usize>)
    ensures
        r@.no_duplicates(),
        r@.to_set() == m@.dom(),
{
    let mut r: Vec<usize> = Vec::new();
    for k in it: m.keys()
        invariant
            r@.len() == it.index(),
            forall|j: int| 0 <= j < r@.len() ==> r@[j] == *it.seq()[j],
    {
        r.push(*k);
    }
    assert(r@ =~= m.keys().remaining().unref());
    r
}

/// The links that a map from identifiers to neighbour sets spells out.
pub open spec fn links_of(sets: Map<usize, HashSet<usize>>) -> Set<(usize, usize)> {
    Set::new(|p: (usize, usize)| sets.contains_key(p.0) && sets[p.0]@.contains(p.1))
}

/// One hash set of neighbours per identifier in use.
pub struct NeighborSets {
    sets: HashMap<usize, HashSet<usize>>,
    total: usize,
    last: usize,
}

impl NeighborSets {
    /// The largest identifier that the store has been told of.
    pub fn last_id(&self) -> (n: usize)
        ensures
            n == self.span(),
    {
        self.last
    }

    /// Whether `id` is in use.
    pub fn has_id(&self, id: usize) -> (b: bool)
        requires
            self.wf(),
        ensures
            b == self.ids().contains(id),
    {
        self.sets.contains_key(&id)
    }

    /// Takes `id` into use if it is not, whatever has been in use before.
    pub fn admit_id(&mut self, id: usize)
        requires
            old(self).wf(),
        ensures
            final(self).wf(),
            final(self).span() == if id > old(self).span() {
                id as nat
            } else {
                old(self).span()
            },
            final(self).ids() == old(self).ids().insert(id),
            final(self).links() == old(self).links(),
    {
        if !self.sets.contains_key(&id) {
            self.sets.insert(id, HashSet::new());
            assert(links_of(self.sets@) =~= links_of(old(self).sets@));
        }
        if id > self.last {
            self.last = id;
        }
        assert(self.sets@.dom() =~= old(self).sets@.dom().insert(id));
    }
}

impl EdgeStore for NeighborSets {
    closed spec fn wf(&self) -> bool {
        &&& links_of(self.sets@).finite()
        &&& self.total == links_of(self.sets@).len()
        &&& forall|k: usize| #[trigger] self.sets@.contains_key(k) ==> k <= self.last
        &&& forall|k: usize, t: usize|
            self.sets@.contains_key(k) && #[trigger] self.sets@[k]@.contains(t)
                ==> self.sets@.contains_key(t)
    }

    closed spec fn ids(&self) -> Set<usize> {
        self.sets@.dom()
    }

    closed spec fn links(&self) -> Set<(usize, usize)> {
        links_of(self.sets@)
    }

    closed spec fn span(&self) -> nat {
        self.last as nat
    }

    open spec fn dense() -> bool {
        false
    }

    proof fn lemma_wf(&self) {
    }

    fn is_dense() -> (b: bool) {
        false
    }

    fn id_list(&self) -> (r: Vec<usize>) {
        keys_of(&self.sets)
    }

    fn empty() -> (s: Self) {
        let s = NeighborSets { sets: HashMap::new(), total: 0, last: 0 };
        assert(links_of(s.sets@) =~= Set::<(usize, usize)>::empty());
        s
    }

    fn id_count(&self) -> (n: usize) {
        self.sets.len()
    }

    fn link_count(&self) -> (n: usize) {
        self.total
    }

    fn has_link(&self, f: usize, t: usize) -> (b: bool) {
        match self.sets.get(&f) {
            Some(s) => s.contains(&t),
            None => false,
        }
    }

    fn add_id(&mut self, id: usize) {
        self.sets.insert(id, HashSet::new());
        self.last = id;
        assert(links_of(self.sets@) =~= links_of(old(self).sets@));
    }

    fn add_link(&mut self, f: usize, t: usize) {
        let mut s = self.sets.remove(&f).unwrap();
        s.insert(t);
        self.sets.insert(f, s);
        self.total += 1;
        assert(self.sets@.dom() =~= old(self).sets@.dom());
        assert(links_of(self.sets@) =~= links_of(old(self).sets@).insert((f, t)));
    }

    fn remove_link(&mut self, f: usize, t: usize) {
        let mut s = self.sets.remove(&f).unwrap();
        s.remove(&t);
        self.sets.insert(f, s);
        self.total -= 1;
        assert(self.sets@.dom() =~= old(self).sets@.dom());
        assert(links_of(self.sets@) =~= links_of(old(self).sets@).remove((f, t)));
    }

    fn remove_id(&mut self, id: usize) {
        let ghost links0 = links_of(self.sets@);
        let out = self.sets.remove(&id).unwrap();
        proof {
            lemma_without_source_len(links0, id);
            assert(successors(links0, id) =~= out@);
            assert(links_of(self.sets@) =~= without_source(links0, id));
        }
        self.total -= out.len();
        let keys = keys_of(&self.sets);
        let ghost sets1 = self.sets@;
        let mut i: usize = 0;
        while i < keys.len()
            invariant
                i <= keys@.len(),
                keys@.no_duplicates(),
                keys@.to_set() == sets1.dom(),
                self.last == old(self).last,
                self.sets@.dom() == sets1.dom(),
                sets1.dom() == old(self).sets@.dom().remove(id),
                forall|j: int|
                    0 <= j < i ==> (#[trigger] self.sets@[keys@[j]])@ == sets1[keys@[j]]@.remove(id),
                forall|j: int| i <= j < keys@.len() ==> #[trigger] self.sets@[keys@[j]] == sets1[keys@[j]],
                forall|k: usize| #[trigger] sets1.contains_key(k) ==> sets1[k] == old(self).sets@[k],
                links_of(self.sets@).finite(),
                self.total == links_of(self.sets@).len(),
            decreases keys@.len() - i,
        {
            let k = keys[i];
            assert(keys@.to_set().contains(k));
            let ghost before = self.sets@;
            let mut s = self.sets.remove(&k).unwrap();
            if s.remove(&id) {
                assert(links_of(before).contains((k, id)));
                self.total -= 1;
            }
            self.sets.insert(k, s);
            proof {
                assert(self.sets@.dom() =~= sets1.dom());
                assert(links_of(self.sets@) =~= links_of(before).remove((k, id)));
                assert forall|j: int| 0 <= j < i + 1 implies (
                #[trigger] self.sets@[keys@[j]])@ == sets1[keys@[j]]@.remove(id) by {
                    if j < i {
                        assert(keys@[j] != keys@[i as int]);
                        assert(self.sets@[keys@[j]] == before[keys@[j]]);
                    }
                }
                assert forall|j: int| i + 1 <= j < keys@.len() implies #[trigger] self.sets@[keys@[j]]
                    == sets1[keys@[j]] by {
                    assert(keys@[j] != keys@[i as int]);
                    assert(self.sets@[keys@[j]] == before[keys@[j]]);
                }
            }
            i += 1;
        }
        proof {
            assert(links_of(self.sets@) =~= without(links_of(old(self).sets@), id)) by {
                assert forall|p: (usize, usize)| #[trigger]
                    links_of(self.sets@).contains(p) <==> without(
                        links_of(old(self).sets@),
                        id,
                    ).contains(p) by {
                    if sets1.contains_key(p.0) {
                        assert(keys@.to_set().contains(p.0));
                        let j = choose|j: int| 0 <= j < keys@.len() && keys@[j] == p.0;
                        assert(self.sets@[keys@[j]]@ == sets1[keys@[j]]@.remove(id));
                    }
                }
            }
            assert forall|k: usize, t: usize|
                self.sets@.contains_key(k) && #[trigger] self.sets@[k]@.contains(
                    t,
                ) implies self.sets@.contains_key(t) by {
                assert(links_of(self.sets@).contains((k, t)));
                assert(old(self).sets@[k]@.contains(t));
            }
        }
    }

    fn neighbors(&self, id: usize) -> (r: Vec<usize>) {
        let r = members(self.sets.get(&id).unwrap());
        assert(r@.to_set() =~= successors(links_of(self.sets@), id));
        r
    }
}

} // verus!
