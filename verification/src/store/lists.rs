//! An edge store that keeps one list of neighbours per identifier, in a
//! vector indexed by identifier.

use vstd::prelude::*;
use crate::relation::{lemma_without_source_len, successors, without, without_source};
use crate::store::EdgeStore;

verus! {

/// The identifiers whose slot holds a list.
pub open spec fn ids_of(lists: Seq<Option<Vec<usize>>>) -> Set<usize> {
    Set::new(|id: usize| 1 <= id <= lists.len() && lists[id - 1] is Some)
}

/// The links that the lists spell out.
pub open spec fn links_of(lists: Seq<Option<Vec<usize>>>) -> Set<(usize, usize)> {
    Set::new(
        |p: (usize, usize)|
            1 <= p.0 <= lists.len() && lists[p.0 - 1] is Some && lists[p.0 - 1]->0@.contains(p.1),
    )
}

/// The list in slot `i`, if there is one, names no neighbour twice.
pub open spec fn distinct_at(lists: Seq<Option<Vec<usize>>>, i: int) -> bool {
    lists[i] is Some ==> lists[i]->0@.no_duplicates()
}

/// No list names a neighbour twice.
pub open spec fn each_distinct(lists: Seq<Option<Vec<usize>>>) -> bool {
    forall|i: int| 0 <= i < lists.len() ==> #[trigger] distinct_at(lists, i)
}

/// The first position at which `x` stands in `l`.
pub fn position(l: &Vec<usize>, x: usize) -> (r: Option<usize>)
    ensures
        match r {
            Some(i) => i < l@.len() && l@[i as int] == x,
            None => !l@.contains(x),
        },
{
    let mut i: usize = 0;
    while i < l.len()
        invariant
            i <= l@.len(),
            forall|j: int| 0 <= j < i ==> l@[j] != x,
        decreases l@.len() - i,
    {
        if l[i] == x {
            return Some(i);
        }
        i += 1;
    }
    None
}

/// A copy of `l`.
pub fn copy_of(l: &Vec<usize>) -> (r: Vec<usize>)
    ensures
        r@ == l@,
{
    let mut r: Vec<usize> = Vec::new();
    let mut i: usize = 0;
    while i < l.len()
        invariant
            i <= l@.len(),
            r@ == l@.take(i as int),
        decreases l@.len() - i,
    {
        r.push(l[i]);
        assert(l@.take(i + 1) =~= l@.take(i as int).push(l@[i as int]));
        i += 1;
    }
    assert(l@.take(l@.len() as int) =~= l@);
    r
}

/// One list of neighbours per identifier in use; the slot of a retired
/// identifier stays empty.
pub struct NeighborLists {
    lists: Vec<Option<Vec<usize>>>,
    live: usize,
    total: usize,
}

impl NeighborLists {
    /// Removes `id` from the list in slot `at`, if the slot holds a list and
    /// the list holds `id`.
    fn unlink_at(&mut self, at: usize, id: usize)
        requires
            at < old(self).lists@.len(),
            links_of(old(self).lists@).finite(),
            old(self).total == links_of(old(self).lists@).len(),
            each_distinct(old(self).lists@),
        ensures
            final(self).live == old(self).live,
            final(self).lists@.len() == old(self).lists@.len(),
            forall|i: int|
                0 <= i < old(self).lists@.len() && i != at ==> #[trigger] final(self).lists@[i]
                    == old(self).lists@[i],
            final(self).lists@[at as int] is Some == old(self).lists@[at as int] is Some,
            old(self).lists@[at as int] is Some ==> {
                &&& final(self).lists@[at as int]->0@.no_duplicates()
                &&& final(self).lists@[at as int]->0@.to_set() == old(
                    self,
                ).lists@[at as int]->0@.to_set().remove(id)
            },
            links_of(final(self).lists@) == links_of(old(self).lists@).remove(((at + 1) as usize, id)),
            links_of(final(self).lists@).finite(),
            final(self).total == links_of(final(self).lists@).len(),
    {
        assert(self.lists@.len() == self.lists.len());
        assert(distinct_at(self.lists@, at as int));
        let slot = self.lists[at].take();
        match slot {
            None => {
                assert(self.lists@ =~= old(self).lists@);
                assert(links_of(self.lists@) =~= links_of(old(self).lists@).remove(
                    ((at + 1) as usize, id),
                ));
            },
            Some(mut l) => {
                let ghost l0 = l@;
                match position(&l, id) {
                    Some(i) => {
                        l.remove(i);
                        assert(links_of(old(self).lists@).contains(((at + 1) as usize, id)));
                        self.total -= 1;
                        proof {
                            assert forall|x: usize| l@.contains(x) <==> (l0.contains(x) && x
                                != id) by {
                                if l@.contains(x) {
                                    let j = choose|j: int| 0 <= j < l@.len() && l@[j] == x;
                                    if j < i {
                                        assert(l0[j] == x);
                                    } else {
                                        assert(l0[j + 1] == x);
                                    }
                                }
                                if l0.contains(x) && x != id {
                                    let j = choose|j: int| 0 <= j < l0.len() && l0[j] == x;
                                    if j < i {
                                        assert(l@[j] == x);
                                    } else {
                                        assert(l@[j - 1] == x);
                                    }
                                }
                            }
                            assert(l@.no_duplicates()) by {
                                assert forall|a: int, b: int|
                                    0 <= a < l@.len() && 0 <= b < l@.len() && a != b implies l@[a]
                                    != l@[b] by {
                                    let a0 = if a < i { a } else { a + 1 };
                                    let b0 = if b < i { b } else { b + 1 };
                                    assert(l0[a0] != l0[b0]);
                                }
                            }
                        }
                    },
                    None => {},
                }
                let ghost l1 = l@;
                self.lists[at] = Some(l);
                proof {
                    assert(l1.to_set() =~= l0.to_set().remove(id));
                    assert(links_of(self.lists@) =~= links_of(old(self).lists@).remove(
                        ((at + 1) as usize, id),
                    )) by {
                        assert forall|p: (usize, usize)| #[trigger]
                            links_of(self.lists@).contains(p) <==> links_of(
                                old(self).lists@,
                            ).remove(((at + 1) as usize, id)).contains(p) by {
                            if 1 <= p.0 <= self.lists@.len() && p.0 != at + 1 {
                                assert(self.lists@[p.0 - 1] == old(self).lists@[p.0 - 1]);
                            }
                            if p.0 == at + 1 {
                                assert(l1.contains(p.1) <==> l1.to_set().contains(p.1));
                                assert(l0.contains(p.1) <==> l0.to_set().contains(p.1));
                            }
                        }
                    }
                }
            },
        }
    }
}

impl EdgeStore for NeighborLists {
    closed spec fn wf(&self) -> bool {
        &&& ids_of(self.lists@).finite()
        &&& self.live == ids_of(self.lists@).len()
        &&& links_of(self.lists@).finite()
        &&& self.total == links_of(self.lists@).len()
        &&& each_distinct(self.lists@)
        &&& forall|a: usize, b: usize| #[trigger]
            links_of(self.lists@).contains((a, b)) ==> ids_of(self.lists@).contains(b)
    }

    closed spec fn ids(&self) -> Set<usize> {
        ids_of(self.lists@)
    }

    closed spec fn links(&self) -> Set<(usize, usize)> {
        links_of(self.lists@)
    }

    closed spec fn span(&self) -> nat {
        self.lists@.len()
    }

    open spec fn dense() -> bool {
        false
    }

    proof fn lemma_wf(&self) {
        assert(self.lists@.len() == self.lists.len());
    }

    fn is_dense() -> (b: bool) {
        false
    }

    fn id_list(&self) -> (r: Vec<usize>) {
        let mut r: Vec<usize> = Vec::new();
        let mut i: usize = 0;
        while i < self.lists.len()
            invariant
                i <= self.lists@.len(),
                forall|k: int|
                    0 <= k < r@.len() ==> 1 <= (#[trigger] r@[k]) <= i && self.lists@[r@[k] - 1] is Some,
                forall|k: int, l: int| 0 <= k < l < r@.len() ==> r@[k] < r@[l],
                forall|id: usize|
                    1 <= id <= i && self.lists@[id - 1] is Some ==> #[trigger] r@.contains(id),
            decreases self.lists@.len() - i,
        {
            if self.lists[i].is_some() {
                let ghost before = r@;
                r.push(i + 1);
                proof {
                    assert(r@[before.len() as int] == i + 1);
                    assert forall|id: usize|
                        1 <= id <= i + 1 && self.lists@[id - 1] is Some implies #[trigger] r@.contains(
                        id,
                    ) by {
                        if id <= i {
                            assert(before.contains(id));
                            let k = choose|k: int| 0 <= k < before.len() && before[k] == id;
                            assert(r@[k] == id);
                        }
                    }
                }
            }
            i += 1;
        }
        proof {
            assert(r@.to_set() =~= ids_of(self.lists@)) by {
                assert forall|id: usize| ids_of(self.lists@).contains(id) implies r@.to_set().contains(
                    id,
                ) by {
                    assert(r@.contains(id));
                }
            }
        }
        r
    }

    fn empty() -> (s: Self) {
        let s = NeighborLists { lists: Vec::new(), live: 0, total: 0 };
        assert(links_of(s.lists@) =~= Set::<(usize, usize)>::empty());
        assert(ids_of(s.lists@) =~= Set::<usize>::empty());
        s
    }

    fn id_count(&self) -> (n: usize) {
        self.live
    }

    fn link_count(&self) -> (n: usize) {
        self.total
    }

    fn has_link(&self, f: usize, t: usize) -> (b: bool) {
        if f == 0 || f > self.lists.len() {
            return false;
        }
        match &self.lists[f - 1] {
            Some(l) => position(l, t).is_some(),
            None => false,
        }
    }

    fn add_id(&mut self, id: usize) {
        self.lists.push(Some(Vec::new()));
        proof {
            assert(ids_of(self.lists@) =~= ids_of(old(self).lists@).insert(id)) by {
                assert forall|k: usize| #[trigger]
                    ids_of(self.lists@).contains(k) <==> ids_of(old(self).lists@).insert(
                        id,
                    ).contains(k) by {
                    if 1 <= k < id {
                        assert(self.lists@[k - 1] == old(self).lists@[k - 1]);
                    }
                }
            }
            assert(links_of(self.lists@) =~= links_of(old(self).lists@)) by {
                assert forall|p: (usize, usize)| #[trigger]
                    links_of(self.lists@).contains(p) <==> links_of(old(self).lists@).contains(
                        p,
                    ) by {
                    if 1 <= p.0 < id {
                        assert(self.lists@[p.0 - 1] == old(self).lists@[p.0 - 1]);
                    }
                }
            }
            assert forall|i: int| 0 <= i < self.lists@.len() implies #[trigger] distinct_at(
                self.lists@,
                i,
            ) by {
                if i < id - 1 {
                    assert(distinct_at(old(self).lists@, i));
                }
            }
        }
        assert(self.live < usize::MAX) by {
            self.lemma_bounded();
        }
        self.live += 1;
    }

    fn add_link(&mut self, f: usize, t: usize) {
        let mut l = self.lists[f - 1].take().unwrap();
        let ghost l0 = l@;
        l.push(t);
        let ghost l1 = l@;
        self.lists[f - 1] = Some(l);
        self.total += 1;
        proof {
            assert(ids_of(self.lists@) =~= ids_of(old(self).lists@)) by {
                assert forall|k: usize| #[trigger]
                    ids_of(self.lists@).contains(k) <==> ids_of(old(self).lists@).contains(
                        k,
                    ) by {
                    if 1 <= k <= self.lists@.len() && k != f {
                        assert(self.lists@[k - 1] == old(self).lists@[k - 1]);
                    }
                }
            }
            assert(!l0.contains(t)) by {
                if l0.contains(t) {
                    assert(links_of(old(self).lists@).contains((f, t)));
                }
            }
            assert(links_of(self.lists@) =~= links_of(old(self).lists@).insert((f, t))) by {
                assert forall|p: (usize, usize)| #[trigger]
                    links_of(self.lists@).contains(p) <==> links_of(old(self).lists@).insert(
                        (f, t),
                    ).contains(p) by {
                    if 1 <= p.0 <= self.lists@.len() && p.0 != f {
                        assert(self.lists@[p.0 - 1] == old(self).lists@[p.0 - 1]);
                    }
                    if p.0 == f {
                        if l1.contains(p.1) {
                            let j = choose|j: int| 0 <= j < l1.len() && l1[j] == p.1;
                            if j < l0.len() {
                                assert(l0[j] == p.1);
                            }
                        }
                        if l0.contains(p.1) {
                            let j = choose|j: int| 0 <= j < l0.len() && l0[j] == p.1;
                            assert(l1[j] == p.1);
                        }
                        if p.1 == t {
                            assert(l1[l0.len() as int] == t);
                        }
                    }
                }
            }
            assert forall|i: int| 0 <= i < self.lists@.len() implies #[trigger] distinct_at(
                self.lists@,
                i,
            ) by {
                assert(distinct_at(old(self).lists@, i));
            }
        }
    }

    fn remove_link(&mut self, f: usize, t: usize) {
        let ghost ids0 = ids_of(self.lists@);
        self.unlink_at(f - 1, t);
        proof {
            assert(ids_of(self.lists@) =~= ids0) by {
                assert forall|k: usize| #[trigger] ids_of(self.lists@).contains(k) <==> ids0.contains(
                    k,
                ) by {
                    if 1 <= k <= self.lists@.len() && k != f {
                        assert(self.lists@[k - 1] == old(self).lists@[k - 1]);
                    }
                }
            }
            assert forall|i: int| 0 <= i < self.lists@.len() implies #[trigger] distinct_at(
                self.lists@,
                i,
            ) by {
                assert(distinct_at(old(self).lists@, i));
            }
        }
    }

    fn remove_id(&mut self, id: usize) {
        let ghost links0 = links_of(self.lists@);
        let ghost ids0 = ids_of(self.lists@);
        assert(distinct_at(self.lists@, id - 1));
        let out = self.lists[id - 1].take().unwrap();
        proof {
            lemma_without_source_len(links0, id);
            assert(successors(links0, id) =~= out@.to_set());
            out@.unique_seq_to_set();
            assert(links_of(self.lists@) =~= without_source(links0, id)) by {
                assert forall|p: (usize, usize)| #[trigger]
                    links_of(self.lists@).contains(p) <==> without_source(links0, id).contains(
                        p,
                    ) by {
                    if 1 <= p.0 <= self.lists@.len() && p.0 != id {
                        assert(self.lists@[p.0 - 1] == old(self).lists@[p.0 - 1]);
                    }
                }
            }
            assert(ids_of(self.lists@) =~= ids0.remove(id)) by {
                assert forall|k: usize| #[trigger]
                    ids_of(self.lists@).contains(k) <==> ids0.remove(id).contains(k) by {
                    if 1 <= k <= self.lists@.len() && k != id {
                        assert(self.lists@[k - 1] == old(self).lists@[k - 1]);
                    }
                }
            }
        }
        self.total -= out.len();
        self.live -= 1;
        let ghost lists1 = self.lists@;
        proof {
            assert forall|j: int| 0 <= j < lists1.len() implies #[trigger] distinct_at(
                lists1,
                j,
            ) by {
                assert(distinct_at(old(self).lists@, j));
            }
        }
        let mut i: usize = 0;
        while i < self.lists.len()
            invariant
                i <= self.lists@.len(),
                self.lists@.len() == lists1.len(),
                self.live == ids0.len() - 1,
                forall|j: int|
                    0 <= j < lists1.len() ==> (#[trigger] self.lists@[j]) is Some == lists1[j] is Some,
                forall|j: int|
                    0 <= j < i && lists1[j] is Some ==> (#[trigger] self.lists@[j])->0@.to_set()
                        == lists1[j]->0@.to_set().remove(id),
                forall|j: int| i <= j < lists1.len() ==> #[trigger] self.lists@[j] == lists1[j],
                each_distinct(self.lists@),
                links_of(self.lists@).finite(),
                self.total == links_of(self.lists@).len(),
            decreases self.lists@.len() - i,
        {
            let ghost before = self.lists@;
            self.unlink_at(i, id);
            proof {
                assert forall|j: int| 0 <= j < i + 1 && lists1[j] is Some implies (
                #[trigger] self.lists@[j])->0@.to_set() == lists1[j]->0@.to_set().remove(id) by {
                    if j < i {
                        assert(self.lists@[j] == before[j]);
                    }
                }
                assert forall|j: int| 0 <= j < self.lists@.len() implies #[trigger] distinct_at(
                    self.lists@,
                    j,
                ) by {
                    assert(distinct_at(before, j));
                }
            }
            i += 1;
        }
        proof {
            assert(ids_of(self.lists@) =~= ids0.remove(id)) by {
                assert forall|k: usize| #[trigger]
                    ids_of(self.lists@).contains(k) <==> ids_of(lists1).contains(k) by {
                    if 1 <= k <= lists1.len() {
                        assert(self.lists@[k - 1] is Some == lists1[k - 1] is Some);
                    }
                }
            }
            assert(links_of(self.lists@) =~= without(links0, id)) by {
                assert forall|p: (usize, usize)| #[trigger]
                    links_of(self.lists@).contains(p) <==> without(links0, id).contains(p) by {
                    if 1 <= p.0 <= lists1.len() && lists1[p.0 - 1] is Some {
                        let j = p.0 - 1;
                        assert(self.lists@[j]->0@.to_set() == lists1[j]->0@.to_set().remove(id));
                        assert(self.lists@[j]->0@.contains(p.1) <==> self.lists@[j]->0@.to_set().contains(
                            p.1,
                        ));
                        assert(lists1[j]->0@.contains(p.1) <==> lists1[j]->0@.to_set().contains(p.1));
                        assert(links_of(lists1).contains(p) <==> lists1[j]->0@.contains(p.1));
                    }
                }
            }
            assert forall|a: usize, b: usize| #[trigger]
                links_of(self.lists@).contains((a, b)) implies ids_of(self.lists@).contains(b) by {
                assert(links0.contains((a, b)));
            }
        }
    }

    fn neighbors(&self, id: usize) -> (r: Vec<usize>) {
        assert(distinct_at(self.lists@, id - 1));
        match &self.lists[id - 1] {
            Some(l) => {
                let r = copy_of(l);
                assert(r@.to_set() =~= successors(links_of(self.lists@), id));
                r
            },
            None => Vec::new(),
        }
    }
}

impl NeighborLists {
    /// No more identifiers are in use than slots exist.
    proof fn lemma_bounded(&self)
        requires
            ids_of(self.lists@).finite(),
        ensures
            ids_of(self.lists@).len() <= self.lists@.len(),
            self.lists@.len() <= usize::MAX,
    {
        assert(self.lists@.len() == self.lists.len());
        crate::store::lemma_range_len(self.lists@.len());
        vstd::set_lib::lemma_len_subset(ids_of(self.lists@), crate::store::id_range(self.lists@.len()));
    }
}

} // verus!
