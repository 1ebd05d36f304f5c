//! The identifier registry: a two-way correspondence between node objects
//! and the positive integers that stand for them.

use vstd::laws_eq::obeys_concrete_eq;
use vstd::prelude::*;

verus! {

/// What a compacting removal of `id` leaves of `m`: the entry at `id` is gone
/// and every entry above it has moved down by one.
pub open spec fn compacted<N>(m: Map<usize, N>, id: usize) -> Map<usize, N> {
    Map::new(
        |k: usize|
            if k < id {
                m.contains_key(k)
            } else {
                k < usize::MAX && m.contains_key((k + 1) as usize)
            },
        |k: usize|
            if k < id {
                m[k]
            } else {
                m[(k + 1) as usize]
            },
    )
}

/// Whether `obj` is registered in `m` under some identifier.
pub open spec fn holds<N>(m: Map<usize, N>, obj: N) -> bool {
    exists|id: usize| m.contains_key(id) && m[id] == obj
}

/// A registry of objects under integer identifiers.
///
/// Identifiers start at 1 and grow with every insertion. A sparse registry
/// never hands an identifier out twice; a compacting one closes the gap that
/// a removal leaves by moving every larger identifier down by one.
pub struct DoubleMapping<N> {
    from_index: Vec<Option<N>>,
    autodecrement: bool,
}

impl<N> DoubleMapping<N> {
    /// The live identifiers and the objects registered under them.
    pub closed spec fn view(&self) -> Map<usize, N> {
        Map::new(
            |id: usize| 1 <= id <= self.from_index@.len() && self.from_index@[id - 1] is Some,
            |id: usize| self.from_index@[id - 1]->0,
        )
    }

    /// The largest identifier in use or retired; the next insertion returns
    /// its successor.
    pub closed spec fn issued(&self) -> nat {
        self.from_index@.len()
    }

    /// Whether removals close the gap they leave.
    pub closed spec fn compacting(&self) -> bool {
        self.autodecrement
    }

    /// No object is registered twice, and a compacting registry has no gaps.
    pub closed spec fn wf(&self) -> bool {
        &&& forall|i: int, j: int|
            0 <= i < j < self.from_index@.len() && (#[trigger] self.from_index@[i]) is Some && (
            #[trigger] self.from_index@[j]) is Some ==> self.from_index@[i]->0
                != self.from_index@[j]->0
        &&& self.autodecrement ==> forall|i: int|
            0 <= i < self.from_index@.len() ==> (#[trigger] self.from_index@[i]) is Some
    }

    /// What well-formedness says of the view: identifiers lie in
    /// `1..=issued()`, distinct identifiers name distinct objects, and a
    /// compacting registry uses every identifier of that range.
    pub proof fn lemma_wf(&self)
        requires
            self.wf(),
        ensures
            self.issued() <= usize::MAX,
            self@.dom().finite(),
            self@.dom().len() <= self.issued(),
            forall|id: usize| #[trigger] self@.contains_key(id) ==> 1 <= id <= self.issued(),
            forall|a: usize, b: usize|
                #[trigger] self@.contains_key(a) && #[trigger] self@.contains_key(b) && a != b
                    ==> self@[a] != self@[b],
            self.compacting() ==> forall|id: usize|
                1 <= id <= self.issued() ==> #[trigger] self@.contains_key(id),
            self.compacting() ==> self@.dom().len() == self.issued(),
    {
        let n = self.from_index@.len() as int;
        assert(self.from_index.len() == n);
        let ints = vstd::set_lib::set_int_range(1, n + 1);
        vstd::set_lib::lemma_int_range(1, n + 1);
        let range = ints.map(|i: int| i as usize);
        vstd::set_lib::lemma_map_size_bound(ints, range, |i: int| i as usize);
        assert(self@.dom().subset_of(range)) by {
            assert forall|id: usize| self@.dom().contains(id) implies range.contains(id) by {
                assert(ints.contains(id as int));
            }
        }
        vstd::set_lib::lemma_len_subset(self@.dom(), range);
        assert forall|a: usize, b: usize|
            #[trigger] self@.contains_key(a) && #[trigger] self@.contains_key(b) && a
                != b implies self@[a] != self@[b] by {
            if a < b {
                assert(self.from_index@[a - 1] is Some && self.from_index@[b - 1] is Some);
            } else {
                assert(self.from_index@[b - 1] is Some && self.from_index@[a - 1] is Some);
            }
        }
        if self.compacting() {
            assert(self@.dom() =~= range) by {
                assert forall|id: usize| range.contains(id) implies self@.dom().contains(id) by {
                    let i = choose|i: int| ints.contains(i) && i as usize == id;
                    assert(self.from_index@[i - 1] is Some);
                }
            }
            assert(vstd::relations::injective_on(|i: int| i as usize, ints));
            vstd::set_lib::lemma_map_size(ints, range, |i: int| i as usize);
        }
    }
}

impl<N: Eq> DoubleMapping<N> {
    /// An empty registry; `autodecrement` chooses the compacting discipline.
    pub fn new(autodecrement: bool) -> (r: DoubleMapping<N>)
        ensures
            r.wf(),
            r@ == Map::<usize, N>::empty(),
            r.issued() == 0,
            r.compacting() == autodecrement,
    {
        let r = DoubleMapping { from_index: Vec::new(), autodecrement };
        assert(r@ =~= Map::<usize, N>::empty());
        r
    }

    /// Whether `id` names a registered object.
    pub fn contains_id(&self, id: usize) -> (b: bool)
        ensures
            b == self@.contains_key(id),
    {
        self.get_by_id(id).is_some()
    }

    /// Whether `obj` is registered.
    pub fn contains_obj(&self, obj: &N) -> (b: bool)
        requires
            obeys_concrete_eq::<N>(),
        ensures
            b == holds(self@, *obj),
    {
        self.get_by_obj(obj).is_some()
    }

    /// Registers `obj` under the next identifier, unless it is registered
    /// already.
    pub fn insert(&mut self, obj: N) -> (r: Option<usize>)
        requires
            old(self).wf(),
            obeys_concrete_eq::<N>(),
        ensures
            final(self).wf(),
            final(self).compacting() == old(self).compacting(),
            match r {
                Some(id) => {
                    &&& !holds(old(self)@, obj)
                    &&& id == old(self).issued() + 1
                    &&& final(self).issued() == id
                    &&& final(self)@ == old(self)@.insert(id, obj)
                },
                None => {
                    &&& holds(old(self)@, obj)
                    &&& final(self).issued() == old(self).issued()
                    &&& final(self)@ == old(self)@
                },
            },
    {
        match self.get_by_obj(&obj) {
            Some(_) => None,
            None => {
                self.from_index.push(Some(obj));
                let id = self.from_index.len();
                proof {
                    assert(final(self)@ =~= old(self)@.insert(id, obj)) by {
                        assert forall|k: usize| final(self)@.contains_key(k) implies old(
                            self,
                        )@.insert(id, obj).contains_key(k) by {
                            if k != id {
                                assert(self.from_index@[k - 1] == old(self).from_index@[k - 1]);
                            }
                        }
                        assert forall|k: usize| old(self)@.insert(id, obj).contains_key(
                            k,
                        ) implies final(self)@.contains_key(k) && final(self)@[k] == old(
                            self,
                        )@.insert(id, obj)[k] by {
                            if k != id {
                                assert(self.from_index@[k - 1] == old(self).from_index@[k - 1]);
                            }
                        }
                    }
                    assert forall|i: int, j: int|
                        0 <= i < j < self.from_index@.len() && (
                        #[trigger] self.from_index@[i]) is Some && (
                        #[trigger] self.from_index@[j]) is Some implies self.from_index@[i]->0
                        != self.from_index@[j]->0 by {
                        if j == id - 1 {
                            assert(old(self)@.contains_key((i + 1) as usize));
                            assert(old(self)@[(i + 1) as usize] == self.from_index@[i]->0);
                        } else {
                            assert(old(self).from_index@[i] is Some);
                            assert(old(self).from_index@[j] is Some);
                        }
                    }
                }
                Some(id)
            },
        }
    }

    /// Takes the object registered under `id` out of the registry.
    ///
    /// A sparse registry retires `id`; a compacting one moves every larger
    /// identifier down by one.
    pub fn remove(&mut self, id: usize) -> (r: Option<N>)
        requires
            old(self).wf(),
        ensures
            final(self).wf(),
            final(self).compacting() == old(self).compacting(),
            match r {
                Some(obj) => {
                    &&& old(self)@.contains_key(id)
                    &&& obj == old(self)@[id]
                    &&& final(self)@ == if old(self).compacting() {
                        compacted(old(self)@, id)
                    } else {
                        old(self)@.remove(id)
                    }
                    &&& final(self).issued() == if old(self).compacting() {
                        old(self).issued() - 1
                    } else {
                        old(self).issued() as int
                    }
                },
                None => {
                    &&& !old(self)@.contains_key(id)
                    &&& final(self).issued() == old(self).issued()
                    &&& final(self)@ == old(self)@
                },
            },
    {
        if !self.contains_id(id) {
            return None;
        }
        let at = id - 1;
        if self.autodecrement {
            let slot = self.from_index.remove(at);
            proof {
                assert(old(self).from_index@.len() == old(self).from_index.len());
                assert(self.from_index@.len() == old(self).from_index@.len() - 1);
                assert(final(self)@ =~= compacted(old(self)@, id)) by {
                    assert forall|k: usize| final(self)@.contains_key(k) implies compacted(
                        old(self)@,
                        id,
                    ).contains_key(k) by {
                        if k >= id {
                            assert(self.from_index@[k - 1] == old(self).from_index@[k as int]);
                        } else {
                            assert(self.from_index@[k - 1] == old(self).from_index@[k - 1]);
                        }
                    }
                    assert forall|k: usize| compacted(old(self)@, id).contains_key(
                        k,
                    ) implies final(self)@.contains_key(k) && final(self)@[k] == compacted(
                        old(self)@,
                        id,
                    )[k] by {
                        if k >= id {
                            assert(self.from_index@[k - 1] == old(self).from_index@[k as int]);
                        } else {
                            assert(self.from_index@[k - 1] == old(self).from_index@[k - 1]);
                        }
                    }
                }
                assert forall|i: int| 0 <= i < self.from_index@.len() implies (
                #[trigger] self.from_index@[i]) is Some by {
                    if i >= at {
                        assert(old(self).from_index@[i + 1] is Some);
                    } else {
                        assert(old(self).from_index@[i] is Some);
                    }
                }
                assert forall|i: int, j: int|
                    0 <= i < j < self.from_index@.len() && (
                    #[trigger] self.from_index@[i]) is Some && (
                    #[trigger] self.from_index@[j]) is Some implies self.from_index@[i]->0
                    != self.from_index@[j]->0 by {
                    let i0 = if i >= at { i + 1 } else { i };
                    let j0 = if j >= at { j + 1 } else { j };
                    assert(old(self).from_index@[i0] is Some);
                    assert(old(self).from_index@[j0] is Some);
                }
            }
            slot
        } else {
            let slot = self.from_index[at].take();
            proof {
                assert(self.from_index@ == old(self).from_index@.update(at as int, None));
                assert(final(self)@ =~= old(self)@.remove(id));
                assert forall|i: int, j: int|
                    0 <= i < j < self.from_index@.len() && (
                    #[trigger] self.from_index@[i]) is Some && (
                    #[trigger] self.from_index@[j]) is Some implies self.from_index@[i]->0
                    != self.from_index@[j]->0 by {
                    assert(old(self).from_index@[i] is Some);
                    assert(old(self).from_index@[j] is Some);
                }
            }
            slot
        }
    }

    /// The object registered under `id`.
    pub fn get_by_id(&self, id: usize) -> (r: Option<&N>)
        ensures
            match r {
                Some(obj) => self@.contains_key(id) && *obj == self@[id],
                None => !self@.contains_key(id),
            },
    {
        if id == 0 || id > self.from_index.len() {
            return None;
        }
        self.from_index[id - 1].as_ref()
    }

    /// The identifier under which `obj` is registered.
    pub fn get_by_obj(&self, obj: &N) -> (r: Option<usize>)
        requires
            obeys_concrete_eq::<N>(),
        ensures
            match r {
                Some(id) => self@.contains_key(id) && self@[id] == *obj,
                None => !holds(self@, *obj),
            },
    {
        let mut i: usize = 0;
        while i < self.from_index.len()
            invariant
                i <= self.from_index@.len(),
                obeys_concrete_eq::<N>(),
                forall|j: int|
                    0 <= j < i ==> (#[trigger] self.from_index@[j]) != Some(*obj),
            decreases self.from_index@.len() - i,
        {
            if let Some(held) = &self.from_index[i] {
                proof {
                    reveal(obeys_concrete_eq);
                }
                if *held == *obj {
                    return Some(i + 1);
                }
            }
            i += 1;
        }
        proof {
            if holds(self@, *obj) {
                let id = choose|id: usize| self@.contains_key(id) && self@[id] == *obj;
                assert(self.from_index@[id - 1] != Some(*obj));
            }
        }
        None
    }

    /// The registered objects, each once, in no particular order.
    pub fn iter_obj(&self) -> (r: Vec<&N>)
        requires
            self.wf(),
        ensures
            r@.unref().no_duplicates(),
            forall|obj: N| r@.unref().contains(obj) <==> holds(self@, obj),
            r@.len() == self@.dom().len(),
    {
        let mut r: Vec<&N> = Vec::new();
        let ghost mut ids: Seq<usize> = Seq::empty();
        let mut i: usize = 0;
        while i < self.from_index.len()
            invariant
                self.wf(),
                i <= self.from_index@.len(),
                r@.len() == ids.len(),
                forall|k: int|
                    0 <= k < ids.len() ==> 1 <= (#[trigger] ids[k]) <= i && self@.contains_key(
                        ids[k],
                    ) && *r@[k] == self@[ids[k]],
                forall|k: int, l: int| 0 <= k < l < ids.len() ==> ids[k] < ids[l],
                forall|id: usize|
                    1 <= id <= i && #[trigger] self@.contains_key(id) ==> ids.contains(id),
            decreases self.from_index@.len() - i,
        {
            if let Some(held) = &self.from_index[i] {
                r.push(held);
                proof {
                    let ghost before = ids;
                    ids = ids.push((i + 1) as usize);
                    assert forall|id: usize|
                        1 <= id <= i + 1 && #[trigger] self@.contains_key(id) implies ids.contains(
                        id,
                    ) by {
                        if id == i + 1 {
                            assert(ids[before.len() as int] == id);
                        } else {
                            let k = choose|k: int| 0 <= k < before.len() && before[k] == id;
                            assert(ids[k] == id);
                        }
                    }
                }
            }
            i += 1;
        }
        proof {
            self.lemma_wf();
            assert(ids.no_duplicates());
            assert(ids.to_set() =~= self@.dom()) by {
                assert forall|id: usize| self@.dom().contains(id) implies ids.to_set().contains(
                    id,
                ) by {
                    assert(self@.contains_key(id));
                }
            }
            ids.unique_seq_to_set();
            let objs = r@.unref();
            assert forall|k: int, l: int| 0 <= k < objs.len() && 0 <= l < objs.len() && k
                != l implies objs[k] != objs[l] by {
                assert(ids[k] != ids[l]);
                assert(self@.contains_key(ids[k]) && self@.contains_key(ids[l]));
            }
            assert forall|obj: N| objs.contains(obj) <==> holds(self@, obj) by {
                if objs.contains(obj) {
                    let k = choose|k: int| 0 <= k < objs.len() && objs[k] == obj;
                    assert(self@.contains_key(ids[k]) && self@[ids[k]] == obj);
                }
                if holds(self@, obj) {
                    let id = choose|id: usize| self@.contains_key(id) && self@[id] == obj;
                    let k = choose|k: int| 0 <= k < ids.len() && ids[k] == id;
                    assert(objs[k] == obj);
                }
            }
        }
        r
    }
}

impl<N: Eq> Default for DoubleMapping<N> {
    /// An empty sparse registry.
    fn default() -> (r: Self)
        ensures
            r.wf(),
            r@ == Map::<usize, N>::empty(),
            r.issued() == 0,
            !r.compacting(),
    {
        Self::new(false)
    }
}


} // verus!
