//! The priority queue of the shortest-path search: a binary heap of nodes
//! with the distances they were queued with.

use vstd::multiset::Multiset;
use vstd::prelude::*;

verus! {

/// A queue entry: a node together with the distance it was queued with.
#[derive(Clone, Copy)]
pub struct NodeWithDist {
    pub node: usize,
    pub dist: usize,
}

impl NodeWithDist {
    /// The order in which entries leave the queue: ascending by distance, and
    /// among equal distances the larger node first.
    pub open spec fn precedes(self, other: Self) -> bool {
        self.dist < other.dist || (self.dist == other.dist && self.node >= other.node)
    }

    /// Whether this entry precedes `other`.
    pub fn leaves_before(&self, other: &Self) -> (b: bool)
        ensures
            b == self.precedes(*other),
    {
        self.dist < other.dist || (self.dist == other.dist && self.node >= other.node)
    }
}

/// The position above `i` in the heap.
pub open spec fn parent(i: int) -> int {
    (i - 1) / 2
}

/// Every entry but the first is preceded by the entry above it.
pub open spec fn heap_ordered(items: Seq<NodeWithDist>) -> bool {
    forall|k: int| 0 < k < items.len() ==> items[parent(k)].precedes(#[trigger] items[k])
}

/// The first entry of a heap precedes every entry.
proof fn lemma_first_precedes_all(items: Seq<NodeWithDist>, k: int)
    requires
        heap_ordered(items),
        0 <= k < items.len(),
    ensures
        items[0].precedes(items[k]),
    decreases k,
{
    if k > 0 {
        lemma_first_precedes_all(items, parent(k));
        assert(items[parent(k)].precedes(items[k]));
    }
}

/// Exchanging two entries changes nothing about which entries there are.
proof fn lemma_swap_keeps_entries(items: Seq<NodeWithDist>, i: int, j: int)
    requires
        0 <= i < items.len(),
        0 <= j < items.len(),
    ensures
        items.update(i, items[j]).update(j, items[i]).to_multiset() == items.to_multiset(),
{
    broadcast use vstd::multiset::group_multiset_properties;

    let once = items.update(i, items[j]);
    vstd::seq_lib::to_multiset_update(items, i, items[j]);
    vstd::seq_lib::to_multiset_update(once, j, items[i]);
    vstd::seq_lib::to_multiset_contains(items, items[i]);
    vstd::seq_lib::to_multiset_contains(items, items[j]);
    assert(items.contains(items[i]));
    assert(items.contains(items[j]));
    let m = items.to_multiset();
    let twice = once.update(j, items[i]).to_multiset();
    assert(once[j] == if i == j { items[j] } else { items[j] });
    assert(twice =~= m);
}

/// A priority queue: the entry that leaves next is one that precedes all
/// others.
pub struct MinQueue {
    items: Vec<NodeWithDist>,
}

impl MinQueue {
    /// The entries waiting in the queue.
    pub closed spec fn view(&self) -> Multiset<NodeWithDist> {
        self.items@.to_multiset()
    }

    /// The heap order of the entries.
    pub closed spec fn wf(&self) -> bool {
        heap_ordered(self.items@)
    }

    /// An empty queue.
    pub fn new() -> (q: Self)
        ensures
            q.wf(),
            q@ == Multiset::<NodeWithDist>::empty(),
    {
        let q = MinQueue { items: Vec::new() };
        proof {
            broadcast use vstd::multiset::group_multiset_properties;

            q.items@.to_multiset_ensures();
            assert(q@ =~= Multiset::<NodeWithDist>::empty());
        }
        q
    }

    /// The number of entries waiting.
    pub fn len(&self) -> (n: usize)
        ensures
            n == self@.len(),
    {
        proof {
            vstd::seq_lib::to_multiset_len(self.items@);
        }
        self.items.len()
    }

    /// Exchanges the entries at `i` and `j`.
    fn swap(&mut self, i: usize, j: usize)
        requires
            i < old(self).items@.len(),
            j < old(self).items@.len(),
        ensures
            final(self).items@ == old(self).items@.update(i as int, old(self).items@[j as int]).update(
                j as int,
                old(self).items@[i as int],
            ),
            final(self)@ == old(self)@,
    {
        let a = self.items[i];
        let b = self.items[j];
        self.items[i] = b;
        self.items[j] = a;
        proof {
            lemma_swap_keeps_entries(old(self).items@, i as int, j as int);
        }
    }

    /// Adds an entry to the queue.
    pub fn push(&mut self, e: NodeWithDist)
        requires
            old(self).wf(),
        ensures
            final(self).wf(),
            final(self)@ == old(self)@.insert(e),
    {
        self.items.push(e);
        proof {
            vstd::seq_lib::to_multiset_build(old(self).items@, e);
        }
        let mut i: usize = self.items.len() - 1;
        while i > 0
            invariant
                i < self.items@.len(),
                self@ == old(self)@.insert(e),
                forall|k: int|
                    0 < k < self.items@.len() && k != i ==> self.items@[parent(k)].precedes(
                        #[trigger] self.items@[k],
                    ),
                forall|k: int|
                    0 < k < self.items@.len() && parent(k) == i && i > 0 ==> self.items@[parent(
                        i as int,
                    )].precedes(#[trigger] self.items@[k]),
            ensures
                heap_ordered(self.items@),
            decreases i,
        {
            let up: usize = (i - 1) / 2;
            if self.items[up].leaves_before(&self.items[i]) {
                break ;
            }
            let ghost before = self.items@;
            self.swap(up, i);
            proof {
                assert forall|k: int| 0 < k < self.items@.len() && k != up implies self.items@[parent(
                    k,
                )].precedes(#[trigger] self.items@[k]) by {
                    if k == i {
                    } else if parent(k) == i {
                        assert(before[parent(i as int)].precedes(before[k]));
                    } else if parent(k) == up {
                        assert(before[parent(k)].precedes(before[k]));
                    } else {
                        assert(before[parent(k)].precedes(before[k]));
                    }
                }
                assert forall|k: int|
                    0 < k < self.items@.len() && parent(k) == up && up > 0 implies self.items@[parent(
                    up as int,
                )].precedes(#[trigger] self.items@[k]) by {
                    assert(before[parent(up as int)].precedes(before[up as int]));
                    if k != i {
                        assert(before[parent(k)].precedes(before[k]));
                    }
                }
            }
            i = up;
        }
    }

    /// Takes an entry that precedes all others out of the queue; `None` if
    /// the queue is empty.
    pub fn pop(&mut self) -> (r: Option<NodeWithDist>)
        requires
            old(self).wf(),
        ensures
            final(self).wf(),
            match r {
                None => old(self)@.len() == 0 && final(self)@ == old(self)@,
                Some(e) => {
                    &&& old(self)@.contains(e)
                    &&& final(self)@ == old(self)@.remove(e)
                    &&& forall|x: NodeWithDist| #[trigger] old(self)@.contains(x) ==> e.precedes(x)
                },
            },
    {
        proof {
            vstd::seq_lib::to_multiset_len(self.items@);
        }
        let last = match self.items.pop() {
            Some(last) => last,
            None => {
                return None;
            },
        };
        let ghost items0 = old(self).items@;
        proof {
            assert forall|x: NodeWithDist| #[trigger] old(self)@.contains(x) implies items0[0].precedes(
                x,
            ) by {
                vstd::seq_lib::to_multiset_contains(items0, x);
                let k = choose|k: int| 0 <= k < items0.len() && items0[k] == x;
                lemma_first_precedes_all(items0, k);
            }
            vstd::seq_lib::to_multiset_contains(items0, items0[0]);
            assert(items0.contains(items0[0]));
            assert(self.items@ =~= items0.remove(items0.len() - 1));
            vstd::seq_lib::to_multiset_remove(items0, items0.len() - 1);
        }
        if self.items.len() == 0 {
            assert(items0[0] == last);
            return Some(last);
        }
        let first = self.items[0];
        self.items[0] = last;
        proof {
            broadcast use vstd::multiset::group_multiset_properties;

            let shorter = items0.remove(items0.len() - 1);
            vstd::seq_lib::to_multiset_update(shorter, 0, last);
            vstd::seq_lib::to_multiset_contains(items0, last);
            assert(items0.contains(last)) by {
                assert(items0[items0.len() - 1] == last);
            }
            assert(self@ =~= old(self)@.remove(first));
        }
        let n = self.items.len();
        let mut i: usize = 0;
        loop
            invariant
                n == self.items@.len(),
                i < n,
                self@ == old(self)@.remove(first),
                forall|k: int|
                    0 < k < n && parent(k) != i ==> self.items@[parent(k)].precedes(
                        #[trigger] self.items@[k],
                    ),
                forall|k: int|
                    0 < k < n && parent(k) == i && i > 0 ==> self.items@[parent(i as int)].precedes(
                        #[trigger] self.items@[k],
                    ),
            ensures
                heap_ordered(self.items@),
            decreases n - i,
        {
            if n < 2 || i > (n - 2) / 2 {
                break ;
            }
            let left: usize = 2 * i + 1;
            let right: usize = left + 1;
            let mut least: usize = i;
            if !self.items[least].leaves_before(&self.items[left]) {
                least = left;
            }
            if right < n && !self.items[least].leaves_before(&self.items[right]) {
                least = right;
            }
            if least == i {
                proof {
                    assert forall|k: int| 0 < k < n implies self.items@[parent(k)].precedes(
                        #[trigger] self.items@[k],
                    ) by {
                        if parent(k) == i {
                            assert(k == left || k == right);
                        }
                    }
                }
                break ;
            }
            let ghost before = self.items@;
            self.swap(i, least);
            proof {
                assert forall|k: int| 0 < k < n && parent(k) != least implies self.items@[parent(
                    k,
                )].precedes(#[trigger] self.items@[k]) by {
                    if parent(k) == i {
                        assert(k == left || k == right);
                    } else if k == i {
                        assert(before[parent(i as int)].precedes(before[least as int]));
                    } else {
                        assert(before[parent(k)].precedes(before[k]));
                    }
                }
                assert forall|k: int|
                    0 < k < n && parent(k) == least && least > 0 implies self.items@[parent(
                    least as int,
                )].precedes(#[trigger] self.items@[k]) by {
                    assert(before[parent(k)].precedes(before[k]));
                }
            }
            i = least;
        }
        Some(first)
    }
}

} // verus!
