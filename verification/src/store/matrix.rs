//! An edge store that keeps a square grid of flags, one row and one column
//! per identifier, numbered without gaps.

use vstd::prelude::*;
use crate::relation::{successors, without};
use crate::store::{id_range, lemma_range_len, lemma_renumbered_len, lowered, renumbered, EdgeStore};

verus! {

/// The links that the raised flags of the grid spell out.
pub open spec fn links_of(cells: Seq<Vec<bool>>) -> Set<(usize, usize)> {
    Set::new(
        |p: (usize, usize)|
            1 <= p.0 <= cells.len() && 1 <= p.1 <= cells[p.0 - 1]@.len() && cells[p.0 - 1]@[p.1 - 1],
    )
}

/// Every row is as long as there are rows.
pub open spec fn square(cells: Seq<Vec<bool>>) -> bool {
    forall|i: int| 0 <= i < cells.len() ==> (#[trigger] cells[i])@.len() == cells.len()
}

/// A grid of flags: the flag in row `f - 1`, column `t - 1` says whether `f`
/// is linked to `t`.
pub struct Incidence {
    cells: Vec<Vec<bool>>,
    total: usize,
}

impl Incidence {
    /// Lowers the flag at row `r`, column `c`, if it is raised.
    fn lower(&mut self, r: usize, c: usize)
        requires
            r < old(self).cells@.len(),
            c < old(self).cells@[r as int]@.len(),
            links_of(old(self).cells@).finite(),
            old(self).total == links_of(old(self).cells@).len(),
        ensures
            final(self).cells@.len() == old(self).cells@.len(),
            forall|i: int|
                0 <= i < old(self).cells@.len() && i != r ==> #[trigger] final(self).cells@[i]
                    == old(self).cells@[i],
            final(self).cells@[r as int]@ == old(self).cells@[r as int]@.update(c as int, false),
            links_of(final(self).cells@) == links_of(old(self).cells@).remove(
                ((r + 1) as usize, (c + 1) as usize),
            ),
            links_of(final(self).cells@).finite(),
            final(self).total == links_of(final(self).cells@).len(),
    {
        assert(self.cells@.len() == self.cells.len());
        assert(self.cells@[r as int]@.len() == self.cells@[r as int].len());
        if self.cells[r][c] {
            assert(links_of(self.cells@).contains(((r + 1) as usize, (c + 1) as usize)));
            self.total -= 1;
        }
        let row = &mut self.cells[r];
        row[c] = false;
        proof {
            assert(links_of(self.cells@) =~= links_of(old(self).cells@).remove(
                ((r + 1) as usize, (c + 1) as usize),
            )) by {
                assert forall|p: (usize, usize)| #[trigger]
                    links_of(self.cells@).contains(p) <==> links_of(old(self).cells@).remove(
                        ((r + 1) as usize, (c + 1) as usize),
                    ).contains(p) by {
                    if 1 <= p.0 <= self.cells@.len() && p.0 != r + 1 {
                        assert(self.cells@[p.0 - 1] == old(self).cells@[p.0 - 1]);
                    }
                }
            }
        }
    }
}

impl EdgeStore for Incidence {
    closed spec fn wf(&self) -> bool {
        &&& square(self.cells@)
        &&& links_of(self.cells@).finite()
        &&& self.total == links_of(self.cells@).len()
    }

    closed spec fn ids(&self) -> Set<usize> {
        id_range(self.cells@.len())
    }

    closed spec fn links(&self) -> Set<(usize, usize)> {
        links_of(self.cells@)
    }

    closed spec fn span(&self) -> nat {
        self.cells@.len()
    }

    open spec fn dense() -> bool {
        true
    }

    proof fn lemma_wf(&self) {
        assert(self.cells@.len() == self.cells.len());
        lemma_range_len(self.cells@.len());
    }

    fn is_dense() -> (b: bool) {
        true
    }

    fn id_list(&self) -> (r: Vec<usize>) {
        let n = self.cells.len();
        let mut r: Vec<usize> = Vec::new();
        let mut i: usize = 0;
        while i < n
            invariant
                i <= n,
                r@.len() == i,
                forall|k: int| 0 <= k < i ==> #[trigger] r@[k] == k + 1,
            decreases n - i,
        {
            r.push(i + 1);
            i += 1;
        }
        proof {
            assert(r@.to_set() =~= id_range(self.cells@.len())) by {
                assert forall|id: usize| id_range(self.cells@.len()).contains(
                    id,
                ) implies r@.to_set().contains(id) by {
                    assert(r@[id - 1] == id);
                }
            }
        }
        r
    }

    fn empty() -> (s: Self) {
        let s = Incidence { cells: Vec::new(), total: 0 };
        assert(links_of(s.cells@) =~= Set::<(usize, usize)>::empty());
        assert(id_range(0) =~= Set::<usize>::empty());
        s
    }

    fn id_count(&self) -> (n: usize) {
        proof {
            assert(self.cells@.len() == self.cells.len());
            lemma_range_len(self.cells@.len());
        }
        self.cells.len()
    }

    fn link_count(&self) -> (n: usize) {
        self.total
    }

    fn has_link(&self, f: usize, t: usize) -> (b: bool) {
        if f == 0 || f > self.cells.len() || t == 0 || t > self.cells.len() {
            return false;
        }
        self.cells[f - 1][t - 1]
    }

    fn add_id(&mut self, id: usize) {
        let n = self.cells.len();
        let mut row: Vec<bool> = Vec::new();
        let mut j: usize = 0;
        while j < n
            invariant
                j <= n,
                row@.len() == j,
                forall|k: int| 0 <= k < j ==> !(#[trigger] row@[k]),
            decreases n - j,
        {
            row.push(false);
            j += 1;
        }
        self.cells.push(row);
        let mut i: usize = 0;
        while i < self.cells.len()
            invariant
                n == old(self).cells@.len(),
                self.total == old(self).total,
                i <= self.cells@.len(),
                self.cells@.len() == n + 1,
                forall|r: int| 0 <= r < i ==> (#[trigger] self.cells@[r])@.len() == n + 1,
                forall|r: int| i <= r < n + 1 ==> (#[trigger] self.cells@[r])@.len() == n,
                forall|r: int, c: int|
                    0 <= r < n && 0 <= c < n ==> (#[trigger] self.cells@[r]@[c]) == old(
                        self,
                    ).cells@[r]@[c],
                forall|c: int|
                    0 <= c < self.cells@[n as int]@.len() ==> !(#[trigger] self.cells@[n as int]@[c]),
                forall|r: int| 0 <= r < i ==> !(#[trigger] self.cells@[r])@[n as int],
                square(old(self).cells@),
            decreases self.cells@.len() - i,
        {
            let ghost before = self.cells@;
            let row = &mut self.cells[i];
            row.push(false);
            proof {
                assert forall|r: int, c: int| 0 <= r < n && 0 <= c < n implies (
                #[trigger] self.cells@[r]@[c]) == old(self).cells@[r]@[c] by {
                    assert(before[r]@[c] == old(self).cells@[r]@[c]);
                    if r != i {
                        assert(self.cells@[r] == before[r]);
                    }
                }
                assert forall|r: int| 0 <= r < i + 1 implies !(
                #[trigger] self.cells@[r])@[n as int] by {
                    if r != i {
                        assert(self.cells@[r] == before[r]);
                    }
                }
                assert forall|r: int| 0 <= r < i + 1 implies (
                #[trigger] self.cells@[r])@.len() == n + 1 by {
                    if r != i {
                        assert(self.cells@[r] == before[r]);
                    }
                }
                assert forall|r: int| i + 1 <= r < n + 1 implies (
                #[trigger] self.cells@[r])@.len() == n by {
                    assert(self.cells@[r] == before[r]);
                }
                assert forall|c: int| 0 <= c < self.cells@[n as int]@.len() implies !(
                #[trigger] self.cells@[n as int]@[c]) by {
                    if i != n {
                        assert(self.cells@[n as int] == before[n as int]);
                    } else {
                        if c < n {
                            assert(!before[n as int]@[c]);
                        }
                    }
                }
            }
            i += 1;
        }
        proof {
            assert(links_of(self.cells@) =~= links_of(old(self).cells@)) by {
                assert forall|p: (usize, usize)| #[trigger]
                    links_of(self.cells@).contains(p) <==> links_of(old(self).cells@).contains(
                        p,
                    ) by {
                    if 1 <= p.0 <= n + 1 && 1 <= p.1 <= n + 1 {
                        if p.0 == n + 1 {
                            assert(!self.cells@[n as int]@[p.1 - 1]);
                        } else if p.1 == n + 1 {
                            assert(!self.cells@[p.0 - 1]@[n as int]);
                        } else {
                            assert(self.cells@[p.0 - 1]@[p.1 - 1] == old(self).cells@[p.0 - 1]@[p.1
                                - 1]);
                            assert(old(self).cells@[p.0 - 1]@.len() == n);
                        }
                    }
                    if links_of(old(self).cells@).contains(p) {
                        assert(old(self).cells@[p.0 - 1]@.len() == n);
                    }
                }
            }
            assert(id_range(self.cells@.len()) =~= id_range(old(self).cells@.len()).insert(id));
        }
    }

    fn add_link(&mut self, f: usize, t: usize) {
        assert(self.cells@[f - 1]@.len() == self.cells@.len());
        let row = &mut self.cells[f - 1];
        row[t - 1] = true;
        self.total += 1;
        proof {
            assert forall|i: int| 0 <= i < self.cells@.len() implies (
            #[trigger] self.cells@[i])@.len() == self.cells@.len() by {
                assert(old(self).cells@[i]@.len() == old(self).cells@.len());
            }
            assert(links_of(self.cells@) =~= links_of(old(self).cells@).insert((f, t))) by {
                assert forall|p: (usize, usize)| #[trigger]
                    links_of(self.cells@).contains(p) <==> links_of(old(self).cells@).insert(
                        (f, t),
                    ).contains(p) by {
                    if 1 <= p.0 <= self.cells@.len() {
                        assert(old(self).cells@[p.0 - 1]@.len() == old(self).cells@.len());
                        if p.0 != f {
                            assert(self.cells@[p.0 - 1] == old(self).cells@[p.0 - 1]);
                        }
                    }
                }
            }
        }
    }

    fn remove_link(&mut self, f: usize, t: usize) {
        self.lower(f - 1, t - 1);
        proof {
            assert forall|i: int| 0 <= i < self.cells@.len() implies (
            #[trigger] self.cells@[i])@.len() == self.cells@.len() by {
                assert(old(self).cells@[i]@.len() == old(self).cells@.len());
            }
        }
    }

    fn remove_id(&mut self, id: usize) {
        let n = self.cells.len();
        let at = id - 1;
        let ghost cells0 = self.cells@;
        let ghost links0 = links_of(cells0);
        // Lower every flag of the row and of the column of `id`.
        let mut j: usize = 0;
        while j < n
            invariant
                j <= n,
                at < n,
                n == cells0.len(),
                square(cells0),
                self.cells@.len() == n,
                square(self.cells@),
                links_of(self.cells@).finite(),
                self.total == links_of(self.cells@).len(),
                forall|r: int, c: int|
                    0 <= r < n && 0 <= c < n ==> (#[trigger] self.cells@[r]@[c]) == (cells0[r]@[c]
                        && !((r == at && c < j) || (c == at && r < j))),
            decreases n - j,
        {
            let ghost before = self.cells@;
            assert(before[at as int]@.len() == n);
            self.lower(at, j);
            let ghost between = self.cells@;
            assert(between[j as int]@.len() == n) by {
                if j != at {
                    assert(between[j as int] == before[j as int]);
                }
                assert(before[j as int]@.len() == n);
            }
            self.lower(j, at);
            proof {
                assert forall|i: int| 0 <= i < self.cells@.len() implies (
                #[trigger] self.cells@[i])@.len() == self.cells@.len() by {
                    assert(before[i]@.len() == n);
                    if i != at {
                        assert(between[i] == before[i]);
                    }
                    if i != j {
                        assert(self.cells@[i] == between[i]);
                    }
                }
                assert forall|r: int, c: int| 0 <= r < n && 0 <= c < n implies (
                #[trigger] self.cells@[r]@[c]) == (cells0[r]@[c] && !((r == at && c < j + 1) || (c
                    == at && r < j + 1))) by {
                    assert(before[r]@[c] == (cells0[r]@[c] && !((r == at && c < j) || (c == at && r
                        < j))));
                    assert(before[r]@.len() == n);
                    if r != at {
                        assert(between[r] == before[r]);
                    }
                    if r != j {
                        assert(self.cells@[r] == between[r]);
                    }
                }
            }
            j += 1;
        }
        proof {
            assert(links_of(self.cells@) =~= without(links0, id)) by {
                assert forall|p: (usize, usize)| #[trigger]
                    links_of(self.cells@).contains(p) <==> without(links0, id).contains(p) by {
                    if 1 <= p.0 <= n {
                        assert(self.cells@[p.0 - 1]@.len() == n);
                        assert(cells0[p.0 - 1]@.len() == n);
                        if 1 <= p.1 <= n {
                            assert(self.cells@[p.0 - 1]@[p.1 - 1] == (cells0[p.0 - 1]@[p.1 - 1] && !((
                            p.0 - 1 == at && p.1 - 1 < n) || (p.1 - 1 == at && p.0 - 1 < n))));
                        }
                    }
                }
            }
            lemma_renumbered_len(without(links0, id), id);
        }
        // Take the row and the column out of the grid.
        let ghost cells1 = self.cells@;
        self.cells.remove(at);
        let mut i: usize = 0;
        while i < self.cells.len()
            invariant
                at < n,
                n == cells1.len(),
                square(cells1),
                self.total == old(self).total - (links0.len() - without(links0, id).len()),
                self.total == links_of(cells1).len(),
                i <= self.cells@.len(),
                self.cells@.len() == n - 1,
                forall|r: int|
                    0 <= r < i ==> (#[trigger] self.cells@[r])@ == cells1[if r < at {
                        r
                    } else {
                        r + 1
                    }]@.remove(at as int),
                forall|r: int|
                    i <= r < n - 1 ==> (#[trigger] self.cells@[r]) == cells1[if r < at {
                        r
                    } else {
                        r + 1
                    }],
            decreases self.cells@.len() - i,
        {
            let ghost before = self.cells@;
            assert(cells1[if i < at { i as int } else { i + 1 }]@.len() == n);
            let row = &mut self.cells[i];
            row.remove(at);
            proof {
                assert forall|r: int| 0 <= r < i + 1 implies (
                #[trigger] self.cells@[r])@ == cells1[if r < at {
                    r
                } else {
                    r + 1
                }]@.remove(at as int) by {
                    if r != i {
                        assert(self.cells@[r] == before[r]);
                    }
                }
                assert forall|r: int| i + 1 <= r < n - 1 implies (
                #[trigger] self.cells@[r]) == cells1[if r < at {
                    r
                } else {
                    r + 1
                }] by {
                    assert(self.cells@[r] == before[r]);
                }
            }
            i += 1;
        }
        proof {
            let kept = without(links0, id);
            assert(links_of(cells1) == kept);
            assert forall|i: int| 0 <= i < self.cells@.len() implies (
            #[trigger] self.cells@[i])@.len() == self.cells@.len() by {
                assert(cells1[if i < at { i } else { i + 1 }]@.len() == n);
            }
            assert(links_of(self.cells@) =~= renumbered(kept, id)) by {
                let f = |p: (usize, usize)| (lowered(p.0, id), lowered(p.1, id));
                assert forall|q: (usize, usize)| links_of(self.cells@).contains(q) implies renumbered(
                    kept,
                    id,
                ).contains(q) by {
                    let r = q.0 - 1;
                    let c = q.1 - 1;
                    let r1 = if r < at { r } else { r + 1 };
                    let c1 = if c < at { c } else { c + 1 };
                    assert(self.cells@[r]@ == cells1[r1]@.remove(at as int));
                    assert(cells1[r1]@.len() == n);
                    assert(cells1[r1]@[c1]);
                    let p = ((r1 + 1) as usize, (c1 + 1) as usize);
                    assert(links_of(cells1).contains(p));
                    assert(f(p) == q);
                }
                assert forall|q: (usize, usize)| renumbered(kept, id).contains(
                    q,
                ) implies links_of(self.cells@).contains(q) by {
                    let p = choose|p: (usize, usize)| kept.contains(p) && f(p) == q;
                    assert(links_of(cells1).contains(p));
                    assert(links0.contains(p) && p.0 != id && p.1 != id);
                    let r1 = p.0 - 1;
                    let c1 = p.1 - 1;
                    assert(cells1[r1]@.len() == n);
                    let r = if r1 < at { r1 } else { r1 - 1 };
                    let c = if c1 < at { c1 } else { c1 - 1 };
                    assert(self.cells@[r]@ == cells1[if r < at { r } else { r + 1 }]@.remove(at as int));
                    assert(self.cells@[r]@[c] == cells1[r1]@[c1]);
                }
            }
            assert(id_range(self.cells@.len()) =~= id_range(n as nat).remove(n));
        }
    }

    fn neighbors(&self, id: usize) -> (r: Vec<usize>) {
        let n = self.cells.len();
        let mut r: Vec<usize> = Vec::new();
        let mut j: usize = 0;
        assert(1 <= id <= n);
        assert(self.cells@[id - 1]@.len() == n);
        while j < n
            invariant
                j <= n,
                1 <= id <= n,
                n == self.cells@.len(),
                self.cells@[id - 1]@.len() == n,
                forall|k: int| 0 <= k < r@.len() ==> 1 <= (#[trigger] r@[k]) <= j && self.cells@[id
                    - 1]@[r@[k] - 1],
                forall|k: int, l: int| 0 <= k < l < r@.len() ==> r@[k] < r@[l],
                forall|t: usize|
                    1 <= t <= j && self.cells@[id - 1]@[t - 1] ==> #[trigger] r@.contains(t),
            decreases n - j,
        {
            if self.cells[id - 1][j] {
                let ghost before = r@;
                r.push(j + 1);
                proof {
                    assert(r@[before.len() as int] == j + 1);
                    assert forall|t: usize|
                        1 <= t <= j + 1 && self.cells@[id - 1]@[t - 1] implies #[trigger] r@.contains(
                        t,
                    ) by {
                        if t <= j {
                            assert(before.contains(t));
                            let k = choose|k: int| 0 <= k < before.len() && before[k] == t;
                            assert(r@[k] == t);
                        }
                    }
                }
            }
            j += 1;
        }
        proof {
            assert(r@.to_set() =~= successors(links_of(self.cells@), id)) by {
                assert forall|t: usize| #[trigger]
                    r@.to_set().contains(t) <==> successors(links_of(self.cells@), id).contains(
                        t,
                    ) by {
                    if r@.to_set().contains(t) {
                        let k = choose|k: int| 0 <= k < r@.len() && r@[k] == t;
                        assert(links_of(self.cells@).contains((id, t)));
                    }
                    if links_of(self.cells@).contains((id, t)) {
                        assert(r@.contains(t));
                    }
                }
            }
        }
        r
    }
}

} // verus!
