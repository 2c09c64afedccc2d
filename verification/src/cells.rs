use vstd::prelude::*;
use std::collections::{HashMap, HashSet};

use crate::color::Color;

verus! {

/// The number that stands for the cell `(x, y)` in the hash tables below:
/// each coordinate shifted into `0..2^32`, `x` in the high half.
pub open spec fn cell_key(x: int, y: int) -> int {
    (x + 0x8000_0000) * 0x1_0000_0000 + (y + 0x8000_0000)
}

/// Distinct cells have distinct keys, and every key fits in a `u64`.
pub proof fn lemma_cell_key_injective(x1: i32, y1: i32, x2: i32, y2: i32)
    ensures
        0 <= cell_key(x1 as int, y1 as int) <= u64::MAX,
        cell_key(x1 as int, y1 as int) == cell_key(x2 as int, y2 as int) <==> (x1 == x2 && y1
            == y2),
{
}

/// The key of the cell `(x, y)`.
fn key_of(x: i32, y: i32) -> (k: u64)
    ensures
        k == cell_key(x as int, y as int),
{
    let hx: u64 = (x as i64 + 0x8000_0000) as u64;
    let hy: u64 = (y as i64 + 0x8000_0000) as u64;
    hx * 0x1_0000_0000 + hy
}

/// The key of `p` as the hash tables hold it.
pub open spec fn key(p: (i32, i32)) -> u64 {
    cell_key(p.0 as int, p.1 as int) as u64
}

/// A set of cells, kept in the order in which they were first inserted.
pub struct CellSet {
    members: HashSet<u64>,
    order: Vec<(i32, i32)>,
}

impl CellSet {
    /// The cells, each once, in the order of their first insertion.
    pub closed spec fn cells(&self) -> Seq<(i32, i32)> {
        self.order@
    }

    /// The hash set holds exactly the keys of the listed cells, and no cell
    /// is listed twice.
    pub closed spec fn wf(&self) -> bool {
        &&& self.order@.no_duplicates()
        &&& forall|i: int| 0 <= i < self.order@.len() ==> self.members@.contains(#[trigger] key(self.order@[i]))
        &&& forall|k: u64| self.members@.contains(k) ==> exists|i: int| 0 <= i < self.order@.len() && #[trigger] key(self.order@[i]) == k
    }

    /// An empty set.
    pub fn new() -> (s: CellSet)
        ensures
            s.wf(),
            s.cells() == Seq::<(i32, i32)>::empty(),
    {
        CellSet { members: HashSet::new(), order: Vec::new() }
    }

    /// Adds the cell `(x, y)`; true when it was not in the set before.
    pub fn insert(&mut self, x: i32, y: i32) -> (added: bool)
        requires
            old(self).wf(),
        ensures
            final(self).wf(),
            added == !old(self).cells().contains((x, y)),
            final(self).cells() == if added {
                old(self).cells().push((x, y))
            } else {
                old(self).cells()
            },
    {
        let k = key_of(x, y);
        proof {
            self.lemma_contains_key(x, y);
        }
        let added = self.members.insert(k);
        if added {
            self.order.push((x, y));
            proof {
                let o = self.order@;
                assert forall|i: int| 0 <= i < o.len() implies self.members@.contains(#[trigger] key(o[i])) by {
                    if i < o.len() - 1 {
                        assert(o[i] == old(self).order@[i]);
                    }
                }
                assert forall|kk: u64| self.members@.contains(kk) implies exists|i: int| 0 <= i < o.len() && #[trigger] key(o[i]) == kk by {
                    if kk == k {
                        assert(key(o[o.len() - 1]) == kk);
                    } else {
                        let i = choose|i: int| 0 <= i < old(self).order@.len() && #[trigger] key(old(self).order@[i]) == kk;
                        assert(o[i] == old(self).order@[i]);
                    }
                }
                assert forall|i: int, j: int| 0 <= i < o.len() && 0 <= j < o.len() && i != j implies o[i] != o[j] by {
                    if i < o.len() - 1 && j < o.len() - 1 {
                        assert(o[i] == old(self).order@[i]);
                        assert(o[j] == old(self).order@[j]);
                    } else if i == o.len() - 1 {
                        assert(o[j] == old(self).order@[j]);
                    } else {
                        assert(o[i] == old(self).order@[i]);
                    }
                }
            }
        }
        added
    }

    /// Whether the cell `(x, y)` is in the set.
    pub fn contains(&self, x: i32, y: i32) -> (r: bool)
        requires
            self.wf(),
        ensures
            r == self.cells().contains((x, y)),
    {
        let k = key_of(x, y);
        proof {
            self.lemma_contains_key(x, y);
        }
        self.members.contains(&k)
    }

    /// The number of cells in the set.
    pub fn len(&self) -> (n: usize)
        ensures
            n == self.cells().len(),
    {
        self.order.len()
    }

    /// The cells in the order of their first insertion.
    pub fn cells_in_order(&self) -> (r: &Vec<(i32, i32)>)
        ensures
            r@ == self.cells(),
    {
        &self.order
    }

    proof fn lemma_contains_key(&self, x: i32, y: i32)
        requires
            self.wf(),
        ensures
            self.members@.contains(key((x, y))) <==> self.order@.contains((x, y)),
    {
        if self.members@.contains(key((x, y))) {
            let i = choose|i: int| 0 <= i < self.order@.len() && #[trigger] key(self.order@[i]) == key((x, y));
            let p = self.order@[i];
            lemma_cell_key_injective(p.0, p.1, x, y);
            assert(self.order@[i] == (x, y));
        }
        if self.order@.contains((x, y)) {
            let i = choose|i: int| 0 <= i < self.order@.len() && self.order@[i] == (x, y);
            assert(self.members@.contains(key(self.order@[i])));
        }
    }
}

/// A map from cells to colours, whose cells are kept in the order in which
/// they were first inserted.
pub struct CellColors {
    values: HashMap<u64, Color>,
    order: Vec<(i32, i32)>,
}

impl CellColors {
    /// The cells that have a colour, each once, in the order of their first
    /// insertion.
    pub closed spec fn cells(&self) -> Seq<(i32, i32)> {
        self.order@
    }

    /// The colour of the cell `(x, y)`, if it has one.
    pub closed spec fn lookup(&self, x: i32, y: i32) -> Option<Color> {
        if self.values@.contains_key(key((x, y))) {
            Some(self.values@[key((x, y))])
        } else {
            None
        }
    }

    /// The hash map holds exactly the keys of the listed cells, and no cell
    /// is listed twice.
    pub closed spec fn wf(&self) -> bool {
        &&& self.order@.no_duplicates()
        &&& forall|i: int| 0 <= i < self.order@.len() ==> self.values@.contains_key(#[trigger] key(self.order@[i]))
        &&& forall|k: u64| self.values@.contains_key(k) ==> exists|i: int| 0 <= i < self.order@.len() && #[trigger] key(self.order@[i]) == k
    }

    /// An empty map.
    pub fn new() -> (m: CellColors)
        ensures
            m.wf(),
            m.cells() == Seq::<(i32, i32)>::empty(),
            forall|x: i32, y: i32| #[trigger] m.lookup(x, y) is None,
    {
        CellColors { values: HashMap::new(), order: Vec::new() }
    }

    /// Gives the cell `(x, y)` the colour `color`, replacing the colour it
    /// had.
    pub fn insert(&mut self, x: i32, y: i32, color: Color)
        requires
            old(self).wf(),
        ensures
            final(self).wf(),
            final(self).cells() == if old(self).cells().contains((x, y)) {
                old(self).cells()
            } else {
                old(self).cells().push((x, y))
            },
            final(self).lookup(x, y) == Some(color),
            forall|x2: i32, y2: i32|
                (x2 != x || y2 != y) ==> #[trigger] final(self).lookup(x2, y2) == old(self).lookup(x2, y2),
    {
        let k = key_of(x, y);
        proof {
            self.lemma_contains_key(x, y);
        }
        let previous = self.values.insert(k, color);
        proof {
            assert forall|x2: i32, y2: i32|
                (x2 != x || y2 != y) implies #[trigger] self.lookup(x2, y2) == old(self).lookup(x2, y2) by {
                lemma_cell_key_injective(x, y, x2, y2);
                lemma_cell_key_injective(x2, y2, x2, y2);
            }
        }
        match previous {
            Some(_) => {
                proof {
                    let o = self.order@;
                    assert forall|i: int| 0 <= i < o.len() implies self.values@.contains_key(#[trigger] key(o[i])) by {
                        assert(old(self).values@.contains_key(key(o[i])));
                    }
                    assert forall|kk: u64| self.values@.contains_key(kk) implies exists|i: int| 0 <= i < o.len() && #[trigger] key(o[i]) == kk by {
                        if kk != k {
                            assert(old(self).values@.contains_key(kk));
                        } else {
                            let i = choose|i: int| 0 <= i < o.len() && o[i] == (x, y);
                            assert(key(o[i]) == kk);
                        }
                    }
                }
            },
            None => {
                self.order.push((x, y));
                proof {
                    let o = self.order@;
                    assert forall|i: int| 0 <= i < o.len() implies self.values@.contains_key(#[trigger] key(o[i])) by {
                        if i < o.len() - 1 {
                            assert(o[i] == old(self).order@[i]);
                            assert(old(self).values@.contains_key(key(o[i])));
                        }
                    }
                    assert forall|kk: u64| self.values@.contains_key(kk) implies exists|i: int| 0 <= i < o.len() && #[trigger] key(o[i]) == kk by {
                        if kk == k {
                            assert(key(o[o.len() - 1]) == kk);
                        } else {
                            assert(old(self).values@.contains_key(kk));
                            let i = choose|i: int| 0 <= i < old(self).order@.len() && #[trigger] key(old(self).order@[i]) == kk;
                            assert(o[i] == old(self).order@[i]);
                        }
                    }
                    assert forall|i: int, j: int| 0 <= i < o.len() && 0 <= j < o.len() && i != j implies o[i] != o[j] by {
                        if i < o.len() - 1 && j < o.len() - 1 {
                            assert(o[i] == old(self).order@[i]);
                            assert(o[j] == old(self).order@[j]);
                        } else if i == o.len() - 1 {
                            assert(o[j] == old(self).order@[j]);
                        } else {
                            assert(o[i] == old(self).order@[i]);
                        }
                    }
                }
            },
        }
    }

    /// The colour of the cell `(x, y)`, if it has one.
    pub fn get(&self, x: i32, y: i32) -> (r: Option<Color>)
        requires
            self.wf(),
        ensures
            r == self.lookup(x, y),
    {
        let k = key_of(x, y);
        match self.values.get(&k) {
            Some(c) => Some(*c),
            None => None,
        }
    }

    /// The cells that have a colour, in the order of their first insertion.
    pub fn cells_in_order(&self) -> (r: &Vec<(i32, i32)>)
        ensures
            r@ == self.cells(),
    {
        &self.order
    }

    /// A cell has a colour exactly when it is listed.
    pub proof fn lemma_lookup_listed(&self, x: i32, y: i32)
        requires
            self.wf(),
        ensures
            self.lookup(x, y) is Some <==> self.cells().contains((x, y)),
    {
        self.lemma_contains_key(x, y);
    }

    proof fn lemma_contains_key(&self, x: i32, y: i32)
        requires
            self.wf(),
        ensures
            self.values@.contains_key(key((x, y))) <==> self.order@.contains((x, y)),
    {
        if self.values@.contains_key(key((x, y))) {
            let i = choose|i: int| 0 <= i < self.order@.len() && #[trigger] key(self.order@[i]) == key((x, y));
            let p = self.order@[i];
            lemma_cell_key_injective(p.0, p.1, x, y);
            assert(self.order@[i] == (x, y));
        }
        if self.order@.contains((x, y)) {
            let i = choose|i: int| 0 <= i < self.order@.len() && self.order@[i] == (x, y);
            assert(self.values@.contains_key(key(self.order@[i])));
        }
    }
}

} // verus!
