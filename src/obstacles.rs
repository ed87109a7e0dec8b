use vstd::prelude::*;

use crate::components::Position;
use crate::grid::Grid;

verus! {

/// The cells held by entities that others cannot pass through.
///
/// The cells sit in a vector without repeats, read as a set. A hash set
/// keyed by `Position` would have no specification to prove against, since
/// the key is a struct with a derived hash, so membership is a scan; the
/// pathfinder builds a per-cell table once per search instead of scanning.
#[derive(Clone, Debug)]
pub struct Obstacles {
    cells: Vec<Position>,
}

impl View for Obstacles {
    type V = Set<Position>;

    closed spec fn view(&self) -> Set<Position> {
        self.cells@.to_set()
    }
}

impl Obstacles {
    /// Each cell is held once.
    pub closed spec fn wf(&self) -> bool {
        self.cells@.no_duplicates()
    }

    /// An empty set.
    pub fn new() -> (r: Self)
        ensures
            r.wf(),
            r@ == Set::<Position>::empty(),
    {
        let r = Obstacles { cells: Vec::new() };
        assert(r@ =~= Set::<Position>::empty());
        r
    }

    /// Whether `position` is held.
    pub fn contains(&self, position: Position) -> (r: bool)
        ensures
            r == self@.contains(position),
    {
        let mut i: usize = 0;
        while i < self.cells.len()
            invariant
                0 <= i <= self.cells@.len(),
                forall|j: int| 0 <= j < i ==> self.cells@[j] != position,
            decreases self.cells@.len() - i,
        {
            if self.cells[i] == position {
                assert(self.cells@.contains(position));
                return true;
            }
            i += 1;
        }
        proof {
            if self.cells@.to_set().contains(position) {
                let j = choose|j: int| 0 <= j < self.cells@.len() && self.cells@[j] == position;
                assert(self.cells@[j] == position);
            }
        }
        false
    }

    /// Marks `position` as held; a cell held already stays held once.
    pub fn insert(&mut self, position: Position)
        requires
            old(self).wf(),
        ensures
            final(self).wf(),
            final(self)@ == old(self)@.insert(position),
    {
        if !self.contains(position) {
            proof {
                assert(!self.cells@.contains(position));
            }
            self.cells.push(position);
            proof {
                assert(self.cells@.no_duplicates()) by {
                    let s = self.cells@;
                    assert forall|a: int, b: int|
                        0 <= a < s.len() && 0 <= b < s.len() && a != b implies s[a] != s[b] by {
                        if a == s.len() - 1 {
                            assert(old(self).cells@.contains(position) == false);
                            if b < s.len() - 1 {
                                assert(old(self).cells@[b] == s[b]);
                            }
                        } else if b == s.len() - 1 {
                            assert(old(self).cells@[a] == s[a]);
                        }
                    }
                }
            }
            assert(self@ =~= old(self)@.insert(position)) by {
                assert forall|p: Position| self@.contains(p) <==> old(self)@.insert(position).contains(p) by {
                    if self@.contains(p) && p != position {
                        let j = choose|j: int| 0 <= j < self.cells@.len() && self.cells@[j] == p;
                        assert(old(self).cells@[j] == p);
                    }
                    if old(self)@.contains(p) {
                        let j = choose|j: int| 0 <= j < old(self).cells@.len() && old(self).cells@[j] == p;
                        assert(self.cells@[j] == p);
                    }
                    if p == position {
                        assert(self.cells@[self.cells@.len() - 1] == p);
                    }
                }
            }
        } else {
            assert(self@ =~= old(self)@.insert(position));
        }
    }

    /// Frees `position`.
    pub fn remove(&mut self, position: Position)
        requires
            old(self).wf(),
        ensures
            final(self).wf(),
            final(self)@ == old(self)@.remove(position),
    {
        let ghost before = self.cells@;
        let mut i: usize = 0;
        while i < self.cells.len()
            invariant
                self.cells@ == before,
                before == old(self).cells@,
                before.no_duplicates(),
                0 <= i <= self.cells@.len(),
                forall|j: int| 0 <= j < i ==> self.cells@[j] != position,
            decreases self.cells@.len() - i,
        {
            if self.cells[i] == position {
                self.cells.remove(i);
                proof {
                    let s = self.cells@;
                    assert(s =~= before.take(i as int) + before.skip(i as int + 1));
                    assert(s.no_duplicates()) by {
                        assert forall|a: int, b: int|
                            0 <= a < s.len() && 0 <= b < s.len() && a != b implies s[a] != s[b] by {
                            let a2 = if a < i { a } else { a + 1 };
                            let b2 = if b < i { b } else { b + 1 };
                            assert(s[a] == before[a2]);
                            assert(s[b] == before[b2]);
                        }
                    }
                    assert(self@ =~= old(self)@.remove(position)) by {
                        assert forall|p: Position| self@.contains(p) <==> old(self)@.remove(position).contains(p) by {
                            if self@.contains(p) {
                                assert(s.contains(p));
                                let j = choose|j: int| 0 <= j < s.len() && s[j] == p;
                                let j2 = if j < i { j } else { j + 1 };
                                assert(before[j2] == p);
                                assert(j2 != i);
                            }
                            if old(self)@.remove(position).contains(p) {
                                assert(before.contains(p));
                                let j = choose|j: int| 0 <= j < before.len() && before[j] == p;
                                assert(j != i);
                                let j2 = if j < i { j } else { j - 1 };
                                assert(s[j2] == p);
                            }
                        }
                    }
                }
                return;
            }
            i += 1;
        }
        proof {
            assert(!old(self)@.contains(position)) by {
                if old(self)@.contains(position) {
                    let j = choose|j: int| 0 <= j < before.len() && before[j] == position;
                }
            }
            assert(self@ =~= old(self)@.remove(position));
        }
    }
    /// A copy of the set without `position`: what an entity standing at
    /// `position` must keep out of its way.
    pub fn without(&self, position: Position) -> (r: Obstacles)
        requires
            self.wf(),
        ensures
            r.wf(),
            r@ == self@.remove(position),
    {
        let mut cells: Vec<Position> = Vec::new();
        let mut i: usize = 0;
        while i < self.cells.len()
            invariant
                0 <= i <= self.cells@.len(),
                self.cells@.no_duplicates(),
                cells@.no_duplicates(),
                forall|k: int| 0 <= k < cells@.len() ==> exists|j: int| 0 <= j < i && self.cells@[j] == #[trigger] cells@[k],
                forall|p: Position| cells@.contains(p) <==> (p != position && exists|j: int| 0 <= j < i && self.cells@[j] == p),
            decreases self.cells@.len() - i,
        {
            let c = self.cells[i];
            if c != position {
                let ghost before = cells@;
                proof {
                    assert(!before.contains(c)) by {
                        if before.contains(c) {
                            let j = choose|j: int| 0 <= j < i && self.cells@[j] == c;
                            assert(self.cells@[j] == self.cells@[i as int]);
                        }
                    }
                }
                cells.push(c);
                proof {
                    assert forall|a: int, b: int| 0 <= a < cells@.len() && 0 <= b < cells@.len() && a != b implies cells@[a] != cells@[b] by {
                        if a == before.len() {
                            assert(before.contains(cells@[b]) || b == before.len());
                        } else if b == before.len() {
                            assert(before.contains(cells@[a]));
                        } else {
                            assert(cells@[a] == before[a] && cells@[b] == before[b]);
                        }
                    }
                    assert forall|k: int| 0 <= k < cells@.len() implies exists|j: int| 0 <= j < i + 1 && self.cells@[j] == #[trigger] cells@[k] by {
                        if k < before.len() {
                            assert(cells@[k] == before[k]);
                            let j = choose|j: int| 0 <= j < i && self.cells@[j] == before[k];
                            assert(0 <= j < i + 1);
                        } else {
                            assert(self.cells@[i as int] == cells@[k]);
                        }
                    }
                    assert forall|p: Position| cells@.contains(p) <==> (p != position && exists|j: int| 0 <= j < i + 1 && self.cells@[j] == p) by {
                        if cells@.contains(p) {
                            let k = choose|k: int| 0 <= k < cells@.len() && cells@[k] == p;
                            if k < before.len() {
                                assert(before[k] == p);
                                assert(before.contains(p));
                            }
                        }
                        if p != position && exists|j: int| 0 <= j < i + 1 && self.cells@[j] == p {
                            if p == c {
                                assert(cells@[before.len() as int] == p);
                            } else {
                                let j = choose|j: int| 0 <= j < i + 1 && self.cells@[j] == p;
                                assert(j < i);
                                assert(before.contains(p));
                                let k = choose|k: int| 0 <= k < before.len() && before[k] == p;
                                assert(cells@[k] == p);
                            }
                        }
                    }
                }
            } else {
                proof {
                    assert forall|p: Position| cells@.contains(p) <==> (p != position && exists|j: int| 0 <= j < i + 1 && self.cells@[j] == p) by {
                        if p != position && exists|j: int| 0 <= j < i + 1 && self.cells@[j] == p {
                            let j = choose|j: int| 0 <= j < i + 1 && self.cells@[j] == p;
                            assert(j < i);
                        }
                    }
                    assert forall|k: int| 0 <= k < cells@.len() implies exists|j: int| 0 <= j < i + 1 && self.cells@[j] == #[trigger] cells@[k] by {
                        let j = choose|j: int| 0 <= j < i && self.cells@[j] == cells@[k];
                        assert(0 <= j < i + 1);
                    }
                }
            }
            i += 1;
        }
        let r = Obstacles { cells };
        proof {
            assert forall|p: Position| r@.contains(p) <==> self@.remove(position).contains(p) by {
                if self@.remove(position).contains(p) {
                    assert(self.cells@.contains(p));
                }
                if r@.contains(p) {
                    assert(r.cells@.contains(p));
                }
            }
            assert(r@ =~= self@.remove(position));
        }
        r
    }

    /// For each cell of `grid`, by index, whether it is held.
    pub fn held_cells(&self, grid: &Grid) -> (r: Vec<bool>)
        requires
            grid.wf(),
        ensures
            grid.marks_held(r@, self@),
    {
        let n = grid.size();
        let mut held: Vec<bool> = Vec::new();
        while held.len() < n
            invariant
                held@.len() <= n,
                forall|i: int| 0 <= i < held@.len() ==> !held@[i],
            decreases n - held@.len(),
        {
            held.push(false);
        }
        proof {
            assert forall|p: Position| #[trigger] grid.in_grid(p) implies !held@[grid.index(p)] by {
                grid.lemma_index_bounds(p);
            }
        }
        let mut i: usize = 0;
        while i < self.cells.len()
            invariant
                grid.wf(),
                held@.len() == grid.cell_count(),
                0 <= i <= self.cells@.len(),
                forall|p: Position| #[trigger]
                    grid.in_grid(p) ==> (held@[grid.index(p)] <==> exists|j: int| 0 <= j < i && self.cells@[j] == p),
            decreases self.cells@.len() - i,
        {
            let c = self.cells[i];
            if grid.contains(c) {
                let ci = grid.index_of(c);
                held.set(ci, true);
                proof {
                    assert forall|p: Position| #[trigger]
                        grid.in_grid(p) implies (held@[grid.index(p)] <==> exists|j: int| 0 <= j < i + 1 && self.cells@[j] == p) by {
                        grid.lemma_index_bounds(p);
                        if grid.index(p) == ci {
                            grid.lemma_index_injective(p, c);
                            assert(self.cells@[i as int] == p);
                        }
                    }
                }
            } else {
                proof {
                    assert forall|p: Position| #[trigger]
                        grid.in_grid(p) implies (held@[grid.index(p)] <==> exists|j: int| 0 <= j < i + 1 && self.cells@[j] == p) by {
                        if self.cells@[i as int] == p {
                            assert(false);
                        }
                    }
                }
            }
            i += 1;
        }
        proof {
            assert forall|p: Position| grid.in_grid(p) implies #[trigger] held@[grid.index(p)] == self@.contains(p) by {
                if self@.contains(p) {
                    assert(self.cells@.contains(p));
                }
                grid.lemma_index_bounds(p);
            }
        }
        held
    }
}

} // verus!
