use vstd::prelude::*;
use vstd::arithmetic::div_mod::{lemma_fundamental_div_mod, lemma_fundamental_div_mod_converse, lemma_mod_pos_bound, lemma_multiply_divide_lt};

use crate::components::{grid_step, Position};
use crate::obstacles::Obstacles;

verus! {

/// How moves between cells are formed.
#[derive(Clone, Copy, Debug, PartialEq, Eq, Structural)]
pub enum Terrain {
    /// Moves stay on one layer; a cell can be entered when it is free.
    Flat,
    /// A cell can be stood on when the cell below it is held; walkers
    /// step up onto a held cell and step down one layer.
    Layered,
}

/// A bounded box of cells, `0 <= x < width`, `0 <= y < height`, `0 <= z < depth`.
#[derive(Clone, Copy, Debug, PartialEq, Eq, Structural)]
pub struct Grid {
    pub width: u16,
    pub height: u16,
    pub depth: u16,
    pub terrain: Terrain,
}

/// Horizontal offsets in the order in which neighbours are tried: +x, -x, +y, -y.
pub open spec fn offset(k: int) -> (int, int) {
    if k == 0 {
        (1, 0)
    } else if k == 1 {
        (-1, 0)
    } else if k == 2 {
        (0, 1)
    } else {
        (0, -1)
    }
}

pub open spec fn cell(x: int, y: int, z: int) -> Position {
    Position { x: x as i32, y: y as i32, z: z as i32 }
}

/// Index in the neighbour order of the move from `a` to `b`; 4 when none fits.
pub open spec fn direction_to(a: Position, b: Position) -> int {
    if b.x == a.x + 1 && b.y == a.y {
        0
    } else if b.x == a.x - 1 && b.y == a.y {
        1
    } else if b.x == a.x && b.y == a.y + 1 {
        2
    } else if b.x == a.x && b.y == a.y - 1 {
        3
    } else {
        4
    }
}

impl Grid {
    pub open spec fn cell_count(self) -> int {
        self.width as int * self.height as int * self.depth as int
    }

    pub proof fn lemma_cell_count_bound(self)
        ensures
            0 <= self.cell_count() <= 281474976710655,
    {
        let (w, h, d) = (self.width as int, self.height as int, self.depth as int);
        assert(0 <= w * h * d <= 281474976710655) by (nonlinear_arith)
            requires
                0 <= w <= 65535,
                0 <= h <= 65535,
                0 <= d <= 65535,
        ;
    }

    /// The cells can be numbered by `usize`.
    pub open spec fn wf(self) -> bool {
        self.cell_count() <= usize::MAX
    }

    pub open spec fn in_grid(self, p: Position) -> bool {
        0 <= p.x < self.width && 0 <= p.y < self.height && 0 <= p.z < self.depth
    }

    pub open spec fn index(self, p: Position) -> int {
        (p.z as int * self.height as int + p.y as int) * self.width as int + p.x as int
    }

    /// The cell reached from `from` by trying direction `k`, with the cost of
    /// the move, if that move is allowed.
    #[verifier::opaque]
    pub open spec fn successor(self, obs: Set<Position>, from: Position, k: int) -> Option<(Position, nat)> {
        if !self.in_grid(from) || !(0 <= k < 4) {
            None
        } else {
            let adj = cell(from.x + offset(k).0, from.y + offset(k).1, from.z as int);
            match self.terrain {
                Terrain::Flat => if self.in_grid(adj) && !obs.contains(adj) {
                    Some((adj, 1nat))
                } else {
                    None
                },
                Terrain::Layered => if obs.contains(adj) {
                    let up = cell(adj.x as int, adj.y as int, adj.z + 1);
                    let above_self = cell(from.x as int, from.y as int, from.z + 1);
                    if self.in_grid(up) && !obs.contains(above_self) && !obs.contains(up) {
                        Some((up, 2nat))
                    } else {
                        None
                    }
                } else if obs.contains(cell(adj.x as int, adj.y as int, adj.z - 1)) {
                    if self.in_grid(adj) {
                        Some((adj, 1nat))
                    } else {
                        None
                    }
                } else if obs.contains(cell(adj.x as int, adj.y as int, adj.z - 2)) {
                    let down = cell(adj.x as int, adj.y as int, adj.z - 1);
                    if self.in_grid(down) {
                        Some((down, 2nat))
                    } else {
                        None
                    }
                } else {
                    None
                },
            }
        }
    }

    /// Cost of the single move from `a` to `b`; 0 when no such move is allowed.
    pub open spec fn step_cost(self, obs: Set<Position>, a: Position, b: Position) -> nat {
        match self.successor(obs, a, direction_to(a, b)) {
            Some((c, w)) => if c == b {
                w
            } else {
                0
            },
            None => 0,
        }
    }

    pub proof fn lemma_successor_step(self, obs: Set<Position>, a: Position, k: int)
        requires
            self.successor(obs, a, k) is Some,
        ensures
            direction_to(a, self.successor(obs, a, k).unwrap().0) == k,
            self.step_cost(obs, a, self.successor(obs, a, k).unwrap().0) == self.successor(obs, a, k).unwrap().1,
            self.successor(obs, a, k).unwrap().1 > 0,
            self.in_grid(self.successor(obs, a, k).unwrap().0),
            !obs.contains(self.successor(obs, a, k).unwrap().0),
            0 <= k < 4,
            self.successor(obs, a, k).unwrap().1 <= 2,
    {
        reveal(Grid::successor);
    }

    /// On layered ground, a move up onto the neighbour in direction `k` is
    /// offered exactly when that neighbour is held and the cells above the
    /// walker and above the neighbour are both free (the cell climbed to lying
    /// in the grid).
    pub proof fn lemma_step_up_offered(self, obs: Set<Position>, from: Position, k: int)
        requires
            self.terrain == Terrain::Layered,
            self.in_grid(from),
            0 <= k < 4,
            self.in_grid(cell(from.x + offset(k).0, from.y + offset(k).1, from.z + 1)),
        ensures
            self.successor(obs, from, k) == Some((cell(from.x + offset(k).0, from.y + offset(k).1, from.z + 1), 2nat))
                <==> {
                &&& obs.contains(cell(from.x + offset(k).0, from.y + offset(k).1, from.z as int))
                &&& !obs.contains(cell(from.x as int, from.y as int, from.z + 1))
                &&& !obs.contains(cell(from.x + offset(k).0, from.y + offset(k).1, from.z + 1))
            },
    {
        reveal(Grid::successor);
    }

    /// A move up one layer on layered ground climbs onto a held cell, and only
    /// when the cells above the mover and above that cell are free.
    pub proof fn lemma_step_up_needs_headroom(self, obs: Set<Position>, a: Position, b: Position)
        requires
            self.step_cost(obs, a, b) > 0,
            b.z == a.z + 1,
        ensures
            self.terrain == Terrain::Layered,
            obs.contains(cell(b.x as int, b.y as int, a.z as int)),
            !obs.contains(cell(a.x as int, a.y as int, a.z + 1)),
            !obs.contains(b),
    {
        reveal(Grid::successor);
    }

    /// An allowed move covers one or two units of distance.
    pub proof fn lemma_step_distance(self, obs: Set<Position>, a: Position, b: Position)
        requires
            self.step_cost(obs, a, b) > 0,
        ensures
            1 <= a.distance(b) <= 2,
            grid_step(a, b),
    {
        reveal(Grid::successor);
    }

    /// An allowed move is the successor in its own direction.
    pub proof fn lemma_step_successor(self, obs: Set<Position>, a: Position, b: Position)
        requires
            self.step_cost(obs, a, b) > 0,
        ensures
            self.successor(obs, a, direction_to(a, b)) == Some((b, self.step_cost(obs, a, b))),
            0 <= direction_to(a, b) < 4,
            self.in_grid(a),
            self.in_grid(b),
            !obs.contains(b),
    {
        reveal(Grid::successor);
    }

    pub fn contains(&self, p: Position) -> (r: bool)
        ensures
            r == self.in_grid(p),
    {
        0 <= p.x && p.x < self.width as i32 && 0 <= p.y && p.y < self.height as i32 && 0 <= p.z
            && p.z < self.depth as i32
    }

    pub proof fn lemma_index_bounds(self, p: Position)
        requires
            self.in_grid(p),
        ensures
            0 <= self.index(p) < self.cell_count(),
    {
        let w = self.width as int;
        let h = self.height as int;
        let d = self.depth as int;
        let (x, y, z) = (p.x as int, p.y as int, p.z as int);
        assert(0 <= (z * h + y) * w + x < w * h * d) by (nonlinear_arith)
            requires
                0 <= x < w,
                0 <= y < h,
                0 <= z < d,
        ;
    }

    /// Distinct cells of the grid have distinct indices.
    pub proof fn lemma_index_injective(self, p: Position, q: Position)
        requires
            self.in_grid(p),
            self.in_grid(q),
            self.index(p) == self.index(q),
        ensures
            p == q,
    {
        let w = self.width as int;
        let h = self.height as int;
        let i = self.index(p);
        lemma_fundamental_div_mod_converse(i, w, p.z as int * h + p.y as int, p.x as int);
        lemma_fundamental_div_mod_converse(i, w, q.z as int * h + q.y as int, q.x as int);
        lemma_fundamental_div_mod_converse(i / w, h, p.z as int, p.y as int);
        lemma_fundamental_div_mod_converse(i / w, h, q.z as int, q.y as int);
    }

    pub fn index_of(&self, p: Position) -> (r: usize)
        requires
            self.wf(),
            self.in_grid(p),
        ensures
            r == self.index(p),
            r < self.cell_count(),
    {
        proof {
            self.lemma_index_bounds(p);
            let w = self.width as int;
            let h = self.height as int;
            let (y, z) = (p.y as int, p.z as int);
            assert(0 <= z * h + y && 0 <= (z * h + y) * w && z * h <= z * h + y) by (nonlinear_arith)
                requires 0 <= y, 0 <= z, 0 <= h, 0 <= w;
            assert(z * h + y <= (z * h + y) * w) by (nonlinear_arith)
                requires 0 <= z * h + y, 1 <= w;
            assert((z * h + y) * w <= (z * h + y) * w + p.x as int);
        }
        let zh = p.z as usize * self.height as usize;
        let row = zh + p.y as usize;
        row * self.width as usize + p.x as usize
    }

    pub fn cell_at_index(&self, i: usize) -> (p: Position)
        requires
            self.wf(),
            i < self.cell_count(),
        ensures
            self.in_grid(p),
            self.index(p) == i,
    {
        let w = self.width as usize;
        let h = self.height as usize;
        proof {
            let (wi, hi, di) = (w as int, h as int, self.depth as int);
            assert(wi > 0 && hi > 0 && di > 0) by (nonlinear_arith)
                requires 0 <= i < wi * hi * di, wi >= 0, hi >= 0, di >= 0;
            lemma_fundamental_div_mod(i as int, wi);
            lemma_mod_pos_bound(i as int, wi);
            assert(wi * hi * di == wi * (hi * di)) by (nonlinear_arith);
            lemma_multiply_divide_lt(i as int, wi, hi * di);
            let q = i as int / wi;
            assert(q >= 0) by (nonlinear_arith) requires i >= 0, wi > 0, q == i as int / wi;
            lemma_fundamental_div_mod(q, hi);
            lemma_mod_pos_bound(q, hi);
            lemma_multiply_divide_lt(q, hi, di);
            assert(q / hi >= 0) by (nonlinear_arith) requires q >= 0, hi > 0;
        }
        let x = i % w;
        let q = i / w;
        let y = q % h;
        let z = q / h;
        let p = Position { x: x as i32, y: y as i32, z: z as i32 };
        proof {
            let (wi, hi) = (w as int, h as int);
            assert(self.index(p) == (z as int * hi + y as int) * wi + x as int);
            assert(q as int == hi * z as int + y as int);
            assert(i as int == wi * q as int + x as int);
            assert((z as int * hi + y as int) * wi + x as int == i as int) by (nonlinear_arith)
                requires q as int == hi * z as int + y as int, i as int == wi * q as int + x as int;
        }
        p
    }

    /// `held` tells, for each cell of the grid by index, whether it is held.
    pub open spec fn marks_held(self, held: Seq<bool>, obs: Set<Position>) -> bool {
        &&& held.len() == self.cell_count()
        &&& forall|p: Position| self.in_grid(p) ==> #[trigger] held[self.index(p)] == obs.contains(p)
    }

    /// The number of cells.
    pub fn size(&self) -> (r: usize)
        requires
            self.wf(),
        ensures
            r == self.cell_count(),
    {
        proof {
            self.lemma_cell_count_bound();
            let (w, h, d) = (self.width as int, self.height as int, self.depth as int);
            assert(w * h <= w * h * d || d == 0) by (nonlinear_arith)
                requires w >= 0, h >= 0, d >= 0;
        }
        if self.depth == 0 {
            proof {
                let (w, h) = (self.width as int, self.height as int);
                assert(w * h * 0 == 0) by (nonlinear_arith);
            }
            return 0;
        }
        self.width as usize * self.height as usize * self.depth as usize
    }

    /// Whether `p` is held, looked up in `held` for cells of the grid.
    pub fn is_held(&self, held: &Vec<bool>, obstacles: &Obstacles, p: Position) -> (r: bool)
        requires
            self.wf(),
            self.marks_held(held@, obstacles@),
        ensures
            r == obstacles@.contains(p),
    {
        if self.contains(p) {
            held[self.index_of(p)]
        } else {
            obstacles.contains(p)
        }
    }

    /// The move from `from` in direction `k`, computed.
    pub fn successor_of(&self, held: &Vec<bool>, obstacles: &Obstacles, from: Position, k: usize) -> (r: Option<(Position, u64)>)
        requires
            k < 4,
            self.wf(),
            self.marks_held(held@, obstacles@),
        ensures
            match self.successor(obstacles@, from, k as int) {
                None => r is None,
                Some((p, w)) => r == Some((p, w as u64)),
            },
    {
        reveal(Grid::successor);
        if !self.contains(from) {
            return None;
        }
        let (dx, dy): (i32, i32) = if k == 0 {
            (1, 0)
        } else if k == 1 {
            (-1, 0)
        } else if k == 2 {
            (0, 1)
        } else {
            (0, -1)
        };
        let adj = Position { x: from.x + dx, y: from.y + dy, z: from.z };
        match self.terrain {
            Terrain::Flat => {
                if self.contains(adj) && !self.is_held(held, obstacles, adj) {
                    Some((adj, 1))
                } else {
                    None
                }
            },
            Terrain::Layered => {
                if self.is_held(held, obstacles, adj) {
                    let up = Position { x: adj.x, y: adj.y, z: adj.z + 1 };
                    let above_self = Position { x: from.x, y: from.y, z: from.z + 1 };
                    if self.contains(up) && !self.is_held(held, obstacles, above_self) && !self.is_held(held, obstacles, up) {
                        Some((up, 2))
                    } else {
                        None
                    }
                } else if self.is_held(held, obstacles, Position { x: adj.x, y: adj.y, z: adj.z - 1 }) {
                    if self.contains(adj) {
                        Some((adj, 1))
                    } else {
                        None
                    }
                } else if self.is_held(held, obstacles, Position { x: adj.x, y: adj.y, z: adj.z - 2 }) {
                    let down = Position { x: adj.x, y: adj.y, z: adj.z - 1 };
                    if self.contains(down) {
                        Some((down, 2))
                    } else {
                        None
                    }
                } else {
                    None
                }
            },
        }
    }

    pub fn new(width: u16, height: u16, depth: u16, terrain: Terrain) -> (r: Option<Grid>)
        ensures
            r is Some <==> (width as int * height as int * depth as int <= usize::MAX),
            r matches Some(g) ==> g.wf() && g == (Grid { width, height, depth, terrain }),
    {
        assert(width as int * height as int <= 4294836225) by (nonlinear_arith)
            requires
                width <= 65535,
                height <= 65535,
        ;
        let wh: u64 = width as u64 * height as u64;
        assert(wh * depth as u64 <= 281474976710655) by (nonlinear_arith)
            requires
                wh == width as int * height as int,
                width <= 65535,
                height <= 65535,
                depth <= 65535,
        ;
        let count: u64 = wh * depth as u64;
        if count <= usize::MAX as u64 {
            Some(Grid { width, height, depth, terrain })
        } else {
            None
        }
    }
}

} // verus!
