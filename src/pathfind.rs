use vstd::prelude::*;

use crate::components::{grid_step, Position};
use crate::grid::{cell, direction_to, offset, Grid, Terrain};
use crate::movement::{route_ok, Mover};
use crate::obstacles::Obstacles;
use crate::walk::{
    cost_bound, is_canonical, is_shortest, is_walk, lemma_canonical_unique, lemma_reachable_within_bound,
    lemma_walk_starts_in_grid, lemma_walk_steps, prev, reachable, reachable_within, walk_cost,
};

verus! {

/// Why no path was produced.
#[derive(Clone, Copy, Debug, PartialEq, Eq, Structural)]
pub enum PathfindFailure {
    /// Every cell beside the goal is outside the grid or held.
    NoReachableAdjacentCell,
    /// No walk leads from the start to the chosen cell beside the goal.
    Unreachable,
}

/// Cells beside the goal, in the order in which they are tried: +x, -x, +y,
/// -y, then +z, -z.
pub open spec fn goal_side(goal: Position, k: int) -> (int, int, int) {
    if k < 4 {
        (goal.x + offset(k).0, goal.y + offset(k).1, goal.z as int)
    } else if k == 4 {
        (goal.x as int, goal.y as int, goal.z + 1)
    } else {
        (goal.x as int, goal.y as int, goal.z - 1)
    }
}

/// Flat grids try the four sides of one layer; layered ones also the cells
/// above and below.
pub open spec fn side_count(g: Grid) -> int {
    match g.terrain {
        Terrain::Flat => 4,
        Terrain::Layered => 6,
    }
}

pub open spec fn side_free(g: Grid, obs: Set<Position>, goal: Position, k: int) -> bool {
    let (x, y, z) = goal_side(goal, k);
    &&& 0 <= x < g.width
    &&& 0 <= y < g.height
    &&& 0 <= z < g.depth
    &&& !obs.contains(cell(x, y, z))
}

pub open spec fn free_side_from(g: Grid, obs: Set<Position>, goal: Position, k: int) -> Option<Position>
    decreases 6 - k,
{
    if k < 0 || k >= side_count(g) {
        None
    } else if side_free(g, obs, goal, k) {
        let (x, y, z) = goal_side(goal, k);
        Some(cell(x, y, z))
    } else {
        free_side_from(g, obs, goal, k + 1)
    }
}

/// The cell that a search for `goal` walks to: the first free cell beside it.
pub open spec fn target_of(g: Grid, obs: Set<Position>, goal: Position) -> Option<Position> {
    free_side_from(g, obs, goal, 0)
}

/// What a search from `start` for `goal` returns.
pub open spec fn search_result(
    g: Grid,
    obs: Set<Position>,
    start: Position,
    goal: Position,
    r: Result<Seq<Position>, PathfindFailure>,
) -> bool {
    match target_of(g, obs, goal) {
        None => r == Err::<Seq<Position>, PathfindFailure>(PathfindFailure::NoReachableAdjacentCell),
        Some(t) => match r {
            Ok(p) => {
                &&& is_shortest(g, obs, start, t, p)
                &&& is_canonical(g, obs, start, t, p)
                &&& walk_cost(g, obs, start, p) <= cost_bound(g)
            },
            Err(e) => e == PathfindFailure::Unreachable && !reachable(g, obs, start, t),
        },
    }
}

/// Marks a cell from which the target has not been reached yet.
const UNREACHED: u64 = 18446744073709551615;

/// Sum of the entries of `s`.
spec fn total(s: Seq<u64>) -> nat
    decreases s.len(),
{
    if s.len() == 0 {
        0
    } else {
        total(s.drop_last()) + s.last() as nat
    }
}

proof fn lemma_total_update(s: Seq<u64>, i: int, v: u64)
    requires
        0 <= i < s.len(),
    ensures
        total(s.update(i, v)) == total(s) - s[i] + v,
    decreases s.len(),
{
    let u = s.update(i, v);
    if i == s.len() - 1 {
        assert(u.drop_last() =~= s.drop_last());
    } else {
        lemma_total_update(s.drop_last(), i, v);
        assert(u.drop_last() =~= s.drop_last().update(i, v));
    }
}

/// The move in direction `k` from `p` respects the cost field `d`.
spec fn settled_toward(g: Grid, obs: Set<Position>, cap: int, d: Seq<u64>, p: Position, k: int) -> bool {
    match g.successor(obs, p, k) {
        Some((n, w)) => (d[g.index(n)] != UNREACHED && d[g.index(n)] + w <= cap) ==> d[g.index(p)] <= d[g.index(n)] + w,
        None => true,
    }
}

spec fn settled(g: Grid, obs: Set<Position>, cap: int, d: Seq<u64>, p: Position) -> bool {
    forall|k: int| 0 <= k < 4 ==> #[trigger] settled_toward(g, obs, cap, d, p, k)
}

spec fn all_settled(g: Grid, obs: Set<Position>, cap: int, d: Seq<u64>) -> bool {
    forall|p: Position| g.in_grid(p) ==> #[trigger] settled(g, obs, cap, d, p)
}

/// The move in direction `k` from `p` leads to a cell whose cost plus the
/// move's cost is at most `bound`.
spec fn leads_within(g: Grid, obs: Set<Position>, d: Seq<u64>, p: Position, k: int, bound: int) -> bool {
    match g.successor(obs, p, k) {
        Some((n, w)) => d[g.index(n)] != UNREACHED && d[g.index(n)] + w <= bound,
        None => false,
    }
}

spec fn supported(g: Grid, obs: Set<Position>, d: Seq<u64>, p: Position) -> bool {
    exists|k: int| 0 <= k < 4 && #[trigger] leads_within(g, obs, d, p, k, d[g.index(p)] as int)
}

/// `d` holds, for each cell, an upper bound on the cost of reaching `t`, each
/// finite one backed by a move to a cell that is no worse.
spec fn field_ok(g: Grid, obs: Set<Position>, t: Position, cap: int, d: Seq<u64>) -> bool {
    &&& cap == cost_bound(g)
    &&& d.len() == g.cell_count()
    &&& g.in_grid(t)
    &&& d[g.index(t)] == 0
    &&& forall|p: Position| #[trigger]
        g.in_grid(p) ==> (d[g.index(p)] == UNREACHED || d[g.index(p)] <= cap)
    &&& forall|p: Position| #[trigger]
        g.in_grid(p) && p != t && d[g.index(p)] != UNREACHED ==> supported(g, obs, d, p)
}

proof fn lemma_successor_not_self(g: Grid, obs: Set<Position>, p: Position, k: int)
    requires
        g.successor(obs, p, k) is Some,
    ensures
        g.index(g.successor(obs, p, k).unwrap().0) != g.index(p),
        g.in_grid(g.successor(obs, p, k).unwrap().0),
        g.in_grid(p),
{
    g.lemma_successor_step(obs, p, k);
    let n = g.successor(obs, p, k).unwrap().0;
    assert(g.step_cost(obs, p, n) > 0);
    g.lemma_step_successor(obs, p, n);
    if g.index(n) == g.index(p) {
        g.lemma_index_injective(n, p);
    }
}

/// Lowers the cost of one cell to a value backed by its move in direction `k`.
proof fn lemma_lower_keeps_field(
    g: Grid,
    obs: Set<Position>,
    t: Position,
    cap: int,
    d: Seq<u64>,
    p: Position,
    k: int,
    v: u64,
)
    requires
        field_ok(g, obs, t, cap, d),
        g.in_grid(p),
        0 <= k < 4,
        v < d[g.index(p)],
        v <= cap,
        leads_within(g, obs, d, p, k, v as int),
    ensures
        field_ok(g, obs, t, cap, d.update(g.index(p), v)),
{
    let i = g.index(p);
    g.lemma_index_bounds(p);
    g.lemma_index_bounds(t);
    let e = d.update(i, v);
    lemma_successor_not_self(g, obs, p, k);
    let (n, w) = g.successor(obs, p, k).unwrap();
    g.lemma_index_bounds(n);
    assert(e[g.index(n)] == d[g.index(n)]);
    assert(leads_within(g, obs, e, p, k, v as int));
    assert forall|q: Position| #[trigger]
        g.in_grid(q) implies (e[g.index(q)] == UNREACHED || e[g.index(q)] <= cap) by {
        g.lemma_index_bounds(q);
    }
    assert forall|q: Position| #[trigger]
        g.in_grid(q) && q != t && e[g.index(q)] != UNREACHED implies supported(g, obs, e, q) by {
        g.lemma_index_bounds(q);
        if g.index(q) == i {
            g.lemma_index_injective(q, p);
        } else {
            let k2 = choose|k2: int| 0 <= k2 < 4 && #[trigger] leads_within(g, obs, d, q, k2, d[g.index(q)] as int);
            lemma_successor_not_self(g, obs, q, k2);
            let (n2, w2) = g.successor(obs, q, k2).unwrap();
            g.lemma_index_bounds(n2);
            if g.index(n2) != i {
                assert(e[g.index(n2)] == d[g.index(n2)]);
            }
            assert(leads_within(g, obs, e, q, k2, e[g.index(q)] as int));
        }
    }
}

/// Cell index `j` is among the first `s` visited by a sweep over `n` cells,
/// in increasing index order or, when `backward`, in decreasing order.
spec fn swept(backward: bool, n: int, s: int, j: int) -> bool {
    if backward {
        n - s <= j
    } else {
        j < s
    }
}

/// One sweep over the cells, lowering each cost to the best backed by a move.
fn relax_pass(
    g: &Grid,
    held: &Vec<bool>,
    obstacles: &Obstacles,
    t: Position,
    cap: u64,
    dist: &mut Vec<u64>,
    backward: bool,
) -> (changed: bool)
    requires
        g.wf(),
        g.marks_held(held@, obstacles@),
        cap as int == cost_bound(*g),
        field_ok(*g, obstacles@, t, cap as int, old(dist)@),
    ensures
        field_ok(*g, obstacles@, t, cap as int, final(dist)@),
        changed ==> total(final(dist)@) < total(old(dist)@),
        !changed ==> final(dist)@ == old(dist)@ && all_settled(*g, obstacles@, cap as int, final(dist)@),
{
    let ghost obs = obstacles@;
    let n = dist.len();
    let mut changed = false;
    let mut i: usize = 0;
    proof {
        assert forall|q: Position| g.in_grid(q) implies !swept(backward, n as int, 0, #[trigger] g.index(q)) by {
            g.lemma_index_bounds(q);
        }
    }
    while i < n
        invariant
            g.wf(),
            cap as int == cost_bound(*g),
            n == dist@.len(),
            n == g.cell_count(),
            obs == obstacles@,
            g.marks_held(held@, obs),
            0 <= i <= n,
            field_ok(*g, obs, t, cap as int, dist@),
            changed ==> total(dist@) < total(old(dist)@),
            !changed ==> dist@ == old(dist)@,
            !changed ==> forall|q: Position|
                g.in_grid(q) && swept(backward, n as int, i as int, g.index(q)) ==> #[trigger] settled(*g, obs, cap as int, dist@, q),
        decreases n - i,
    {
        let ci: usize = if backward { n - 1 - i } else { i };
        let p = g.cell_at_index(ci);
        let mut k: usize = 0;
        while k < 4
            invariant
                g.wf(),
                cap as int == cost_bound(*g),
                n == dist@.len(),
                n == g.cell_count(),
                obs == obstacles@,
                g.marks_held(held@, obs),
                0 <= i < n,
                g.in_grid(p),
                g.index(p) == ci,
                ci < n,
                0 <= k <= 4,
                field_ok(*g, obs, t, cap as int, dist@),
                changed ==> total(dist@) < total(old(dist)@),
                !changed ==> dist@ == old(dist)@,
                !changed ==> forall|q: Position|
                    g.in_grid(q) && swept(backward, n as int, i as int, g.index(q)) ==> #[trigger] settled(*g, obs, cap as int, dist@, q),
                !changed ==> forall|j: int| 0 <= j < k ==> #[trigger] settled_toward(*g, obs, cap as int, dist@, p, j),
            decreases 4 - k,
        {
            match g.successor_of(held, obstacles, p, k) {
                Some((nb, w)) => {
                    proof {
                        lemma_successor_not_self(*g, obs, p, k as int);
                        g.lemma_successor_step(obs, p, k as int);
                        g.lemma_cell_count_bound();
                    }
                    let ni = g.index_of(nb);
                    let dn = dist[ni];
                    assert(dn == UNREACHED || dn <= cap);
                    if dn != UNREACHED && dn + w <= cap && dn + w < dist[ci] {
                        let ghost before = dist@;
                        proof {
                            assert(leads_within(*g, obs, before, p, k as int, (dn + w) as int));
                            lemma_lower_keeps_field(*g, obs, t, cap as int, before, p, k as int, (dn + w) as u64);
                            lemma_total_update(before, ci as int, (dn + w) as u64);
                        }
                        dist.set(ci, dn + w);
                        changed = true;
                    }
                },
                None => {},
            }
            k += 1;
        }
        proof {
            if !changed {
                assert(settled(*g, obs, cap as int, dist@, p));
                assert forall|q: Position| g.in_grid(q) && swept(backward, n as int, i + 1, g.index(q)) implies #[trigger] settled(
                    *g,
                    obs,
                    cap as int,
                    dist@,
                    q,
                ) by {
                    if g.index(q) == ci {
                        g.lemma_index_injective(q, p);
                    }
                }
            }
        }
        i += 1;
    }
    proof {
        if !changed {
            assert forall|q: Position| g.in_grid(q) implies #[trigger] settled(*g, obs, cap as int, dist@, q) by {
                g.lemma_index_bounds(q);
            }
        }
    }
    changed
}

/// Once every move respects the field, no walk to `t` within `cap` is cheaper
/// than the field's value at its start.
proof fn lemma_lower_bound(g: Grid, obs: Set<Position>, t: Position, cap: int, d: Seq<u64>, p: Position, q: Seq<Position>)
    requires
        field_ok(g, obs, t, cap, d),
        all_settled(g, obs, cap, d),
        is_walk(g, obs, p, t, q),
        walk_cost(g, obs, p, q) <= cap,
    ensures
        g.in_grid(p),
        d[g.index(p)] != UNREACHED,
        d[g.index(p)] <= walk_cost(g, obs, p, q),
    decreases q.len(),
{
    g.lemma_cell_count_bound();
    if q.len() > 0 {
        let n = q[0];
        g.lemma_step_successor(obs, p, n);
        lemma_lower_bound(g, obs, t, cap, d, n, q.skip(1));
        let k = direction_to(p, n);
        assert(settled(g, obs, cap, d, p));
        assert(settled_toward(g, obs, cap, d, p, k));
    }
}


/// The move from `a` to `b` is the first in the neighbour order that goes
/// down the field by exactly its cost.
spec fn descends(g: Grid, obs: Set<Position>, d: Seq<u64>, a: Position, b: Position) -> bool {
    &&& g.step_cost(obs, a, b) > 0
    &&& d[g.index(b)] != UNREACHED
    &&& d[g.index(b)] + g.step_cost(obs, a, b) == d[g.index(a)]
    &&& forall|k: int| 0 <= k < direction_to(a, b) ==> !#[trigger] leads_within(g, obs, d, a, k, d[g.index(a)] as int)
}

/// A walk that goes down a settled field is a canonical walk whose cost is the
/// field's value at its start.
proof fn lemma_descent(g: Grid, obs: Set<Position>, t: Position, cap: int, d: Seq<u64>, from: Position, p: Seq<Position>)
    requires
        field_ok(g, obs, t, cap, d),
        all_settled(g, obs, cap, d),
        g.in_grid(from),
        d[g.index(from)] != UNREACHED,
        forall|i: int| 0 <= i < p.len() ==> descends(g, obs, d, #[trigger] prev(from, p, i), p[i]),
        p.len() == 0 ==> from == t,
        p.len() > 0 ==> p.last() == t,
    ensures
        is_walk(g, obs, from, t, p),
        walk_cost(g, obs, from, p) == d[g.index(from)],
        is_canonical(g, obs, from, t, p),
    decreases p.len(),
{
    if p.len() > 0 {
        let rest = p.skip(1);
        assert(descends(g, obs, d, prev(from, p, 0), p[0]));
        g.lemma_step_successor(obs, from, p[0]);
        assert forall|i: int| 0 <= i < rest.len() implies descends(g, obs, d, #[trigger] prev(p[0], rest, i), rest[i]) by {
            assert(prev(p[0], rest, i) == prev(from, p, i + 1));
            assert(descends(g, obs, d, prev(from, p, i + 1), p[i + 1]));
        }
        if rest.len() > 0 {
            assert(rest.last() == p.last());
        }
        lemma_descent(g, obs, t, cap, d, p[0], rest);
        assert forall|k: int|
            #![trigger g.successor(obs, from, k)]
            0 <= k < direction_to(from, p[0]) implies match g.successor(obs, from, k) {
                Some((m, w)) => !reachable_within(g, obs, m, t, walk_cost(g, obs, from, p) - w),
                None => true,
            } by {
            if g.successor(obs, from, k) is Some {
                let (m, w) = g.successor(obs, from, k).unwrap();
                if reachable_within(g, obs, m, t, walk_cost(g, obs, from, p) - w) {
                    let q = choose|q: Seq<Position>| #[trigger]
                        is_walk(g, obs, m, t, q) && walk_cost(g, obs, m, q) <= walk_cost(g, obs, from, p) - w;
                    assert(d[g.index(from)] <= cap);
                    lemma_lower_bound(g, obs, t, cap, d, m, q);
                    assert(leads_within(g, obs, d, from, k, d[g.index(from)] as int));
                }
            }
        }
    }
}

/// The first free cell beside `goal`.
fn choose_target(grid: &Grid, obstacles: &Obstacles, goal: Position) -> (r: Option<Position>)
    ensures
        r == target_of(*grid, obstacles@, goal),
        r matches Some(t) ==> grid.in_grid(t),
{
    let count: usize = match grid.terrain {
        Terrain::Flat => 4,
        Terrain::Layered => 6,
    };
    let mut k: usize = 0;
    while k < count
        invariant
            count == side_count(*grid),
            0 <= k <= count,
            target_of(*grid, obstacles@, goal) == free_side_from(*grid, obstacles@, goal, k as int),
        decreases count - k,
    {
        let (gx, gy, gz) = (goal.x as i64, goal.y as i64, goal.z as i64);
        let (x, y, z): (i64, i64, i64) = if k == 0 {
            (gx + 1, gy, gz)
        } else if k == 1 {
            (gx - 1, gy, gz)
        } else if k == 2 {
            (gx, gy + 1, gz)
        } else if k == 3 {
            (gx, gy - 1, gz)
        } else if k == 4 {
            (gx, gy, gz + 1)
        } else {
            (gx, gy, gz - 1)
        };
        assert((x as int, y as int, z as int) == goal_side(goal, k as int));
        if 0 <= x && x < grid.width as i64 && 0 <= y && y < grid.height as i64 && 0 <= z && z
            < grid.depth as i64 {
            let c = Position { x: x as i32, y: y as i32, z: z as i32 };
            assert(c == cell(x as int, y as int, z as int));
            if !obstacles.contains(c) {
                return Some(c);
            }
        }
        k += 1;
    }
    None
}

/// A search result with its path as a sequence.
pub open spec fn result_view(r: Result<Vec<Position>, PathfindFailure>) -> Result<Seq<Position>, PathfindFailure> {
    match r {
        Ok(p) => Ok(p@),
        Err(e) => Err(e),
    }
}

/// Searches for a cheapest path from `start` to the cell beside `goal` that
/// is tried first and is free: +x, -x, +y, -y, then +z, -z on layered grids.
/// The path leaves out `start` and ends at that cell; it is empty when
/// `start` is that cell.
///
/// The search first settles, for every cell of the grid, the cheapest cost
/// of reaching the target, by sweeping over the cells until no cost can be
/// lowered. It then walks from `start` down those costs, at each cell taking
/// the first move in the order +x, -x, +y, -y that stays on a cheapest route,
/// so equal inputs always give the same path.
pub fn find_path(grid: &Grid, obstacles: &Obstacles, start: Position, goal: Position) -> (r: Result<
    Vec<Position>,
    PathfindFailure,
>)
    requires
        grid.wf(),
    ensures
        search_result(*grid, obstacles@, start, goal, result_view(r)),
{
    let ghost g = *grid;
    let ghost obs = obstacles@;
    let t = match choose_target(grid, obstacles, goal) {
        None => return Err(PathfindFailure::NoReachableAdjacentCell),
        Some(t) => t,
    };
    if !grid.contains(start) {
        proof {
            assert forall|q: Seq<Position>| #[trigger] is_walk(g, obs, start, t, q) implies false by {
                lemma_walk_starts_in_grid(g, obs, start, t, q);
            }
        }
        return Err(PathfindFailure::Unreachable);
    }
    proof {
        g.lemma_cell_count_bound();
        g.lemma_index_bounds(t);
        assert(grid.width as int * grid.height as int <= g.cell_count()) by (nonlinear_arith)
            requires grid.depth >= 1, g.cell_count() == grid.width as int * grid.height as int * grid.depth as int,
                grid.width >= 0, grid.height >= 0;
    }
    let n: usize = grid.size();
    let held = obstacles.held_cells(grid);
    let cap: u64 = 2 * n as u64;
    let mut dist: Vec<u64> = Vec::new();
    while dist.len() < n
        invariant
            dist.len() <= n,
            forall|i: int| 0 <= i < dist@.len() ==> dist@[i] == UNREACHED,
        decreases n - dist.len(),
    {
        dist.push(UNREACHED);
    }
    let ti = grid.index_of(t);
    dist.set(ti, 0);
    proof {
        let d = dist@;
        assert forall|p: Position| #[trigger]
            g.in_grid(p) && p != t && d[g.index(p)] != UNREACHED implies supported(g, obs, d, p) by {
            g.lemma_index_bounds(p);
            if g.index(p) == ti as int {
                g.lemma_index_injective(p, t);
            }
        }
        assert forall|p: Position| #[trigger]
            g.in_grid(p) implies (d[g.index(p)] == UNREACHED || d[g.index(p)] <= cap) by {
            g.lemma_index_bounds(p);
        }
    }
    let mut backward = false;
    loop
        invariant
            field_ok(g, obs, t, cap as int, dist@),
            g.wf(),
            g == *grid,
            obs == obstacles@,
            g.marks_held(held@, obs),
            cap as int == cost_bound(g),
        ensures
            field_ok(g, obs, t, cap as int, dist@),
            all_settled(g, obs, cap as int, dist@),
        decreases total(dist@),
    {
        let changed = relax_pass(grid, &held, obstacles, t, cap, &mut dist, backward);
        backward = !backward;
        if !changed {
            break;
        }
    }
    let ghost d = dist@;
    let si = grid.index_of(start);
    if dist[si] == UNREACHED {
        proof {
            if reachable(g, obs, start, t) {
                lemma_reachable_within_bound(g, obs, start, t);
                let q = choose|q: Seq<Position>| #[trigger]
                    is_walk(g, obs, start, t, q) && walk_cost(g, obs, start, q) <= cost_bound(g);
                lemma_lower_bound(g, obs, t, cap as int, d, start, q);
            }
        }
        return Err(PathfindFailure::Unreachable);
    }
    let mut path: Vec<Position> = Vec::new();
    let mut cur = start;
    while cur != t
        invariant
            field_ok(g, obs, t, cap as int, d),
            all_settled(g, obs, cap as int, d),
            d == dist@,
            g == *grid,
            obs == obstacles@,
            g.marks_held(held@, obs),
            g.wf(),
            cap as int == cost_bound(g),
            g.in_grid(start),
            g.in_grid(cur),
            d[g.index(start)] != UNREACHED,
            d[g.index(cur)] != UNREACHED,
            forall|i: int| 0 <= i < path@.len() ==> descends(g, obs, d, #[trigger] prev(start, path@, i), path@[i]),
            path@.len() == 0 ==> cur == start,
            path@.len() > 0 ==> path@.last() == cur,
        decreases d[g.index(cur)],
    {
        let ci = grid.index_of(cur);
        let here = dist[ci];
        let mut chosen: usize = 4;
        let mut k: usize = 0;
        while k < 4
            invariant
                0 <= k <= 4,
                chosen <= 4,
                d == dist@,
                g == *grid,
                obs == obstacles@,
                g.marks_held(held@, obs),
                g.wf(),
                g.in_grid(cur),
                here == d[g.index(cur)],
                here != UNREACHED,
                cur != t,
                field_ok(g, obs, t, cap as int, d),
                cap as int == cost_bound(g),
                chosen == 4 ==> forall|j: int| 0 <= j < k ==> !#[trigger] leads_within(g, obs, d, cur, j, here as int),
                chosen < 4 ==> chosen < k && leads_within(g, obs, d, cur, chosen as int, here as int)
                    && forall|j: int| 0 <= j < chosen ==> !#[trigger] leads_within(g, obs, d, cur, j, here as int),
            decreases 4 - k,
        {
            if chosen == 4 {
                match grid.successor_of(&held, obstacles, cur, k) {
                    Some((m, w)) => {
                        proof {
                            g.lemma_successor_step(obs, cur, k as int);
                            g.lemma_cell_count_bound();
                        }
                        let mi = grid.index_of(m);
                        let dm = dist[mi];
                        assert(dm == UNREACHED || dm <= cap);
                        if dm != UNREACHED && dm + w <= here {
                            chosen = k;
                        }
                    },
                    None => {},
                }
            }
            k += 1;
        }
        proof {
            if chosen == 4 {
                assert(supported(g, obs, d, cur));
                let k0 = choose|k0: int| 0 <= k0 < 4 && #[trigger] leads_within(g, obs, d, cur, k0, d[g.index(cur)] as int);
                assert(!leads_within(g, obs, d, cur, k0, here as int));
            }
        }
        assert(chosen < 4);
        let step = grid.successor_of(&held, obstacles, cur, chosen);
        let next = match step {
            Some((m, _)) => m,
            None => cur,
        };
        proof {
            g.lemma_successor_step(obs, cur, chosen as int);
            let w = g.step_cost(obs, cur, next);
            assert(settled(g, obs, cap as int, d, cur));
            assert(settled_toward(g, obs, cap as int, d, cur, chosen as int));
            assert(descends(g, obs, d, cur, next));
            let old_path = path@;
            assert(prev(start, old_path.push(next), old_path.len() as int) == cur);
            assert forall|i: int| 0 <= i < old_path.len() + 1 implies descends(
                g,
                obs,
                d,
                #[trigger] prev(start, old_path.push(next), i),
                old_path.push(next)[i],
            ) by {
                if i < old_path.len() {
                    assert(prev(start, old_path.push(next), i) == prev(start, old_path, i));
                }
            }
        }
        path.push(next);
        cur = next;
    }
    proof {
        lemma_descent(g, obs, t, cap as int, d, start, path@);
        let p = path@;
        assert forall|q: Seq<Position>| #[trigger] is_walk(g, obs, start, t, q) implies walk_cost(g, obs, start, p)
            <= walk_cost(g, obs, start, q) by {
            if walk_cost(g, obs, start, q) <= cap {
                lemma_lower_bound(g, obs, t, cap as int, d, start, q);
            }
        }
    }
    Ok(path)
}

/// A found path moves one allowed step at a time, enters no held cell, stays in
/// the grid, and ends on the free cell beside the goal that was tried first.
pub proof fn lemma_path_valid(g: Grid, obs: Set<Position>, start: Position, goal: Position, p: Seq<Position>)
    requires
        search_result(g, obs, start, goal, Ok(p)),
    ensures
        target_of(g, obs, goal) is Some,
        forall|i: int|
            0 <= i < p.len() ==> g.step_cost(obs, #[trigger] prev(start, p, i), p[i]) > 0 && !obs.contains(p[i])
                && g.in_grid(p[i]),
        p.len() > 0 ==> p.last() == target_of(g, obs, goal).unwrap(),
        p.len() == 0 ==> start == target_of(g, obs, goal).unwrap(),
{
    let t = target_of(g, obs, goal).unwrap();
    lemma_walk_steps(g, obs, start, t, p);
}

/// On layered ground a found path climbs one layer only onto a held cell, and
/// only where the cells above the walker and above that cell are free.
pub proof fn lemma_path_climbs_with_headroom(g: Grid, obs: Set<Position>, start: Position, goal: Position, p: Seq<Position>)
    requires
        search_result(g, obs, start, goal, Ok(p)),
    ensures
        forall|i: int|
            0 <= i < p.len() && p[i].z == #[trigger] prev(start, p, i).z + 1 ==> {
                let a = prev(start, p, i);
                &&& obs.contains(cell(p[i].x as int, p[i].y as int, a.z as int))
                &&& !obs.contains(cell(a.x as int, a.y as int, a.z + 1))
                &&& !obs.contains(p[i])
            },
{
    lemma_path_valid(g, obs, start, goal, p);
    assert forall|i: int| 0 <= i < p.len() && p[i].z == #[trigger] prev(start, p, i).z + 1 implies {
        let a = prev(start, p, i);
        &&& obs.contains(cell(p[i].x as int, p[i].y as int, a.z as int))
        &&& !obs.contains(cell(a.x as int, a.y as int, a.z + 1))
        &&& !obs.contains(p[i])
    } by {
        g.lemma_step_up_needs_headroom(obs, prev(start, p, i), p[i]);
    }
}

/// A search gives the same answer every time: two results that both meet its
/// contract for the same grid, obstacles, start and goal are equal.
pub proof fn lemma_search_deterministic(
    g: Grid,
    obs: Set<Position>,
    start: Position,
    goal: Position,
    r1: Result<Seq<Position>, PathfindFailure>,
    r2: Result<Seq<Position>, PathfindFailure>,
)
    requires
        search_result(g, obs, start, goal, r1),
        search_result(g, obs, start, goal, r2),
    ensures
        r1 == r2,
{
    if let Some(t) = target_of(g, obs, goal) {
        match (r1, r2) {
            (Ok(p), Ok(q)) => {
                lemma_canonical_unique(g, obs, start, t, p, q);
            },
            (Ok(p), Err(_)) => {
                assert(is_walk(g, obs, start, t, p));
            },
            (Err(_), Ok(q)) => {
                assert(is_walk(g, obs, start, t, q));
            },
            (Err(_), Err(_)) => {},
        }
    }
}

/// Plans paths for many entities against one snapshot of the obstacles.
pub struct PathfindSystem;

impl PathfindSystem {
    /// Plans a path for each request `(start, goal)`. Every search reads the
    /// same obstacles, with the requester's own cell left out.
    pub fn run(&mut self, grid: &Grid, obstacles: &Obstacles, requests: &Vec<(Position, Position)>) -> (r: Vec<
        Result<Vec<Position>, PathfindFailure>,
    >)
        requires
            grid.wf(),
            obstacles.wf(),
        ensures
            r@.len() == requests@.len(),
            forall|i: int|
                0 <= i < r@.len() ==> search_result(
                    *grid,
                    obstacles@.remove(requests@[i].0),
                    requests@[i].0,
                    requests@[i].1,
                    result_view(#[trigger] r@[i]),
                ),
    {
        let mut results: Vec<Result<Vec<Position>, PathfindFailure>> = Vec::new();
        let mut i: usize = 0;
        while i < requests.len()
            invariant
                grid.wf(),
                obstacles.wf(),
                0 <= i <= requests@.len(),
                results@.len() == i,
                forall|j: int|
                    0 <= j < i ==> search_result(
                        *grid,
                        obstacles@.remove(requests@[j].0),
                        requests@[j].0,
                        requests@[j].1,
                        result_view(#[trigger] results@[j]),
                    ),
            decreases requests@.len() - i,
        {
            let (start, goal) = requests[i];
            let others = obstacles.without(start);
            let found = find_path(grid, &others, start, goal);
            results.push(found);
            i += 1;
        }
        results
    }
}

/// A found path is a route that a mover standing at its start can follow.
pub proof fn lemma_walk_is_route(g: Grid, obs: Set<Position>, from: Position, to: Position, p: Seq<Position>)
    requires
        is_walk(g, obs, from, to, p),
    ensures
        route_ok(from, 0, p),
{
    lemma_walk_steps(g, obs, from, to, p);
    assert forall|i: int| 0 <= i < p.len() implies grid_step(#[trigger] prev(from, p, i), p[i]) by {
        assert(g.step_cost(obs, prev(from, p, i), p[i]) > 0);
        g.lemma_step_distance(obs, prev(from, p, i), p[i]);
    }
    if p.len() > 0 {
        assert(prev(from, p, 0) == from);
        g.lemma_step_distance(obs, from, p[0]);
    }
}

/// Mover `m0` became `m` when a path toward `goal` was searched for it
/// (or left alone without a goal), with `failure` reported.
pub open spec fn replanned(
    grid: Grid,
    obs: Set<Position>,
    goal: Option<Position>,
    m0: Mover,
    m: Mover,
    failure: Option<PathfindFailure>,
) -> bool {
    &&& m.position == m0.position
    &&& m.speed == m0.speed
    &&& if goal is Some {
        &&& search_result(
            grid,
            obs.remove(m0.position),
            m0.position,
            goal.unwrap(),
            match failure {
                Some(e) => Err(e),
                None => Ok(m.path@),
            },
        )
        &&& failure is None ==> m.progress == 0
        &&& failure is Some ==> m.path@ == m0.path@ && m.progress == m0.progress
    } else {
        m.path@ == m0.path@ && m.progress == m0.progress && failure is None
    }
}

/// Plans fresh paths for movers.
pub struct PathfindingSystem;

impl PathfindingSystem {
    /// For each mover with a goal, searches afresh from the cell it holds
    /// toward the goal, its own cell left out of the obstacles. A found path
    /// replaces the old one, and the mover starts it from its cell (distance
    /// covered toward the old next cell is given up). A failed search leaves
    /// path and progress as they were, and the reason stands at its index.
    pub fn run(
        &mut self,
        grid: &Grid,
        obstacles: &Obstacles,
        movers: &mut Vec<Mover>,
        goals: &Vec<Option<Position>>,
    ) -> (failures: Vec<Option<PathfindFailure>>)
        requires
            grid.wf(),
            obstacles.wf(),
            goals@.len() == old(movers)@.len(),
            forall|i: int| 0 <= i < old(movers)@.len() ==> route_ok(#[trigger] old(movers)@[i].position, old(movers)@[i].progress, old(movers)@[i].path@),
        ensures
            failures@.len() == final(movers)@.len(),
            final(movers)@.len() == old(movers)@.len(),
            forall|i: int| 0 <= i < final(movers)@.len() ==> route_ok(#[trigger] final(movers)@[i].position, final(movers)@[i].progress, final(movers)@[i].path@),
            forall|i: int|
                0 <= i < final(movers)@.len() ==> replanned(
                    *grid,
                    obstacles@,
                    goals@[i],
                    old(movers)@[i],
                    #[trigger] final(movers)@[i],
                    failures@[i],
                ),
    {
        let n = movers.len();
        let mut failures: Vec<Option<PathfindFailure>> = Vec::new();
        let mut i: usize = 0;
        while i < n
            invariant
                grid.wf(),
                obstacles.wf(),
                n == movers@.len(),
                n == old(movers)@.len(),
                n == goals@.len(),
                0 <= i <= n,
                failures@.len() == i,
                forall|j: int| i <= j < n ==> #[trigger] movers@[j] == old(movers)@[j],
                forall|j: int| 0 <= j < n ==> route_ok(#[trigger] movers@[j].position, movers@[j].progress, movers@[j].path@),
                forall|j: int|
                    0 <= j < i ==> replanned(*grid, obstacles@, goals@[j], old(movers)@[j], #[trigger] movers@[j], failures@[j]),
            decreases n - i,
        {
            let mut failure: Option<PathfindFailure> = None;
            let ghost before = movers@;
            match goals[i] {
                Some(goal) => {
                    let start = movers[i].position;
                    let others = obstacles.without(start);
                    let found = find_path(grid, &others, start, goal);
                    let m = &mut movers[i];
                    match found {
                        Ok(p) => {
                            proof {
                                let t = target_of(*grid, others@, goal).unwrap();
                                lemma_walk_is_route(*grid, others@, start, t, p@);
                            }
                            m.path = p;
                            m.progress = 0;
                        },
                        Err(e) => {
                            failure = Some(e);
                        },
                    }
                },
                None => {},
            }
            assert(replanned(*grid, obstacles@, goals@[i as int], old(movers)@[i as int], movers@[i as int], failure));
            failures.push(failure);
            i += 1;
        }
        failures
    }
}

} // verus!
