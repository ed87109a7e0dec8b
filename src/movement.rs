use vstd::prelude::*;

use crate::components::{grid_step, Position};
use crate::obstacles::Obstacles;
use crate::walk::prev;

verus! {

/// What one tick of movement did.
#[derive(Clone, Copy, Debug, PartialEq, Eq, Structural)]
pub enum MoveOutcome {
    /// The entity used its budget, or reached the end of its path.
    Advanced,
    /// The next cell of the path is held by another entity.
    Blocked,
    /// The path was already empty: the entity has arrived.
    ArrivedEmpty,
}

/// Distance covered by walking `p` from `from`, summed over the moves.
pub open spec fn route_length(from: Position, p: Seq<Position>) -> nat
    decreases p.len(),
{
    if p.len() == 0 {
        0
    } else {
        route_length(from, p.drop_last()) + prev(from, p, p.len() - 1).distance(p.last())
    }
}

/// Each move of `path` goes to a neighbouring cell, and `progress`
/// (distance already covered toward the next cell) falls short of the first.
pub open spec fn route_ok(position: Position, progress: u64, path: Seq<Position>) -> bool {
    &&& forall|i: int| 0 <= i < path.len() ==> grid_step(#[trigger] prev(position, path, i), path[i])
    &&& path.len() == 0 ==> progress == 0
    &&& path.len() > 0 ==> progress < position.distance(path[0])
}

/// One tick of movement took an entity at `pos0`, with `prog0` covered toward
/// the first cell of `path0` and the obstacles `obs0`, to `pos1`, `prog1`,
/// `path1` and `obs1`, with outcome `r`: cells were entered from the front
/// of the path, none of them held by another entity, within `speed`.
pub open spec fn tick_result(
    pos0: Position,
    prog0: u64,
    path0: Seq<Position>,
    speed: u64,
    obs0: Set<Position>,
    pos1: Position,
    prog1: u64,
    path1: Seq<Position>,
    r: MoveOutcome,
    obs1: Set<Position>,
) -> bool {
    let c = path0.len() - path1.len();
    let others = obs0.remove(pos0);
    let spent = route_length(pos0, path0.take(c)) + prog1 - prog0;
    &&& (r == MoveOutcome::ArrivedEmpty) <==> path0.len() == 0
    &&& r == MoveOutcome::ArrivedEmpty ==> pos1 == pos0 && prog1 == prog0 && path1 == path0 && obs1 == obs0
    &&& r != MoveOutcome::ArrivedEmpty ==> obs1 == obs0.remove(pos0).insert(pos1)
    &&& 0 <= c <= path0.len()
    &&& path1 == path0.skip(c)
    &&& pos1 == prev(pos0, path0, c)
    &&& forall|j: int| 0 <= j < c ==> !others.contains(#[trigger] path0[j])
    &&& spent <= speed
    &&& (c > 0 && prog1 > 0) || (c == 0 && prog1 > prog0) ==> !others.contains(path1[0])
    &&& r == MoveOutcome::Advanced ==> spent == speed || path1.len() == 0
    &&& r == MoveOutcome::Blocked ==> {
        &&& path1.len() > 0
        &&& others.contains(path1[0])
        &&& spent < speed
        &&& c == 0 ==> prog1 == prog0
        &&& c > 0 ==> prog1 == 0
    }
    &&& pos1 != pos0 ==> !obs0.contains(pos1)
}

proof fn lemma_route_length_step(from: Position, p: Seq<Position>, c: int)
    requires
        0 <= c < p.len(),
    ensures
        route_length(from, p.take(c + 1)) == route_length(from, p.take(c)) + prev(from, p, c).distance(p[c]),
{
    assert(p.take(c + 1).drop_last() =~= p.take(c));
    assert(prev(from, p.take(c + 1), c) == prev(from, p, c));
}

proof fn lemma_route_ok_tail(position: Position, path: Seq<Position>)
    requires
        path.len() > 0,
        forall|i: int| 0 <= i < path.len() ==> grid_step(#[trigger] prev(position, path, i), path[i]),
    ensures
        forall|i: int|
            0 <= i < path.len() - 1 ==> grid_step(#[trigger] prev(path[0], path.skip(1), i), path.skip(1)[i]),
{
    assert forall|i: int| 0 <= i < path.len() - 1 implies grid_step(#[trigger] prev(path[0], path.skip(1), i), path.skip(1)[i]) by {
        assert(prev(path[0], path.skip(1), i) == prev(position, path, i + 1));
    }
}

/// Moves an entity along `path` for one tick with `speed` units of distance.
///
/// Cells are taken from the front of `path`. Before each cell the entity
/// checks that no other entity holds it; a held cell stops the tick with
/// `Blocked`. A cell is entered once the whole distance to it is covered;
/// until then the distance covered is kept in `progress`. The entity's entry
/// in `obstacles` moves with it.
pub fn advance(
    position: &mut Position,
    progress: &mut u64,
    path: &mut Vec<Position>,
    speed: u64,
    obstacles: &mut Obstacles,
) -> (r: MoveOutcome)
    requires
        route_ok(*old(position), *old(progress), old(path)@),
        old(obstacles).wf(),
    ensures
        final(obstacles).wf(),
        route_ok(*final(position), *final(progress), final(path)@),
        tick_result(
            *old(position),
            *old(progress),
            old(path)@,
            speed,
            old(obstacles)@,
            *final(position),
            *final(progress),
            final(path)@,
            r,
            final(obstacles)@,
        ),
{
    if path.len() == 0 {
        assert(old(path)@.skip(0) =~= old(path)@);
        assert(old(path)@.take(0) =~= Seq::<Position>::empty());
        return MoveOutcome::ArrivedEmpty;
    }
    let ghost origin = *old(position);
    let ghost route = old(path)@;
    let ghost pr0 = *old(progress);
    let n0 = path.len();
    obstacles.remove(*position);
    let ghost others = obstacles@;
    let mut budget = speed;
    let mut outcome = MoveOutcome::Advanced;
    let mut c: usize = 0;
    assert(route.take(0) =~= Seq::<Position>::empty());
    assert(route.skip(0) =~= route);
    while path.len() > 0 && budget > 0
        invariant_except_break
            outcome == MoveOutcome::Advanced,
        invariant
            obstacles.wf(),
            obstacles@ == others,
            others == old(obstacles)@.remove(origin),
            0 <= c <= route.len(),
            path@ == route.skip(c as int),
            *position == prev(origin, route, c as int),
            route_ok(*position, *progress, path@),
            budget <= speed,
            route_length(origin, route.take(c as int)) + *progress - pr0 == speed - budget,
            forall|j: int| 0 <= j < c ==> !others.contains(#[trigger] route[j]),
            c == 0 ==> *progress >= pr0,
            c == 0 ==> *progress == pr0 || budget == 0,
            c > 0 ==> *progress == 0 || budget == 0,
            (c > 0 && *progress > 0) || (c == 0 && *progress > pr0) ==> path@.len() > 0 && !others.contains(path@[0]),
            c > 0 ==> *position != origin ==> !old(obstacles)@.contains(*position),
            route.len() > 0,
            route.len() == n0,
        ensures
            outcome != MoveOutcome::ArrivedEmpty,
            outcome == MoveOutcome::Advanced ==> budget == 0 || path@.len() == 0,
            outcome == MoveOutcome::Blocked ==> path@.len() > 0 && others.contains(path@[0]) && budget > 0
                && (c == 0 ==> *progress == pr0) && (c > 0 ==> *progress == 0),
            obstacles.wf(),
            obstacles@ == others,
            0 <= c <= route.len(),
            path@ == route.skip(c as int),
            *position == prev(origin, route, c as int),
            route_ok(*position, *progress, path@),
            budget <= speed,
            route_length(origin, route.take(c as int)) + *progress - pr0 == speed - budget,
            forall|j: int| 0 <= j < c ==> !others.contains(#[trigger] route[j]),
            c > 0 ==> *position != origin ==> !old(obstacles)@.contains(*position),
            (c > 0 && *progress > 0) || (c == 0 && *progress > pr0) ==> path@.len() > 0 && !others.contains(path@[0]),
            c == 0 ==> *progress >= pr0,
        decreases route.len() - c, budget,
    {
        let next = path[0];
        if obstacles.contains(next) {
            outcome = MoveOutcome::Blocked;
            break;
        }
        let length = position.get_distance_from(&next);
        let need = length - *progress;
        if budget >= need {
            proof {
                lemma_route_length_step(origin, route, c as int);
                assert(route[c as int] == next);
                lemma_route_ok_tail(*position, path@);
                assert(route.skip(c as int).skip(1) =~= route.skip(c as int + 1));
            }
            budget = budget - need;
            *progress = 0;
            *position = next;
            path.remove(0);
            c = c + 1;
            proof {
                assert(path@ =~= route.skip(c as int));
                if path@.len() > 0 {
                    assert(path@[0] == route[c as int]);
                    assert(prev(origin, route, c as int) == route[c as int - 1]);
                    assert(prev(*position, path@, 0) == *position);
                }
            }
        } else {
            *progress = *progress + budget;
            budget = 0;
        }
    }
    obstacles.insert(*position);
    proof {
        assert(old(path)@.len() - path@.len() == c);
    }
    outcome
}

/// The obstacle set stays in step with the entities: when it holds exactly the
/// cells of all entities, one per entity, it still does after one of them
/// advances (its entry moves from its old cell to a cell that was free, or
/// stays where it was).
pub proof fn lemma_occupancy_kept(
    cells: Seq<Position>,
    i: int,
    before: Set<Position>,
    after: Set<Position>,
    moved_to: Position,
)
    requires
        cells.no_duplicates(),
        before == cells.to_set(),
        0 <= i < cells.len(),
        after == before.remove(cells[i]).insert(moved_to),
        moved_to != cells[i] ==> !before.contains(moved_to),
    ensures
        cells.update(i, moved_to).no_duplicates(),
        after == cells.update(i, moved_to).to_set(),
        after.len() == cells.len(),
{
    let moved = cells.update(i, moved_to);
    assert forall|a: int, b: int| 0 <= a < moved.len() && 0 <= b < moved.len() && a != b implies moved[a] != moved[b] by {
        if a == i && moved_to != cells[i] {
            assert(before.contains(cells[b]));
        } else if b == i && moved_to != cells[i] {
            assert(before.contains(cells[a]));
        }
    }
    assert forall|p: Position| after.contains(p) <==> moved.to_set().contains(p) by {
        if after.contains(p) && p != moved_to {
            assert(cells.contains(p));
            let j = choose|j: int| 0 <= j < cells.len() && cells[j] == p;
            assert(j != i);
            assert(moved[j] == p);
        }
        if p == moved_to {
            assert(moved[i] == p);
        }
        if moved.to_set().contains(p) && p != moved_to {
            assert(moved.contains(p));
            let j = choose|j: int| 0 <= j < moved.len() && moved[j] == p;
            assert(j != i);
            assert(cells[j] == p);
        }
    }
    assert(after =~= moved.to_set());
    moved.unique_seq_to_set();
}

/// Entity `a` moves before entity `b`: its remaining path is shorter, or as
/// long and `a` comes first.
pub open spec fn moves_before(lengths: Seq<usize>, a: int, b: int) -> bool {
    lengths[a] < lengths[b] || (lengths[a] == lengths[b] && a < b)
}

/// `order` lists every index of `lengths` once, shortest remaining path
/// first, equal lengths in index order.
pub open spec fn is_movement_order(lengths: Seq<usize>, order: Seq<usize>) -> bool {
    &&& order.len() == lengths.len()
    &&& forall|i: int| 0 <= i < order.len() ==> #[trigger] order[i] < lengths.len()
    &&& order.no_duplicates()
    &&& forall|i: int, j: int|
        0 <= i < j < order.len() ==> moves_before(lengths, #[trigger] order[i] as int, #[trigger] order[j] as int)
    &&& forall|j: usize| j < lengths.len() ==> order.contains(j)
}

/// The order in which entities move during a tick: by remaining path length,
/// shortest first, equal lengths in their given order.
pub fn movement_order(lengths: &Vec<usize>) -> (order: Vec<usize>)
    ensures
        is_movement_order(lengths@, order@),
{
    let mut order: Vec<usize> = Vec::new();
    let mut e: usize = 0;
    while e < lengths.len()
        invariant
            0 <= e <= lengths@.len(),
            order@.len() == e,
            forall|i: int| 0 <= i < order@.len() ==> #[trigger] order@[i] < e,
            order@.no_duplicates(),
            forall|i: int, j: int| 0 <= i < j < order@.len() ==> moves_before(lengths@, #[trigger] order@[i] as int, #[trigger] order@[j] as int),
            forall|j: usize| j < e ==> order@.contains(j),
        decreases lengths@.len() - e,
    {
        let len_e = lengths[e];
        let mut pos: usize = 0;
        while pos < order.len() && lengths[order[pos]] <= len_e
            invariant
                0 <= pos <= order@.len(),
                forall|i: int| 0 <= i < order@.len() ==> #[trigger] order@[i] < e,
                e < lengths@.len(),
                len_e == lengths@[e as int],
                forall|i: int| 0 <= i < pos ==> lengths@[#[trigger] order@[i] as int] <= len_e,
            decreases order@.len() - pos,
        {
            pos += 1;
        }
        proof {
            assert forall|i: int| pos <= i < order@.len() implies lengths@[#[trigger] order@[i] as int] > len_e by {
                if pos < order@.len() && i > pos {
                    assert(moves_before(lengths@, order@[pos as int] as int, order@[i] as int));
                }
            }
        }
        let ghost old_order = order@;
        order.insert(pos, e);
        proof {
            let o = order@;
            assert(o =~= old_order.take(pos as int).push(e) + old_order.skip(pos as int));
            assert forall|j: usize| j < e + 1 implies o.contains(j) by {
                if j == e {
                    assert(o[pos as int] == e);
                } else {
                    assert(old_order.contains(j));
                    let q = choose|q: int| 0 <= q < old_order.len() && old_order[q] == j;
                    if q < pos {
                        assert(o[q] == j);
                    } else {
                        assert(o[q + 1] == j);
                    }
                }
            }
            assert forall|i: int| 0 <= i < o.len() implies #[trigger] o[i] < e + 1 by {
                if i < pos {
                    assert(o[i] == old_order[i]);
                } else if i > pos {
                    assert(o[i] == old_order[i - 1]);
                }
            }
            assert forall|a: int, b: int| 0 <= a < o.len() && 0 <= b < o.len() && a != b implies o[a] != o[b] by {
                if a != pos && b != pos {
                    let a2 = if a < pos { a } else { a - 1 };
                    let b2 = if b < pos { b } else { b - 1 };
                    assert(o[a] == old_order[a2]);
                    assert(o[b] == old_order[b2]);
                } else if a == pos {
                    let b2 = if b < pos { b } else { b - 1 };
                    assert(o[b] == old_order[b2]);
                } else {
                    let a2 = if a < pos { a } else { a - 1 };
                    assert(o[a] == old_order[a2]);
                }
            }
            assert forall|i: int, j: int| 0 <= i < j < o.len() implies moves_before(lengths@, #[trigger] o[i] as int, #[trigger] o[j] as int) by {
                let i2 = if i < pos { i } else { i - 1 };
                let j2 = if j < pos { j } else { j - 1 };
                if i != pos && j != pos {
                    assert(o[i] == old_order[i2]);
                    assert(o[j] == old_order[j2]);
                } else if i == pos {
                    assert(o[j] == old_order[j2]);
                } else {
                    assert(o[i] == old_order[i2]);
                }
            }
        }
        e += 1;
    }
    order
}

/// One of the first `k` entries of `order` is `j`.
pub open spec fn processed(order: Seq<usize>, k: int, j: int) -> bool {
    exists|q: int| 0 <= q < k && order[q] == j
}

/// An entity that walks along a path.
pub struct Mover {
    pub position: Position,
    /// Distance already covered toward the first cell of `path`.
    pub progress: u64,
    /// Cells still to enter, next first.
    pub path: Vec<Position>,
    /// Distance the entity may cover in one tick.
    pub speed: u64,
}

proof fn lemma_route_length_monotone(from: Position, p: Seq<Position>, j: int, k: int)
    requires
        0 <= j <= k <= p.len(),
    ensures
        route_length(from, p.take(j)) <= route_length(from, p.take(k)),
    decreases k - j,
{
    if j < k {
        lemma_route_length_step(from, p, k - 1);
        lemma_route_length_monotone(from, p, j, k - 1);
    }
}

proof fn lemma_route_length_covers(from: Position, p: Seq<Position>, c: int)
    requires
        0 <= c <= p.len(),
    ensures
        from.distance(prev(from, p, c)) <= route_length(from, p.take(c)),
    decreases c,
{
    if c > 0 {
        lemma_route_length_step(from, p, c - 1);
        lemma_route_length_covers(from, p, c - 1);
    } else {
        assert(p.take(0) =~= Seq::<Position>::empty());
    }
}

/// In one tick an entity's cell moves, counted per axis, by no more than the
/// tick's budget and the distance it had already covered; with nothing
/// covered beforehand, by no more than the budget.
pub proof fn lemma_cells_moved_within_budget(
    pos0: Position,
    prog0: u64,
    path0: Seq<Position>,
    speed: u64,
    obs0: Set<Position>,
    pos1: Position,
    prog1: u64,
    path1: Seq<Position>,
    r: MoveOutcome,
    obs1: Set<Position>,
)
    requires
        tick_result(pos0, prog0, path0, speed, obs0, pos1, prog1, path1, r, obs1),
    ensures
        pos0.distance(pos1) + prog1 <= speed + prog0,
        prog0 == 0 ==> pos0.distance(pos1) <= speed,
{
    lemma_route_length_covers(pos0, path0, path0.len() - path1.len());
}

/// Two movers in a corridor both head for the free cell `c`, each one unit
/// away from it at speed one. The one with the shorter remaining path moves
/// first and enters `c`; the other then finds `c` held, reports `Blocked`
/// and keeps its cell, path and progress.
pub proof fn lemma_shorter_path_wins_the_cell(
    ms0: Seq<Mover>,
    ms1: Seq<Mover>,
    outcomes: Seq<MoveOutcome>,
    order: Seq<usize>,
    states: Seq<Set<Position>>,
    a: int,
    b: int,
    c: Position,
)
    requires
        ms0.len() == 2,
        ms1.len() == 2,
        0 <= a < 2,
        0 <= b < 2,
        a != b,
        tick_trace(ms0, ms1, outcomes, order, states),
        movers_placed(ms0, states[0]),
        forall|i: int| 0 <= i < 2 ==> route_ok(#[trigger] ms0[i].position, ms0[i].progress, ms0[i].path@),
        forall|i: int| 0 <= i < 2 ==> route_ok(#[trigger] ms1[i].position, ms1[i].progress, ms1[i].path@),
        !states[0].contains(c),
        ms0[a].path@.len() > 0,
        ms0[a].path@.len() < ms0[b].path@.len(),
        ms0[b].path@.len() <= usize::MAX,
        ms0[a].path@[0] == c,
        ms0[b].path@[0] == c,
        ms0[a].progress == 0,
        ms0[a].speed == 1,
        ms0[a].position.distance(c) == 1,
        ms0[b].speed > 0,
    ensures
        outcomes[a] == MoveOutcome::Advanced,
        ms1[a].position == c,
        outcomes[b] == MoveOutcome::Blocked,
        ms1[b].position == ms0[b].position,
        ms1[b].path@ == ms0[b].path@,
        ms1[b].progress == ms0[b].progress,
{
    let lengths = path_lengths(ms0);
    assert(lengths[a] < lengths[b]);
    assert(order[0] == a) by {
        assert(moves_before(lengths, order[0] as int, order[1] as int));
        assert(order[0] != order[1]);
        if order[0] != a {
            assert(order[0] == b);
            assert(order[1] == a);
        }
    }
    assert(order[1] == b) by {
        assert(order[0] != order[1]);
    }
    assert(mover_ticked(ms0[a], ms1[a], outcomes[a], states[0], states[1]));
    assert(mover_ticked(ms0[b], ms1[b], outcomes[b], states[1], states[2]));
    let (ma, mb) = (ms0[a], ms0[b]);
    let pa = ma.path@;
    let ca = pa.len() - ms1[a].path@.len();
    lemma_route_length_step(ma.position, pa, 0);
    assert(pa.take(0) =~= Seq::<Position>::empty());
    assert(prev(ma.position, pa, 0) == ma.position);
    assert(route_length(ma.position, pa.take(1)) == 1);
    if ca >= 2 {
        lemma_route_length_step(ma.position, pa, 1);
        assert(prev(ma.position, pa, 1) == pa[0]);
        assert(grid_step(prev(ma.position, pa, 1), pa[1]));
        lemma_route_length_monotone(ma.position, pa, 2, ca);
    }
    if ca == 0 {
        assert(ms1[a].path@ == pa);
    }
    assert(ca == 1);
    assert(ms1[a].position == c);
    assert(outcomes[a] == MoveOutcome::Advanced);
    assert(states[1] == states[0].remove(ma.position).insert(c));
    assert(mb.position != c) by {
        assert(states[0].contains(ms0[b].position));
    }
    let others_b = states[1].remove(mb.position);
    assert(others_b.contains(c));
    let cb = mb.path@.len() - ms1[b].path@.len();
    if cb > 0 {
        assert(!others_b.contains(mb.path@[0]));
    }
    assert(cb == 0);
    assert(ms1[b].path@ == mb.path@.skip(0));
    assert(mb.path@.skip(0) =~= mb.path@);
    assert(mb.path@.take(0) =~= Seq::<Position>::empty());
}

/// Remaining path length of each mover.
pub open spec fn path_lengths(movers: Seq<Mover>) -> Seq<usize> {
    Seq::new(movers.len(), |i: int| movers[i].path@.len() as usize)
}

/// No two movers stand in the same cell, and the obstacle set holds each of
/// their cells.
pub open spec fn movers_placed(movers: Seq<Mover>, obs: Set<Position>) -> bool {
    &&& forall|i: int| 0 <= i < movers.len() ==> obs.contains(#[trigger] movers[i].position)
    &&& forall|i: int, j: int|
        0 <= i < movers.len() && 0 <= j < movers.len() && i != j ==> #[trigger] movers[i].position
            != #[trigger] movers[j].position
}

/// Mover `m0` became `m1` by one tick of movement with its own speed, the
/// obstacles going from `obs0` to `obs1`.
pub open spec fn mover_ticked(m0: Mover, m1: Mover, r: MoveOutcome, obs0: Set<Position>, obs1: Set<Position>) -> bool {
    &&& m1.speed == m0.speed
    &&& tick_result(m0.position, m0.progress, m0.path@, m0.speed, obs0, m1.position, m1.progress, m1.path@, r, obs1)
}

/// The movers `ms0` became `ms1` by taking their turns in `order`, shortest
/// remaining path first; `states[k]` is the obstacle set at the `k`-th turn.
pub open spec fn tick_trace(
    ms0: Seq<Mover>,
    ms1: Seq<Mover>,
    outcomes: Seq<MoveOutcome>,
    order: Seq<usize>,
    states: Seq<Set<Position>>,
) -> bool {
    &&& is_movement_order(path_lengths(ms0), order)
    &&& states.len() == ms0.len() + 1
    &&& forall|k: int|
        0 <= k < order.len() ==> mover_ticked(
            ms0[order[k] as int],
            ms1[order[k] as int],
            outcomes[order[k] as int],
            #[trigger] states[k],
            states[k + 1],
        )
}

/// The cells of the movers that took the first `k` turns of `order`.
pub open spec fn turn_cells(ms: Seq<Mover>, order: Seq<usize>, k: int) -> Set<Position> {
    Set::new(|p: Position| exists|q: int| 0 <= q < k && #[trigger] ms[order[q] as int].position == p)
}

/// The cells of all movers.
pub open spec fn cells_of(ms: Seq<Mover>) -> Set<Position> {
    Set::new(|p: Position| exists|i: int| 0 <= i < ms.len() && #[trigger] ms[i].position == p)
}

/// Moves each entity that has a path, one tick at a time.
pub struct MovementSystem;

impl MovementSystem {
    /// Advances every mover for one tick, those with the shortest remaining
    /// path first, each against the obstacles as the earlier turns left them,
    /// and reports each one's outcome at its own index.
    pub fn run(&mut self, movers: &mut Vec<Mover>, obstacles: &mut Obstacles) -> (outcomes: Vec<MoveOutcome>)
        requires
            old(obstacles).wf(),
            movers_placed(old(movers)@, old(obstacles)@),
            forall|i: int| 0 <= i < old(movers)@.len() ==> route_ok(#[trigger] old(movers)@[i].position, old(movers)@[i].progress, old(movers)@[i].path@),
        ensures
            final(obstacles).wf(),
            outcomes@.len() == final(movers)@.len(),
            final(movers)@.len() == old(movers)@.len(),
            exists|order: Seq<usize>, states: Seq<Set<Position>>|
                #[trigger] tick_trace(old(movers)@, final(movers)@, outcomes@, order, states)
                    && states[0] == old(obstacles)@ && states[old(movers)@.len() as int] == final(obstacles)@,
            final(obstacles)@ == old(obstacles)@.difference(cells_of(old(movers)@)).union(cells_of(final(movers)@)),
            movers_placed(final(movers)@, final(obstacles)@),
            forall|i: int| 0 <= i < final(movers)@.len() ==> route_ok(#[trigger] final(movers)@[i].position, final(movers)@[i].progress, final(movers)@[i].path@),
    {
        let n = movers.len();
        let mut lengths: Vec<usize> = Vec::new();
        let mut i: usize = 0;
        while i < n
            invariant
                n == movers@.len(),
                movers@ == old(movers)@,
                0 <= i <= n,
                lengths@.len() == i,
                forall|j: int| 0 <= j < i ==> #[trigger] lengths@[j] == movers@[j].path@.len(),
            decreases n - i,
        {
            lengths.push(movers[i].path.len());
            i += 1;
        }
        assert(lengths@ =~= path_lengths(old(movers)@));
        let order = movement_order(&lengths);
        let mut outcomes: Vec<MoveOutcome> = Vec::new();
        let mut i: usize = 0;
        while i < n
            invariant
                0 <= i <= n,
                outcomes@.len() == i,
            decreases n - i,
        {
            outcomes.push(MoveOutcome::ArrivedEmpty);
            i += 1;
        }
        let ghost ms0 = old(movers)@;
        let ghost obs0 = old(obstacles)@;
        let ghost mut states: Seq<Set<Position>> = seq![obs0];
        let mut k: usize = 0;
        proof {
            assert(turn_cells(ms0, order@, 0) =~= Set::<Position>::empty());
            assert(turn_cells(movers@, order@, 0) =~= Set::<Position>::empty());
            assert(obs0.difference(Set::<Position>::empty()).union(Set::<Position>::empty()) =~= obs0);
        }
        while k < n
            invariant
                n == movers@.len(),
                n == ms0.len(),
                ms0 == old(movers)@,
                obs0 == old(obstacles)@,
                n == outcomes@.len(),
                is_movement_order(path_lengths(ms0), order@),
                0 <= k <= n,
                obstacles.wf(),
                movers_placed(movers@, obstacles@),
                forall|j: int| 0 <= j < n ==> route_ok(#[trigger] movers@[j].position, movers@[j].progress, movers@[j].path@),
                forall|j: int| 0 <= j < n && !#[trigger] processed(order@, k as int, j) ==> movers@[j] == ms0[j],
                states.len() == k + 1,
                states[0] == obs0,
                states[k as int] == obstacles@,
                forall|q: int|
                    0 <= q < k ==> mover_ticked(
                        ms0[order@[q] as int],
                        movers@[order@[q] as int],
                        outcomes@[order@[q] as int],
                        #[trigger] states[q],
                        states[q + 1],
                    ),
                obstacles@ == obs0.difference(turn_cells(ms0, order@, k as int)).union(turn_cells(movers@, order@, k as int)),
            decreases n - k,
        {
            let i = order[k];
            let ghost before = movers@;
            let ghost obs_before = obstacles@;
            let m = &mut movers[i];
            let r = advance(&mut m.position, &mut m.progress, &mut m.path, m.speed, obstacles);
            outcomes.set(i, r);
            proof {
                assert(order@[k as int] == i);
                assert(!processed(order@, k as int, i as int)) by {
                    if processed(order@, k as int, i as int) {
                        let q = choose|q: int| 0 <= q < k && order@[q] == i;
                        assert(order@[q] == order@[k as int]);
                    }
                }
                assert(before[i as int] == ms0[i as int]);
                let p_i = ms0[i as int].position;
                let q_i = movers@[i as int].position;
                assert(obstacles@ == obs_before.remove(p_i).insert(q_i)) by {
                    if r == MoveOutcome::ArrivedEmpty {
                        assert(obs_before.contains(before[i as int].position));
                        assert(obs_before.remove(p_i).insert(q_i) =~= obs_before);
                    }
                }
                let states_next = states.push(obstacles@);
                assert forall|j: int| 0 <= j < n && !#[trigger] processed(order@, k + 1, j) implies movers@[j] == ms0[j] by {
                    assert(!processed(order@, k as int, j)) by {
                        if processed(order@, k as int, j) {
                            let q = choose|q: int| 0 <= q < k && order@[q] == j;
                            assert(0 <= q < k + 1 && order@[q] == j);
                        }
                    }
                    if j == i {
                        assert(0 <= k < k + 1 && order@[k as int] == j);
                    }
                    assert(movers@[j] == before[j]);
                }
                assert forall|q: int| 0 <= q < k + 1 implies mover_ticked(
                    ms0[order@[q] as int],
                    movers@[order@[q] as int],
                    outcomes@[order@[q] as int],
                    #[trigger] states_next[q],
                    states_next[q + 1],
                ) by {
                    if q < k {
                        assert(order@[q] != order@[k as int]);
                        assert(states_next[q] == states[q]);
                        assert(states_next[q + 1] == states[q + 1]);
                        assert(mover_ticked(ms0[order@[q] as int], before[order@[q] as int], outcomes@[order@[q] as int], states[q], states[q + 1]));
                    } else {
                        assert(states_next[q] == obs_before);
                    }
                }
                let a0 = turn_cells(ms0, order@, k as int);
                let b0 = turn_cells(before, order@, k as int);
                let a1 = turn_cells(ms0, order@, k + 1);
                let b1 = turn_cells(movers@, order@, k + 1);
                assert(!b0.contains(p_i)) by {
                    if b0.contains(p_i) {
                        let q = choose|q: int| 0 <= q < k && #[trigger] before[order@[q] as int].position == p_i;
                        assert(order@[q] != order@[k as int]);
                        assert(before[i as int].position == p_i);
                    }
                }
                assert(a1 =~= a0.insert(p_i)) by {
                    assert forall|p: Position| a1.contains(p) implies a0.insert(p_i).contains(p) by {
                        let q = choose|q: int| 0 <= q < k + 1 && #[trigger] ms0[order@[q] as int].position == p;
                        if q < k {
                            assert(a0.contains(p));
                        }
                    }
                    assert forall|p: Position| a0.insert(p_i).contains(p) implies a1.contains(p) by {
                        if p == p_i {
                            assert(ms0[order@[k as int] as int].position == p);
                        } else {
                            let q = choose|q: int| 0 <= q < k && #[trigger] ms0[order@[q] as int].position == p;
                            assert(0 <= q < k + 1);
                        }
                    }
                }
                assert(b1 =~= b0.insert(q_i)) by {
                    assert forall|p: Position| b1.contains(p) implies b0.insert(q_i).contains(p) by {
                        let q = choose|q: int| 0 <= q < k + 1 && #[trigger] movers@[order@[q] as int].position == p;
                        if q < k {
                            assert(order@[q] != order@[k as int]);
                            assert(before[order@[q] as int].position == p);
                            assert(b0.contains(p));
                        }
                    }
                    assert forall|p: Position| b0.insert(q_i).contains(p) implies b1.contains(p) by {
                        if p == q_i {
                            assert(movers@[order@[k as int] as int].position == p);
                        } else {
                            let q = choose|q: int| 0 <= q < k && #[trigger] before[order@[q] as int].position == p;
                            assert(order@[q] != order@[k as int]);
                            assert(movers@[order@[q] as int].position == p);
                            assert(0 <= q < k + 1);
                        }
                    }
                }
                assert(obstacles@ =~= obs0.difference(a1).union(b1));
                states = states_next;
            }
            k += 1;
        }
        proof {
            assert(turn_cells(ms0, order@, n as int) =~= cells_of(ms0)) by {
                assert forall|p: Position| cells_of(ms0).contains(p) implies turn_cells(ms0, order@, n as int).contains(p) by {
                    let j = choose|j: int| 0 <= j < ms0.len() && #[trigger] ms0[j].position == p;
                    assert(order@.contains(j as usize));
                    let q = choose|q: int| 0 <= q < order@.len() && order@[q] == j as usize;
                    assert(ms0[order@[q] as int].position == p);
                }
                assert forall|p: Position| turn_cells(ms0, order@, n as int).contains(p) implies cells_of(ms0).contains(p) by {
                    let q = choose|q: int| 0 <= q < n && #[trigger] ms0[order@[q] as int].position == p;
                    assert(0 <= order@[q] < n);
                }
            }
            assert(turn_cells(movers@, order@, n as int) =~= cells_of(movers@)) by {
                assert forall|p: Position| cells_of(movers@).contains(p) implies turn_cells(movers@, order@, n as int).contains(p) by {
                    let j = choose|j: int| 0 <= j < movers@.len() && #[trigger] movers@[j].position == p;
                    assert(order@.contains(j as usize));
                    let q = choose|q: int| 0 <= q < order@.len() && order@[q] == j as usize;
                    assert(movers@[order@[q] as int].position == p);
                }
                assert forall|p: Position| turn_cells(movers@, order@, n as int).contains(p) implies cells_of(movers@).contains(p) by {
                    let q = choose|q: int| 0 <= q < n && #[trigger] movers@[order@[q] as int].position == p;
                    assert(0 <= order@[q] < n);
                }
            }
            assert(tick_trace(ms0, movers@, outcomes@, order@, states));
        }
        outcomes
    }
}

} // verus!
