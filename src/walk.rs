use vstd::prelude::*;
use vstd::set_lib::{lemma_int_range, lemma_len_subset, set_int_range};

use crate::components::Position;
use crate::grid::{direction_to, Grid};

verus! {

/// `p` leads from `from` to `to`, one allowed move per element; `from` itself
/// is not in `p`.
pub open spec fn is_walk(g: Grid, obs: Set<Position>, from: Position, to: Position, p: Seq<Position>) -> bool
    decreases p.len(),
{
    if p.len() == 0 {
        from == to
    } else {
        g.step_cost(obs, from, p[0]) > 0 && is_walk(g, obs, p[0], to, p.skip(1))
    }
}

/// Sum of the costs of the moves of `p`, starting at `from`.
pub open spec fn walk_cost(g: Grid, obs: Set<Position>, from: Position, p: Seq<Position>) -> nat
    decreases p.len(),
{
    if p.len() == 0 {
        0
    } else {
        g.step_cost(obs, from, p[0]) + walk_cost(g, obs, p[0], p.skip(1))
    }
}

pub open spec fn reachable_within(g: Grid, obs: Set<Position>, from: Position, to: Position, budget: int) -> bool {
    exists|p: Seq<Position>| #[trigger] is_walk(g, obs, from, to, p) && walk_cost(g, obs, from, p) <= budget
}

/// No walk from `from` to `to` costs less than `p`.
pub open spec fn is_shortest(g: Grid, obs: Set<Position>, from: Position, to: Position, p: Seq<Position>) -> bool {
    &&& is_walk(g, obs, from, to, p)
    &&& forall|q: Seq<Position>| #[trigger]
        is_walk(g, obs, from, to, q) ==> walk_cost(g, obs, from, p) <= walk_cost(g, obs, from, q)
}

/// No move tried before `p`'s first move in the neighbour order starts a walk
/// to `to` as cheap as `p`.
pub open spec fn first_choice(g: Grid, obs: Set<Position>, from: Position, to: Position, p: Seq<Position>) -> bool {
    forall|k: int|
        #![trigger g.successor(obs, from, k)]
        0 <= k < direction_to(from, p[0]) ==> match g.successor(obs, from, k) {
            Some((m, w)) => !reachable_within(g, obs, m, to, walk_cost(g, obs, from, p) - w),
            None => true,
        }
}

/// Every move of `p` is the first in the neighbour order that keeps the rest
/// of the walk as cheap as it is.
pub open spec fn is_canonical(g: Grid, obs: Set<Position>, from: Position, to: Position, p: Seq<Position>) -> bool
    decreases p.len(),
{
    if p.len() == 0 {
        true
    } else {
        first_choice(g, obs, from, to, p) && is_canonical(g, obs, p[0], to, p.skip(1))
    }
}

/// The cell before `p[i]` on a walk from `from`.
pub open spec fn prev(from: Position, p: Seq<Position>, i: int) -> Position {
    if i == 0 {
        from
    } else {
        p[i - 1]
    }
}

/// A bound on the cost of a cheapest walk inside the grid: two per cell.
pub open spec fn cost_bound(g: Grid) -> int {
    2 * g.cell_count()
}

/// A walk with a move in front.
pub proof fn lemma_walk_prepend(g: Grid, obs: Set<Position>, from: Position, to: Position, p: Seq<Position>, a: Position)
    requires
        is_walk(g, obs, from, to, p),
        g.step_cost(obs, a, from) > 0,
    ensures
        is_walk(g, obs, a, to, seq![from] + p),
        walk_cost(g, obs, a, seq![from] + p) == g.step_cost(obs, a, from) + walk_cost(g, obs, from, p),
{
    assert((seq![from] + p).skip(1) =~= p);
}

/// Every move of a walk is allowed, and no cell that it enters is held.
pub proof fn lemma_walk_steps(g: Grid, obs: Set<Position>, from: Position, to: Position, p: Seq<Position>)
    requires
        is_walk(g, obs, from, to, p),
    ensures
        forall|i: int|
            0 <= i < p.len() ==> g.step_cost(obs, #[trigger] prev(from, p, i), p[i]) > 0 && !obs.contains(p[i])
                && g.in_grid(p[i]),
        p.len() > 0 ==> p.last() == to,
    decreases p.len(),
{
    reveal_with_fuel(is_walk, 2);
    if p.len() > 0 {
        lemma_walk_steps(g, obs, p[0], to, p.skip(1));
        g.lemma_step_successor(obs, from, p[0]);
        if p.len() == 1 {
            assert(p.skip(1).len() == 0);
            assert(p[0] == to);
            assert(p.last() == p[0]);
        } else {
            assert(p.skip(1).last() == p.last());
        }
        assert forall|i: int| 0 <= i < p.len() implies g.step_cost(obs, #[trigger] prev(from, p, i), p[i]) > 0
            && !obs.contains(p[i]) && g.in_grid(p[i]) by {
            if i > 0 {
                assert(prev(p[0], p.skip(1), i - 1) == prev(from, p, i));
                assert(p.skip(1)[i - 1] == p[i]);
            }
        }
    }
}

/// A walk that costs nothing makes no move.
pub proof fn lemma_walk_cost_zero(g: Grid, obs: Set<Position>, from: Position, to: Position, p: Seq<Position>)
    requires
        is_walk(g, obs, from, to, p),
        p.len() > 0,
    ensures
        walk_cost(g, obs, from, p) > 0,
{
}

/// What is left of a cheapest walk after its first move is a cheapest walk.
pub proof fn lemma_shortest_tail(g: Grid, obs: Set<Position>, from: Position, to: Position, p: Seq<Position>)
    requires
        is_shortest(g, obs, from, to, p),
        p.len() > 0,
    ensures
        is_shortest(g, obs, p[0], to, p.skip(1)),
{
    assert forall|q: Seq<Position>| #[trigger] is_walk(g, obs, p[0], to, q) implies walk_cost(g, obs, p[0], p.skip(1))
        <= walk_cost(g, obs, p[0], q) by {
        lemma_walk_prepend(g, obs, p[0], to, q, from);
        assert(is_walk(g, obs, from, to, seq![p[0]] + q));
    }
}

/// Two cheapest canonical walks between the same cells are the same walk.
pub proof fn lemma_canonical_unique(
    g: Grid,
    obs: Set<Position>,
    from: Position,
    to: Position,
    p: Seq<Position>,
    q: Seq<Position>,
)
    requires
        is_shortest(g, obs, from, to, p),
        is_canonical(g, obs, from, to, p),
        is_shortest(g, obs, from, to, q),
        is_canonical(g, obs, from, to, q),
    ensures
        p == q,
    decreases p.len(),
{
    assert(walk_cost(g, obs, from, p) == walk_cost(g, obs, from, q));
    if p.len() == 0 {
        if q.len() > 0 {
            lemma_walk_cost_zero(g, obs, from, to, q);
        }
        assert(p =~= q);
    } else if q.len() == 0 {
        lemma_walk_cost_zero(g, obs, from, to, p);
    } else {
        let ka = direction_to(from, p[0]);
        let kb = direction_to(from, q[0]);
        let wa = g.step_cost(obs, from, p[0]);
        let wb = g.step_cost(obs, from, q[0]);
        g.lemma_step_successor(obs, from, p[0]);
        g.lemma_step_successor(obs, from, q[0]);
        if ka < kb {
            assert(is_walk(g, obs, p[0], to, p.skip(1)));
            assert(reachable_within(g, obs, p[0], to, walk_cost(g, obs, from, q) - wa));
        } else if kb < ka {
            assert(is_walk(g, obs, q[0], to, q.skip(1)));
            assert(reachable_within(g, obs, q[0], to, walk_cost(g, obs, from, p) - wb));
        }
        assert(p[0] == q[0]);
        lemma_shortest_tail(g, obs, from, to, p);
        lemma_shortest_tail(g, obs, from, to, q);
        lemma_canonical_unique(g, obs, p[0], to, p.skip(1), q.skip(1));
        assert(p =~= seq![p[0]] + p.skip(1));
        assert(q =~= seq![q[0]] + q.skip(1));
    }
}

/// The cell where a walk `a` from `from` ends.
pub open spec fn end_of(from: Position, a: Seq<Position>) -> Position {
    if a.len() == 0 {
        from
    } else {
        a.last()
    }
}

proof fn lemma_walk_split(g: Grid, obs: Set<Position>, from: Position, to: Position, a: Seq<Position>, b: Seq<Position>)
    requires
        is_walk(g, obs, from, to, a + b),
    ensures
        is_walk(g, obs, from, end_of(from, a), a),
        is_walk(g, obs, end_of(from, a), to, b),
        walk_cost(g, obs, from, a + b) == walk_cost(g, obs, from, a) + walk_cost(g, obs, end_of(from, a), b),
    decreases a.len(),
{
    if a.len() == 0 {
        assert(a + b =~= b);
    } else {
        assert((a + b)[0] == a[0]);
        assert((a + b).skip(1) =~= a.skip(1) + b);
        lemma_walk_split(g, obs, a[0], to, a.skip(1), b);
        if a.len() == 1 {
            assert(a.skip(1).len() == 0);
        } else {
            assert(a.skip(1).last() == a.last());
        }
    }
}

proof fn lemma_walk_join(
    g: Grid,
    obs: Set<Position>,
    from: Position,
    mid: Position,
    to: Position,
    a: Seq<Position>,
    b: Seq<Position>,
)
    requires
        is_walk(g, obs, from, mid, a),
        is_walk(g, obs, mid, to, b),
    ensures
        is_walk(g, obs, from, to, a + b),
        walk_cost(g, obs, from, a + b) == walk_cost(g, obs, from, a) + walk_cost(g, obs, mid, b),
    decreases a.len(),
{
    if a.len() == 0 {
        assert(a + b =~= b);
    } else {
        assert((a + b)[0] == a[0]);
        assert((a + b).skip(1) =~= a.skip(1) + b);
        lemma_walk_join(g, obs, a[0], mid, to, a.skip(1), b);
    }
}

proof fn lemma_walk_cost_bound(g: Grid, obs: Set<Position>, from: Position, to: Position, p: Seq<Position>)
    requires
        is_walk(g, obs, from, to, p),
    ensures
        walk_cost(g, obs, from, p) <= 2 * p.len(),
    decreases p.len(),
{
    if p.len() > 0 {
        g.lemma_step_successor(obs, from, p[0]);
        g.lemma_successor_step(obs, from, direction_to(from, p[0]));
        lemma_walk_cost_bound(g, obs, p[0], to, p.skip(1));
    }
}

/// A walk that makes as many moves as the grid has cells passes some cell twice.
proof fn lemma_long_walk_repeats(g: Grid, obs: Set<Position>, from: Position, to: Position, p: Seq<Position>)
    requires
        is_walk(g, obs, from, to, p),
        p.len() > 0,
        p.len() >= g.cell_count(),
    ensures
        exists|i: int, j: int| 0 <= i < j <= p.len() && #[trigger] prev(from, p, i) == #[trigger] prev(from, p, j),
{
    lemma_walk_steps(g, obs, from, to, p);
    g.lemma_step_successor(obs, from, p[0]);
    let ns = seq![from] + p;
    assert forall|k: int| 0 <= k <= p.len() implies #[trigger] ns[k] == prev(from, p, k) && g.in_grid(ns[k]) by {
        if k > 0 {
            let kk = k - 1;
            assert(ns[k] == p[kk]);
            let pv = prev(from, p, kk);
            assert(g.step_cost(obs, pv, p[kk]) > 0 && !obs.contains(p[kk]) && g.in_grid(p[kk]));
        }
    }
    if !(exists|i: int, j: int| 0 <= i < j <= p.len() && #[trigger] prev(from, p, i) == #[trigger] prev(from, p, j)) {
        let idx = ns.map_values(|c: Position| g.index(c));
        assert(idx.no_duplicates()) by {
            assert forall|a: int, b: int| 0 <= a < idx.len() && 0 <= b < idx.len() && a != b implies idx[a] != idx[b] by {
                if idx[a] == idx[b] {
                    g.lemma_index_injective(ns[a], ns[b]);
                    if a < b {
                        assert(prev(from, p, a) == prev(from, p, b));
                    } else {
                        assert(prev(from, p, b) == prev(from, p, a));
                    }
                }
            }
        }
        idx.unique_seq_to_set();
        assert(idx.to_set().subset_of(set_int_range(0, g.cell_count()))) by {
            assert forall|v: int| idx.to_set().contains(v) implies set_int_range(0, g.cell_count()).contains(v) by {
                assert(idx.contains(v));
                let k = choose|k: int| 0 <= k < idx.len() && idx[k] == v;
                g.lemma_index_bounds(ns[k]);
            }
        }
        lemma_int_range(0, g.cell_count());
        lemma_len_subset(idx.to_set(), set_int_range(0, g.cell_count()));
    }
}

/// Whenever a walk exists, one exists that makes fewer moves than the grid
/// has cells and costs no more.
proof fn lemma_short_walk(g: Grid, obs: Set<Position>, from: Position, to: Position, p: Seq<Position>)
    requires
        is_walk(g, obs, from, to, p),
        g.in_grid(to),
    ensures
        exists|q: Seq<Position>| #[trigger]
            is_walk(g, obs, from, to, q) && walk_cost(g, obs, from, q) <= walk_cost(g, obs, from, p) && q.len()
                < g.cell_count(),
    decreases p.len(),
{
    g.lemma_index_bounds(to);
    if p.len() >= g.cell_count() {
        lemma_long_walk_repeats(g, obs, from, to, p);
        let (i, j) = choose|i: int, j: int| 0 <= i < j <= p.len() && #[trigger] prev(from, p, i) == #[trigger] prev(from, p, j);
        let a = p.take(i);
        let m = p.subrange(i, j);
        let b = p.skip(j);
        assert(p =~= a + (m + b));
        lemma_walk_split(g, obs, from, to, a, m + b);
        assert(end_of(from, a) == prev(from, p, i));
        lemma_walk_split(g, obs, end_of(from, a), to, m, b);
        assert(end_of(end_of(from, a), m) == prev(from, p, j));
        lemma_walk_join(g, obs, from, prev(from, p, i), to, a, b);
        let q0 = a + b;
        lemma_short_walk(g, obs, from, to, q0);
    } else {
        assert(is_walk(g, obs, from, to, p));
    }
}

/// Some walk leads from `from` to `to`.
pub open spec fn reachable(g: Grid, obs: Set<Position>, from: Position, to: Position) -> bool {
    exists|p: Seq<Position>| #[trigger] is_walk(g, obs, from, to, p)
}

/// A target that can be reached at all can be reached within the cost bound.
pub proof fn lemma_reachable_within_bound(g: Grid, obs: Set<Position>, from: Position, to: Position)
    requires
        reachable(g, obs, from, to),
        g.in_grid(to),
    ensures
        reachable_within(g, obs, from, to, cost_bound(g)),
{
    let p = choose|p: Seq<Position>| #[trigger] is_walk(g, obs, from, to, p);
    lemma_short_walk(g, obs, from, to, p);
    let q = choose|q: Seq<Position>| #[trigger]
        is_walk(g, obs, from, to, q) && walk_cost(g, obs, from, q) <= walk_cost(g, obs, from, p) && q.len()
            < g.cell_count();
    lemma_walk_cost_bound(g, obs, from, to, q);
}

/// A walk to a cell of the grid starts in the grid.
pub proof fn lemma_walk_starts_in_grid(g: Grid, obs: Set<Position>, from: Position, to: Position, q: Seq<Position>)
    requires
        is_walk(g, obs, from, to, q),
        g.in_grid(to),
    ensures
        g.in_grid(from),
{
    if q.len() > 0 {
        g.lemma_step_successor(obs, from, q[0]);
    }
}

} // verus!
