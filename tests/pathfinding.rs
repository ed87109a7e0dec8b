use elf_bastille::components::Position;
use elf_bastille::grid::{Grid, Terrain};
use elf_bastille::obstacles::Obstacles;
use elf_bastille::pathfind::{find_path, PathfindFailure, PathfindSystem};

fn pos(x: i32, y: i32, z: i32) -> Position {
    Position::new(x, y, z)
}

fn flat(width: u16, height: u16) -> Grid {
    Grid::new(width, height, 1, Terrain::Flat).unwrap()
}

fn blocked(cells: &[Position]) -> Obstacles {
    let mut obstacles = Obstacles::new();
    for c in cells {
        obstacles.insert(*c);
    }
    obstacles
}

fn is_blocked(cells: &[Position], p: Position) -> bool {
    cells.contains(&p)
}

fn in_grid(g: &Grid, p: Position) -> bool {
    p.x >= 0 && p.y >= 0 && p.z >= 0 && p.x < g.width as i32 && p.y < g.height as i32 && p.z < g.depth as i32
}

const OFFSETS: [(i32, i32); 4] = [(1, 0), (-1, 0), (0, 1), (0, -1)];

/// The moves allowed from `from`, written out independently of the library.
fn moves(g: &Grid, cells: &[Position], from: Position) -> Vec<(Position, u64)> {
    let mut out = Vec::new();
    if !in_grid(g, from) {
        return out;
    }
    for (dx, dy) in OFFSETS {
        let adj = pos(from.x + dx, from.y + dy, from.z);
        match g.terrain {
            Terrain::Flat => {
                if in_grid(g, adj) && !is_blocked(cells, adj) {
                    out.push((adj, 1));
                }
            }
            Terrain::Layered => {
                if is_blocked(cells, adj) {
                    let up = pos(adj.x, adj.y, adj.z + 1);
                    let above_self = pos(from.x, from.y, from.z + 1);
                    if in_grid(g, up) && !is_blocked(cells, above_self) && !is_blocked(cells, up) {
                        out.push((up, 2));
                    }
                } else if is_blocked(cells, pos(adj.x, adj.y, adj.z - 1)) {
                    if in_grid(g, adj) {
                        out.push((adj, 1));
                    }
                } else if is_blocked(cells, pos(adj.x, adj.y, adj.z - 2)) {
                    let down = pos(adj.x, adj.y, adj.z - 1);
                    if in_grid(g, down) {
                        out.push((down, 2));
                    }
                }
            }
        }
    }
    out
}

/// Cheapest cost from `start` to `target` by exhaustive relaxation.
fn brute_force_cost(g: &Grid, cells: &[Position], start: Position, target: Position) -> Option<u64> {
    let mut all = Vec::new();
    for z in 0..g.depth as i32 {
        for y in 0..g.height as i32 {
            for x in 0..g.width as i32 {
                all.push(pos(x, y, z));
            }
        }
    }
    let mut best: Vec<Option<u64>> = all.iter().map(|c| if *c == start { Some(0) } else { None }).collect();
    if !in_grid(g, start) {
        return None;
    }
    loop {
        let mut changed = false;
        for (i, c) in all.iter().enumerate() {
            if let Some(here) = best[i] {
                for (n, w) in moves(g, cells, *c) {
                    let j = all.iter().position(|a| *a == n).unwrap();
                    if best[j].map_or(true, |b| here + w < b) {
                        best[j] = Some(here + w);
                        changed = true;
                    }
                }
            }
        }
        if !changed {
            break;
        }
    }
    best[all.iter().position(|a| *a == target).unwrap()]
}

fn path_cost(g: &Grid, cells: &[Position], start: Position, path: &[Position]) -> u64 {
    let mut total = 0;
    let mut cur = start;
    for p in path {
        let (_, w) = moves(g, cells, cur).into_iter().find(|(n, _)| n == p).expect("path makes a move that is not allowed");
        total += w;
        cur = *p;
    }
    total
}

#[test]
fn open_grid_path_has_manhattan_length_and_tries_plus_x_first() {
    let grid = flat(5, 5);
    let obstacles = Obstacles::new();
    // The first free side of (2, 3), trying +x first, is (3, 3).
    let path = find_path(&grid, &obstacles, pos(0, 0, 0), pos(2, 3, 0)).unwrap();
    assert_eq!(path.len(), 6);
    assert_eq!(path[0], pos(1, 0, 0));
    assert_eq!(*path.last().unwrap(), pos(3, 3, 0));
}

#[test]
fn enclosed_goal_has_no_reachable_adjacent_cell() {
    let grid = flat(5, 5);
    let cells = [pos(3, 2, 0), pos(1, 2, 0), pos(2, 3, 0), pos(2, 1, 0)];
    let obstacles = blocked(&cells);
    assert_eq!(find_path(&grid, &obstacles, pos(0, 0, 0), pos(2, 2, 0)), Err(PathfindFailure::NoReachableAdjacentCell));
}

#[test]
fn goal_at_grid_corner_uses_the_free_sides_in_order() {
    let grid = flat(5, 5);
    let obstacles = Obstacles::new();
    // (4, 4): +x is outside the grid, so -x, (3, 4), is the target.
    let path = find_path(&grid, &obstacles, pos(0, 4, 0), pos(4, 4, 0)).unwrap();
    assert_eq!(path, vec![pos(1, 4, 0), pos(2, 4, 0), pos(3, 4, 0)]);
}

#[test]
fn walled_off_target_is_unreachable() {
    let grid = flat(5, 5);
    let cells = [pos(2, 0, 0), pos(2, 1, 0), pos(2, 2, 0), pos(2, 3, 0), pos(2, 4, 0)];
    let obstacles = blocked(&cells);
    assert_eq!(find_path(&grid, &obstacles, pos(0, 0, 0), pos(3, 2, 0)), Err(PathfindFailure::Unreachable));
}

#[test]
fn start_outside_the_grid_is_unreachable() {
    let grid = flat(5, 5);
    let obstacles = Obstacles::new();
    assert_eq!(find_path(&grid, &obstacles, pos(-1, 0, 0), pos(2, 2, 0)), Err(PathfindFailure::Unreachable));
}

#[test]
fn start_on_the_target_gives_an_empty_path() {
    let grid = flat(5, 5);
    let obstacles = Obstacles::new();
    assert_eq!(find_path(&grid, &obstacles, pos(3, 2, 0), pos(2, 2, 0)), Ok(vec![]));
}

#[test]
fn path_goes_around_a_wall() {
    let grid = flat(5, 5);
    let cells = [pos(1, 0, 0), pos(1, 1, 0), pos(1, 2, 0)];
    let obstacles = blocked(&cells);
    let path = find_path(&grid, &obstacles, pos(0, 0, 0), pos(1, 4, 0)).unwrap();
    // Target is (2, 4); the wall forces the walk up to y = 3 first.
    assert_eq!(
        path,
        vec![pos(0, 1, 0), pos(0, 2, 0), pos(0, 3, 0), pos(1, 3, 0), pos(2, 3, 0), pos(2, 4, 0)]
    );
}

#[test]
fn every_step_of_a_found_path_is_an_allowed_move_onto_a_free_cell() {
    let grid = flat(6, 6);
    let cells = [pos(2, 1, 0), pos(2, 2, 0), pos(2, 3, 0), pos(4, 4, 0), pos(3, 1, 0)];
    let obstacles = blocked(&cells);
    let start = pos(0, 2, 0);
    let path = find_path(&grid, &obstacles, start, pos(5, 2, 0)).unwrap();
    let mut cur = start;
    for p in &path {
        assert!(!is_blocked(&cells, *p));
        assert!(cur.is_adjacent_to(p));
        cur = *p;
    }
    assert_eq!(cur, pos(4, 2, 0));
}

#[test]
fn repeated_searches_give_identical_paths() {
    let grid = flat(7, 7);
    let cells = [pos(3, 0, 0), pos(3, 1, 0), pos(3, 2, 0), pos(3, 4, 0), pos(3, 5, 0)];
    let obstacles = blocked(&cells);
    let a = find_path(&grid, &obstacles, pos(0, 0, 0), pos(6, 6, 0));
    let b = find_path(&grid, &obstacles, pos(0, 0, 0), pos(6, 6, 0));
    assert!(a.is_ok());
    assert_eq!(a, b);
}

#[test]
fn path_cost_matches_brute_force_on_small_flat_grids() {
    let grid = flat(6, 5);
    let layouts: Vec<Vec<Position>> = vec![
        vec![],
        vec![pos(1, 0, 0), pos(1, 1, 0), pos(1, 2, 0), pos(1, 3, 0)],
        vec![pos(2, 1, 0), pos(3, 1, 0), pos(4, 1, 0), pos(2, 3, 0), pos(3, 3, 0), pos(4, 3, 0), pos(4, 2, 0)],
        vec![pos(0, 2, 0), pos(1, 2, 0), pos(2, 2, 0), pos(3, 2, 0), pos(4, 2, 0)],
    ];
    for cells in &layouts {
        let obstacles = blocked(cells);
        for (start, goal) in [(pos(0, 0, 0), pos(5, 4, 0)), (pos(0, 4, 0), pos(3, 2, 0)), (pos(5, 0, 0), pos(0, 4, 0))] {
            let target = [pos(goal.x + 1, goal.y, 0), pos(goal.x - 1, goal.y, 0), pos(goal.x, goal.y + 1, 0), pos(goal.x, goal.y - 1, 0)]
                .into_iter()
                .find(|c| in_grid(&grid, *c) && !is_blocked(cells, *c));
            let result = find_path(&grid, &obstacles, start, goal);
            match target {
                None => assert_eq!(result, Err(PathfindFailure::NoReachableAdjacentCell)),
                Some(t) => match brute_force_cost(&grid, cells, start, t) {
                    None => assert_eq!(result, Err(PathfindFailure::Unreachable)),
                    Some(best) => {
                        let path = result.unwrap();
                        assert_eq!(path_cost(&grid, cells, start, &path), best);
                        assert_eq!(*path.last().unwrap_or(&start), t);
                    }
                },
            }
        }
    }
}

/// A floor of held cells at z = 0 over a `w` by `h` area.
fn floor(w: i32, h: i32) -> Vec<Position> {
    let mut cells = Vec::new();
    for y in 0..h {
        for x in 0..w {
            cells.push(pos(x, y, 0));
        }
    }
    cells
}

#[test]
fn layered_path_cost_matches_brute_force() {
    let grid = Grid::new(5, 3, 4, Terrain::Layered).unwrap();
    let mut cells = floor(5, 3);
    // A low block to climb and a ledge one level up.
    cells.push(pos(2, 1, 1));
    cells.push(pos(3, 0, 1));
    cells.push(pos(3, 1, 1));
    let obstacles = blocked(&cells);
    let start = pos(0, 1, 1);
    let goal = pos(4, 1, 1);
    let path = find_path(&grid, &obstacles, start, goal).unwrap();
    let t = *path.last().unwrap();
    assert_eq!(t, pos(4, 2, 1));
    assert_eq!(Some(path_cost(&grid, &cells, start, &path)), brute_force_cost(&grid, &cells, start, t));
}

#[test]
fn step_up_is_taken_when_both_overhead_cells_are_free() {
    let grid = Grid::new(3, 1, 4, Terrain::Layered).unwrap();
    let mut cells = floor(3, 1);
    cells.push(pos(1, 0, 1));
    let obstacles = blocked(&cells);
    // Walker at (0, 0, 1); the block at (1, 0, 1) can be climbed onto (1, 0, 2).
    let path = find_path(&grid, &obstacles, pos(0, 0, 1), pos(2, 0, 2)).unwrap();
    assert_eq!(path, vec![pos(1, 0, 2)]);
}

#[test]
fn step_up_is_excluded_when_the_cell_above_the_walker_is_held() {
    let grid = Grid::new(3, 1, 4, Terrain::Layered).unwrap();
    let mut cells = floor(3, 1);
    cells.push(pos(1, 0, 1));
    cells.push(pos(0, 0, 2));
    let obstacles = blocked(&cells);
    let result = find_path(&grid, &obstacles, pos(0, 0, 1), pos(2, 0, 2));
    assert_eq!(result, Err(PathfindFailure::Unreachable));
}

#[test]
fn step_up_is_excluded_when_the_cell_above_the_block_is_held() {
    let grid = Grid::new(4, 1, 4, Terrain::Layered).unwrap();
    let mut cells = floor(4, 1);
    cells.push(pos(1, 0, 1));
    cells.push(pos(1, 0, 2));
    let obstacles = blocked(&cells);
    // The target (3, 0, 1) lies past the block; no walk climbs over it.
    let result = find_path(&grid, &obstacles, pos(0, 0, 1), pos(3, 0, 2));
    assert_eq!(result, Err(PathfindFailure::Unreachable));
}

#[test]
fn step_down_needs_ground_two_levels_below() {
    let grid = Grid::new(3, 1, 4, Terrain::Layered).unwrap();
    let mut cells = floor(3, 1);
    cells.push(pos(0, 0, 1));
    let obstacles = blocked(&cells);
    // Walker on the block at (0, 0, 2) steps down to (1, 0, 1).
    let path = find_path(&grid, &obstacles, pos(0, 0, 2), pos(2, 0, 1)).unwrap();
    assert_eq!(path, vec![pos(1, 0, 1)]);
}

#[test]
fn pathfind_system_leaves_each_requesters_own_cell_out() {
    let grid = flat(5, 1);
    let cells = [pos(0, 0, 0), pos(4, 0, 0)];
    let obstacles = blocked(&cells);
    let mut system = PathfindSystem;
    let requests = vec![(pos(0, 0, 0), pos(2, 0, 0)), (pos(4, 0, 0), pos(1, 0, 0))];
    let results = system.run(&grid, &obstacles, &requests);
    assert_eq!(results.len(), 2);
    assert_eq!(results[0], Ok(vec![pos(1, 0, 0), pos(2, 0, 0), pos(3, 0, 0)]));
    // Sides of (1, 0, 0): +x (2, 0, 0) is free.
    assert_eq!(results[1], Ok(vec![pos(3, 0, 0), pos(2, 0, 0)]));
}

#[test]
fn oversized_grid_is_refused_only_when_cells_cannot_be_numbered() {
    assert!(Grid::new(65535, 65535, 1, Terrain::Flat).is_some());
    assert!(Grid::new(0, 10, 10, Terrain::Flat).is_some());
    assert_eq!(Grid::new(65535, 65535, 65535, Terrain::Layered).is_some(), usize::BITS >= 64);
}

/// A fixed pseudo-random sequence, so that the layouts below are the same on
/// every run.
struct Lcg(u64);

impl Lcg {
    fn next(&mut self, bound: u64) -> u64 {
        self.0 = self.0.wrapping_mul(6364136223846793005).wrapping_add(1442695040888963407);
        (self.0 >> 33) % bound
    }
}

fn expected_target(g: &Grid, cells: &[Position], goal: Position) -> Option<Position> {
    let mut sides = vec![
        pos(goal.x + 1, goal.y, goal.z),
        pos(goal.x - 1, goal.y, goal.z),
        pos(goal.x, goal.y + 1, goal.z),
        pos(goal.x, goal.y - 1, goal.z),
    ];
    if g.terrain == Terrain::Layered {
        sides.push(pos(goal.x, goal.y, goal.z + 1));
        sides.push(pos(goal.x, goal.y, goal.z - 1));
    }
    sides.into_iter().find(|c| in_grid(g, *c) && !is_blocked(cells, *c))
}

fn cross_check(grid: &Grid, cells: &[Position], start: Position, goal: Position) {
    let obstacles = blocked(cells);
    let result = find_path(grid, &obstacles, start, goal);
    assert_eq!(result, find_path(grid, &obstacles, start, goal));
    match expected_target(grid, cells, goal) {
        None => assert_eq!(result, Err(PathfindFailure::NoReachableAdjacentCell)),
        Some(t) => match brute_force_cost(grid, cells, start, t) {
            None => assert_eq!(result, Err(PathfindFailure::Unreachable)),
            Some(best) => {
                let path = result.unwrap();
                assert_eq!(path_cost(grid, cells, start, &path), best);
                assert_eq!(*path.last().unwrap_or(&start), t);
                assert!(path.iter().all(|p| !is_blocked(cells, *p) && in_grid(grid, *p)));
            }
        },
    }
}

#[test]
fn cheapest_cost_matches_brute_force_on_many_flat_layouts() {
    let grid = flat(6, 6);
    let mut rng = Lcg(7);
    for _ in 0..60 {
        let mut cells = Vec::new();
        for _ in 0..rng.next(14) {
            let c = pos(rng.next(6) as i32, rng.next(6) as i32, 0);
            if !cells.contains(&c) {
                cells.push(c);
            }
        }
        let start = pos(rng.next(6) as i32, rng.next(6) as i32, 0);
        let goal = pos(rng.next(6) as i32, rng.next(6) as i32, 0);
        cells.retain(|c| *c != start);
        cross_check(&grid, &cells, start, goal);
    }
}

#[test]
fn cheapest_cost_matches_brute_force_on_many_layered_layouts() {
    let grid = Grid::new(4, 4, 4, Terrain::Layered).unwrap();
    let mut rng = Lcg(11);
    for _ in 0..60 {
        let mut cells = floor(4, 4);
        for _ in 0..rng.next(10) {
            let c = pos(rng.next(4) as i32, rng.next(4) as i32, 1 + rng.next(2) as i32);
            if !cells.contains(&c) {
                cells.push(c);
            }
        }
        let start = pos(rng.next(4) as i32, rng.next(4) as i32, 1 + rng.next(3) as i32);
        let goal = pos(rng.next(4) as i32, rng.next(4) as i32, 1 + rng.next(2) as i32);
        cells.retain(|c| *c != start);
        cross_check(&grid, &cells, start, goal);
    }
}

#[test]
fn open_grid_goal_three_three_walks_to_its_plus_x_side() {
    let grid = flat(5, 5);
    let obstacles = Obstacles::new();
    let path = find_path(&grid, &obstacles, pos(0, 0, 0), pos(3, 3, 0)).unwrap();
    assert_eq!(path.len(), 7);
    assert_eq!(path[0], pos(1, 0, 0));
    assert_eq!(*path.last().unwrap(), pos(4, 3, 0));
}
