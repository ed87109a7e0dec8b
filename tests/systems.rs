use elf_bastille::components::{Position, Texture};
use elf_bastille::dispatch::{Action, Elf, ElfSystem};
use elf_bastille::grid::{Grid, Terrain};
use elf_bastille::growth::{Growable, GrowthSystem, Tree, TreeGrowthStage, TreeGrowthSystem};
use elf_bastille::movement::Mover;
use elf_bastille::obstacles::Obstacles;
use elf_bastille::pathfind::{PathfindFailure, PathfindingSystem};
use elf_bastille::timer::{Timer, DELTA_TIME_NANOS};

fn pos(x: i32, y: i32, z: i32) -> Position {
    Position::new(x, y, z)
}

#[test]
fn timer_fires_once_enough_ticks_have_passed_and_starts_over() {
    let mut timer = Timer::new(100_000_000, false);
    for _ in 0..5 {
        assert!(!timer.triggered());
    }
    assert!(timer.triggered());
    for _ in 0..5 {
        assert!(!timer.triggered());
    }
    assert!(timer.triggered());
}

#[test]
fn timer_started_at_trigger_fires_on_first_tick() {
    let mut timer = Timer::new(1_000_000_000, true);
    assert!(timer.triggered());
    assert!(!timer.triggered());
}

#[test]
fn timer_with_huge_trigger_time_does_not_overflow() {
    let mut timer = Timer::new(u64::MAX, true);
    assert!(timer.triggered());
}

#[test]
fn growables_age_one_tick_and_change_image_by_week() {
    let week = 7_000_000_000u64;
    let mut growables = vec![
        Growable { age: 0, texture: Some(Texture { atlas_index: 0 }) },
        Growable { age: week - DELTA_TIME_NANOS, texture: Some(Texture { atlas_index: 0 }) },
        Growable { age: 2 * week, texture: Some(Texture { atlas_index: 0 }) },
        Growable { age: 3 * week, texture: Some(Texture { atlas_index: 0 }) },
        Growable { age: 4 * week - DELTA_TIME_NANOS, texture: Some(Texture { atlas_index: 0 }) },
        Growable { age: 5, texture: None },
    ];
    let mut system = GrowthSystem;
    system.run(&mut growables);
    assert_eq!(growables[0].age, DELTA_TIME_NANOS);
    assert_eq!(growables[0].texture, Some(Texture { atlas_index: 7 }));
    assert_eq!(growables[1].texture, Some(Texture { atlas_index: 8 }));
    assert_eq!(growables[2].texture, Some(Texture { atlas_index: 9 }));
    assert_eq!(growables[3].texture, Some(Texture { atlas_index: 10 }));
    assert_eq!(growables[4].texture, Some(Texture { atlas_index: 1 }));
    assert_eq!(growables[5].texture, None);
    assert_eq!(growables[5].age, 5 + DELTA_TIME_NANOS);
}

#[test]
fn trees_grow_a_stage_when_their_timer_runs_out() {
    let stage_time = 5_000_000_000u64;
    let mut trees = vec![
        Tree { growth_stage: TreeGrowthStage::Stage1, growth_timer: stage_time - DELTA_TIME_NANOS, texture: Texture { atlas_index: 2 } },
        Tree { growth_stage: TreeGrowthStage::Stage4, growth_timer: stage_time, texture: Texture { atlas_index: 5 } },
        Tree { growth_stage: TreeGrowthStage::Stage5, growth_timer: stage_time, texture: Texture { atlas_index: 6 } },
        Tree { growth_stage: TreeGrowthStage::Stage2, growth_timer: 0, texture: Texture { atlas_index: 3 } },
    ];
    let mut system = TreeGrowthSystem;
    system.run(&mut trees);
    assert_eq!(trees[0].growth_stage, TreeGrowthStage::Stage2);
    assert_eq!(trees[0].texture.atlas_index, 3);
    assert_eq!(trees[0].growth_timer, 0);
    assert_eq!(trees[1].growth_stage, TreeGrowthStage::Stage5);
    assert_eq!(trees[1].texture.atlas_index, 6);
    assert_eq!(trees[2].growth_stage, TreeGrowthStage::Stage5);
    assert_eq!(trees[2].texture.atlas_index, 6);
    assert_eq!(trees[2].growth_timer, 0);
    assert_eq!(trees[3].growth_stage, TreeGrowthStage::Stage2);
    assert_eq!(trees[3].growth_timer, DELTA_TIME_NANOS);
}

#[test]
fn idle_elf_takes_the_next_task_and_busy_elf_waits() {
    let mut elf = Elf { action_queue: vec![Action::Move(pos(4, 2, 0)), Action::Attack(9), Action::Store { entity: 3, destination: 8 }] };
    let mut system = ElfSystem;
    assert_eq!(system.run(&mut elf, true), None);
    assert_eq!(elf.action_queue.len(), 3);
    assert_eq!(system.run(&mut elf, false), Some(Action::Move(pos(4, 2, 0))));
    assert_eq!(elf.action_queue, vec![Action::Attack(9), Action::Store { entity: 3, destination: 8 }]);
    assert_eq!(system.run(&mut elf, false), Some(Action::Attack(9)));
    assert_eq!(system.run(&mut elf, false), Some(Action::Store { entity: 3, destination: 8 }));
    assert_eq!(system.run(&mut elf, false), None);
}

#[test]
fn obstacle_set_inserts_removes_and_copies() {
    let mut obstacles = Obstacles::new();
    assert!(!obstacles.contains(pos(1, 1, 0)));
    obstacles.insert(pos(1, 1, 0));
    obstacles.insert(pos(1, 1, 0));
    obstacles.insert(pos(2, 1, 0));
    assert!(obstacles.contains(pos(1, 1, 0)));
    let copy = obstacles.without(pos(1, 1, 0));
    assert!(!copy.contains(pos(1, 1, 0)));
    assert!(copy.contains(pos(2, 1, 0)));
    assert!(obstacles.contains(pos(1, 1, 0)));
    obstacles.remove(pos(1, 1, 0));
    assert!(!obstacles.contains(pos(1, 1, 0)));
    obstacles.remove(pos(7, 7, 7));
    assert!(obstacles.contains(pos(2, 1, 0)));
}

#[test]
fn distances_and_adjacency_between_cells() {
    assert_eq!(pos(0, 0, 0).get_distance_from(&pos(3, -4, 2)), 9);
    assert_eq!(pos(i32::MIN, 0, 0).get_distance_from(&pos(i32::MAX, 0, 0)), u32::MAX as u64);
    assert!(pos(2, 2, 1).is_adjacent_to(&pos(2, 3, 1)));
    assert!(!pos(2, 2, 1).is_adjacent_to(&pos(3, 3, 1)));
    assert!(!pos(2, 2, 1).is_adjacent_to(&pos(2, 2, 2)));
    assert!(!pos(2, 2, 1).is_adjacent_to(&pos(2, 2, 1)));
}

#[test]
fn pathfinding_system_replans_every_mover_with_a_goal() {
    let grid = Grid::new(5, 2, 1, Terrain::Flat).unwrap();
    let mut obstacles = Obstacles::new();
    obstacles.insert(pos(0, 0, 0));
    obstacles.insert(pos(3, 0, 0));
    obstacles.insert(pos(0, 1, 0));
    let standing = Mover { position: pos(0, 0, 0), progress: 0, path: vec![], speed: 1 };
    let walking = Mover { position: pos(0, 1, 0), progress: 1, path: vec![pos(1, 1, 0)], speed: 1 };
    let mut movers = vec![standing, walking];
    let goals = vec![Some(pos(3, 0, 0)), Some(pos(4, 1, 0))];
    let mut system = PathfindingSystem;
    let failures = system.run(&grid, &obstacles, &mut movers, &goals);
    assert_eq!(failures, vec![None, None]);
    // The first free side of (3, 0) is (4, 0); the walk goes round the held (3, 0).
    assert_eq!(
        movers[0].path,
        vec![pos(1, 0, 0), pos(2, 0, 0), pos(2, 1, 0), pos(3, 1, 0), pos(4, 1, 0), pos(4, 0, 0)]
    );
    // The mover between two cells plans from the cell it holds and starts
    // over from it; the first free side of (4, 1) is (3, 1).
    assert_eq!(movers[1].path, vec![pos(1, 1, 0), pos(2, 1, 0), pos(3, 1, 0)]);
    assert_eq!(movers[1].progress, 0);
    assert_eq!(movers[1].position, pos(0, 1, 0));
}

#[test]
fn pathfinding_system_reports_a_failed_search_for_a_mover_between_cells() {
    let grid = Grid::new(5, 1, 1, Terrain::Flat).unwrap();
    let mut obstacles = Obstacles::new();
    obstacles.insert(pos(1, 0, 0));
    obstacles.insert(pos(3, 0, 0));
    let mover = Mover { position: pos(1, 0, 0), progress: 1, path: vec![pos(0, 0, 0)], speed: 1 };
    let mut movers = vec![mover];
    let mut system = PathfindingSystem;
    let failures = system.run(&grid, &obstacles, &mut movers, &vec![Some(pos(3, 0, 0))]);
    // The first free side of (3, 0) is (4, 0), beyond the held (3, 0).
    assert_eq!(failures, vec![Some(PathfindFailure::Unreachable)]);
    assert_eq!(movers[0].path, vec![pos(0, 0, 0)]);
    assert_eq!(movers[0].progress, 1);
}

#[test]
fn pathfinding_system_leaves_movers_without_a_goal_alone() {
    let grid = Grid::new(5, 1, 1, Terrain::Flat).unwrap();
    let mut obstacles = Obstacles::new();
    obstacles.insert(pos(2, 0, 0));
    let mover = Mover { position: pos(2, 0, 0), progress: 1, path: vec![pos(3, 0, 0)], speed: 1 };
    let mut movers = vec![mover];
    let mut system = PathfindingSystem;
    assert_eq!(system.run(&grid, &obstacles, &mut movers, &vec![None]), vec![None]);
    assert_eq!(movers[0].path, vec![pos(3, 0, 0)]);
    assert_eq!(movers[0].progress, 1);
}

#[test]
fn pathfinding_system_reports_failures_and_keeps_the_old_path() {
    let grid = Grid::new(5, 1, 1, Terrain::Flat).unwrap();
    let mut obstacles = Obstacles::new();
    obstacles.insert(pos(0, 0, 0));
    obstacles.insert(pos(2, 0, 0));
    let mover = Mover { position: pos(0, 0, 0), progress: 0, path: vec![pos(1, 0, 0)], speed: 1 };
    let mut movers = vec![mover];
    let mut system = PathfindingSystem;
    let failures = system.run(&grid, &obstacles, &mut movers, &vec![Some(pos(3, 0, 0))]);
    assert_eq!(failures, vec![Some(PathfindFailure::Unreachable)]);
    assert_eq!(movers[0].path, vec![pos(1, 0, 0)]);
}
