use elf_bastille::components::Position;
use elf_bastille::movement::{advance, movement_order, MoveOutcome, Mover, MovementSystem};
use elf_bastille::obstacles::Obstacles;

fn pos(x: i32, y: i32, z: i32) -> Position {
    Position::new(x, y, z)
}

fn row(xs: &[i32]) -> Vec<Position> {
    xs.iter().map(|x| pos(*x, 0, 0)).collect()
}

#[test]
fn speed_two_over_three_steps_takes_three_ticks() {
    let mut position = pos(0, 0, 0);
    let mut progress = 0u64;
    let mut path = row(&[1, 2, 3]);
    let mut obstacles = Obstacles::new();
    obstacles.insert(position);

    assert_eq!(advance(&mut position, &mut progress, &mut path, 2, &mut obstacles), MoveOutcome::Advanced);
    assert_eq!(position, pos(2, 0, 0));
    assert_eq!(path, row(&[3]));

    assert_eq!(advance(&mut position, &mut progress, &mut path, 2, &mut obstacles), MoveOutcome::Advanced);
    assert_eq!(position, pos(3, 0, 0));
    assert!(path.is_empty());

    assert_eq!(advance(&mut position, &mut progress, &mut path, 2, &mut obstacles), MoveOutcome::ArrivedEmpty);
    assert_eq!(position, pos(3, 0, 0));
    assert_eq!(progress, 0);
}

#[test]
fn a_step_longer_than_the_budget_is_covered_over_several_ticks() {
    let mut position = pos(0, 0, 1);
    let mut progress = 0u64;
    // A step up: one across and one up, two units of distance.
    let mut path = vec![pos(1, 0, 2)];
    let mut obstacles = Obstacles::new();
    obstacles.insert(position);

    assert_eq!(advance(&mut position, &mut progress, &mut path, 1, &mut obstacles), MoveOutcome::Advanced);
    assert_eq!(position, pos(0, 0, 1));
    assert_eq!(progress, 1);
    assert_eq!(path.len(), 1);

    assert_eq!(advance(&mut position, &mut progress, &mut path, 1, &mut obstacles), MoveOutcome::Advanced);
    assert_eq!(position, pos(1, 0, 2));
    assert_eq!(progress, 0);
    assert!(obstacles.contains(pos(1, 0, 2)));
    assert!(!obstacles.contains(pos(0, 0, 1)));
}

#[test]
fn a_held_next_cell_blocks_and_nothing_moves() {
    let mut position = pos(0, 0, 0);
    let mut progress = 0u64;
    let mut path = row(&[1, 2]);
    let mut obstacles = Obstacles::new();
    obstacles.insert(position);
    obstacles.insert(pos(1, 0, 0));

    assert_eq!(advance(&mut position, &mut progress, &mut path, 3, &mut obstacles), MoveOutcome::Blocked);
    assert_eq!(position, pos(0, 0, 0));
    assert_eq!(path, row(&[1, 2]));
    assert!(obstacles.contains(pos(0, 0, 0)));
    assert!(obstacles.contains(pos(1, 0, 0)));
}

#[test]
fn blocked_midway_keeps_the_cells_already_entered() {
    let mut position = pos(0, 0, 0);
    let mut progress = 0u64;
    let mut path = row(&[1, 2, 3]);
    let mut obstacles = Obstacles::new();
    obstacles.insert(position);
    obstacles.insert(pos(2, 0, 0));

    assert_eq!(advance(&mut position, &mut progress, &mut path, 5, &mut obstacles), MoveOutcome::Blocked);
    assert_eq!(position, pos(1, 0, 0));
    assert_eq!(path, row(&[2, 3]));
    assert!(obstacles.contains(pos(1, 0, 0)));
    assert!(!obstacles.contains(pos(0, 0, 0)));
}

#[test]
fn distance_covered_in_a_tick_never_exceeds_the_speed() {
    for speed in 0..6u64 {
        let mut position = pos(0, 0, 1);
        let mut progress = 0u64;
        let mut path = vec![pos(1, 0, 1), pos(2, 0, 2), pos(3, 0, 2), pos(4, 0, 1)];
        let mut obstacles = Obstacles::new();
        obstacles.insert(position);
        let before = position;
        let before_len = path.len();
        advance(&mut position, &mut progress, &mut path, speed, &mut obstacles);
        let entered = before_len - path.len();
        let mut covered = 0u64;
        let mut cur = before;
        for p in [pos(1, 0, 1), pos(2, 0, 2), pos(3, 0, 2), pos(4, 0, 1)].iter().take(entered) {
            covered += cur.get_distance_from(p);
            cur = *p;
        }
        covered += progress;
        assert!(covered <= speed);
        assert!(covered == speed || path.is_empty());
    }
}

#[test]
fn obstacles_hold_one_entry_per_entity_after_many_ticks() {
    let mut a = (pos(0, 0, 0), 0u64, row(&[1, 2, 3, 4]));
    let mut b = (pos(0, 2, 0), 0u64, vec![pos(1, 2, 0), pos(1, 1, 0), pos(2, 1, 0)]);
    let tree = pos(5, 5, 0);
    let mut obstacles = Obstacles::new();
    obstacles.insert(a.0);
    obstacles.insert(b.0);
    obstacles.insert(tree);
    for _ in 0..6 {
        advance(&mut a.0, &mut a.1, &mut a.2, 1, &mut obstacles);
        advance(&mut b.0, &mut b.1, &mut b.2, 1, &mut obstacles);
        let mut held = 0;
        for x in -1..7 {
            for y in -1..7 {
                if obstacles.contains(pos(x, y, 0)) {
                    held += 1;
                    let c = pos(x, y, 0);
                    assert!(c == a.0 || c == b.0 || c == tree);
                }
            }
        }
        assert_eq!(held, 3);
    }
    assert_eq!(a.0, pos(4, 0, 0));
    assert_eq!(b.0, pos(2, 1, 0));
}

#[test]
fn shorter_remaining_path_moves_first_and_wins_the_contested_cell() {
    // A one-cell-wide corridor along y = 0; both entities head for (1, 0).
    let long = Mover { position: pos(0, 0, 0), progress: 0, path: row(&[1, 2, 3, 4]), speed: 1 };
    let short = Mover { position: pos(2, 0, 0), progress: 0, path: row(&[1]), speed: 1 };
    let mut movers = vec![long, short];
    let mut obstacles = Obstacles::new();
    obstacles.insert(pos(0, 0, 0));
    obstacles.insert(pos(2, 0, 0));
    let mut system = MovementSystem;
    let outcomes = system.run(&mut movers, &mut obstacles);
    assert_eq!(outcomes, vec![MoveOutcome::Blocked, MoveOutcome::Advanced]);
    assert_eq!(movers[1].position, pos(1, 0, 0));
    assert_eq!(movers[0].position, pos(0, 0, 0));
    assert_eq!(movers[0].path, row(&[1, 2, 3, 4]));
    assert!(obstacles.contains(pos(1, 0, 0)));
    assert!(!obstacles.contains(pos(2, 0, 0)));
}

#[test]
fn movement_order_sorts_by_remaining_length_keeping_ties_in_order() {
    assert_eq!(movement_order(&vec![3, 1, 2, 1, 0]), vec![4, 1, 3, 2, 0]);
    assert_eq!(movement_order(&vec![]), Vec::<usize>::new());
    assert_eq!(movement_order(&vec![2, 2, 2]), vec![0, 1, 2]);
}

#[test]
fn movers_without_a_path_report_arrival() {
    let idle = Mover { position: pos(3, 3, 0), progress: 0, path: vec![], speed: 4 };
    let mut movers = vec![idle];
    let mut obstacles = Obstacles::new();
    obstacles.insert(pos(3, 3, 0));
    let mut system = MovementSystem;
    assert_eq!(system.run(&mut movers, &mut obstacles), vec![MoveOutcome::ArrivedEmpty]);
    assert!(obstacles.contains(pos(3, 3, 0)));
}

#[test]
fn speed_two_over_three_steps_through_the_system() {
    let mover = Mover { position: pos(0, 0, 0), progress: 0, path: row(&[1, 2, 3]), speed: 2 };
    let mut movers = vec![mover];
    let mut obstacles = Obstacles::new();
    obstacles.insert(pos(0, 0, 0));
    let mut system = MovementSystem;
    assert_eq!(system.run(&mut movers, &mut obstacles), vec![MoveOutcome::Advanced]);
    assert_eq!(movers[0].position, pos(2, 0, 0));
    assert_eq!(movers[0].path, row(&[3]));
    assert_eq!(system.run(&mut movers, &mut obstacles), vec![MoveOutcome::Advanced]);
    assert_eq!(movers[0].position, pos(3, 0, 0));
    assert!(movers[0].path.is_empty());
    assert_eq!(system.run(&mut movers, &mut obstacles), vec![MoveOutcome::ArrivedEmpty]);
    assert_eq!(movers[0].position, pos(3, 0, 0));
    assert!(obstacles.contains(pos(3, 0, 0)));
    assert!(!obstacles.contains(pos(0, 0, 0)));
    assert!(!obstacles.contains(pos(2, 0, 0)));
}

#[test]
fn a_mover_may_enter_a_cell_left_earlier_in_the_same_tick() {
    // The short mover leaves (1, 0) first; the long one then steps into it.
    let short = Mover { position: pos(1, 0, 0), progress: 0, path: row(&[2]), speed: 1 };
    let long = Mover { position: pos(0, 0, 0), progress: 0, path: row(&[1, 2, 3]), speed: 1 };
    let mut movers = vec![long, short];
    let mut obstacles = Obstacles::new();
    obstacles.insert(pos(0, 0, 0));
    obstacles.insert(pos(1, 0, 0));
    let mut system = MovementSystem;
    assert_eq!(system.run(&mut movers, &mut obstacles), vec![MoveOutcome::Advanced, MoveOutcome::Advanced]);
    assert_eq!(movers[1].position, pos(2, 0, 0));
    assert_eq!(movers[0].position, pos(1, 0, 0));
    assert!(!obstacles.contains(pos(0, 0, 0)));
}

#[test]
fn cells_moved_never_exceed_the_speed_from_a_standing_start() {
    let mut position = pos(0, 0, 0);
    let mut progress = 0u64;
    let mut path = row(&[1, 2, 3, 4, 5]);
    let mut obstacles = Obstacles::new();
    obstacles.insert(position);
    advance(&mut position, &mut progress, &mut path, 3, &mut obstacles);
    assert_eq!(pos(0, 0, 0).get_distance_from(&position), 3);
}
