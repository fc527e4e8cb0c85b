use puzzlebox::debris::DebrisPiece;
use puzzlebox::lattice::{Lattice, Vec3, Vec4};
use puzzlebox::occupancy::{build_occupancy, build_occupancy_sequential, Mode};
use puzzlebox::search::{search, Unreachable};

fn still(x: i16, y: i16, z: i16) -> DebrisPiece {
    DebrisPiece {
        initial_position: Vec4 { x, y, z, w: 0 },
        velocity: Vec4 { x: 0, y: 0, z: 0, w: 0 },
    }
}

fn cell(x: i16, y: i16, z: i16) -> Vec3 {
    Vec3 { x, y, z }
}

#[test]
fn one_still_obstacle_leaves_a_route_of_two_moves() {
    let lattice = Lattice::new(2, 2, 2, 1).unwrap();
    let debris = vec![still(1, 1, 1)];
    let index = build_occupancy(&debris, &lattice, 5, Mode::Avoid);
    let found = search(&index, cell(0, 0, 0), cell(1, 1, 0), 5, Mode::Avoid, None);
    assert_eq!(found, Ok(2));
}

#[test]
fn obstacles_everywhere_but_the_start_make_the_goal_unreachable() {
    let lattice = Lattice::new(2, 2, 2, 1).unwrap();
    let mut debris = Vec::new();
    for x in 0..2 {
        for y in 0..2 {
            for z in 0..2 {
                if (x, y, z) != (0, 0, 0) {
                    debris.push(still(x, y, z));
                }
            }
        }
    }
    let index = build_occupancy(&debris, &lattice, 5, Mode::Avoid);
    let found = search(&index, cell(0, 0, 0), cell(1, 1, 0), 5, Mode::Avoid, None);
    assert_eq!(found, Err(Unreachable));
}

#[test]
fn a_cell_of_five_pieces_stops_a_budget_of_four() {
    let lattice = Lattice::new(3, 1, 1, 1).unwrap();
    let debris = vec![still(1, 0, 0); 5];
    let index = build_occupancy(&debris, &lattice, 6, Mode::Deplete);
    let start = cell(0, 0, 0);
    let goal = cell(2, 0, 0);
    assert_eq!(search(&index, start, goal, 6, Mode::Deplete, None), Ok(2));
    assert_eq!(search(&index, start, goal, 6, Mode::Deplete, Some(5)), Ok(2));
    assert_eq!(
        search(&index, start, goal, 6, Mode::Deplete, Some(4)),
        Err(Unreachable)
    );
}

#[test]
fn a_budget_of_four_waits_for_the_pieces_to_part() {
    // five pieces share the middle cell at even ticks only: three of them
    // leave for the other layer at every odd tick
    let lattice = Lattice::new(3, 1, 1, 2).unwrap();
    let mut debris = vec![still(1, 0, 0); 2];
    for _ in 0..3 {
        debris.push(DebrisPiece {
            initial_position: Vec4 { x: 1, y: 0, z: 0, w: 0 },
            velocity: Vec4 { x: 0, y: 0, z: 0, w: 1 },
        });
    }
    let index = build_occupancy(&debris, &lattice, 6, Mode::Deplete);
    let start = cell(0, 0, 0);
    let goal = cell(2, 0, 0);
    assert_eq!(search(&index, start, goal, 6, Mode::Deplete, None), Ok(2));
    assert_eq!(search(&index, start, goal, 6, Mode::Deplete, Some(4)), Ok(2));
    assert_eq!(search(&index, start, goal, 6, Mode::Deplete, Some(1)), Err(Unreachable));
}

#[test]
fn the_start_is_the_goal() {
    let lattice = Lattice::new(2, 2, 2, 1).unwrap();
    let debris = vec![still(0, 0, 0)];
    let index = build_occupancy(&debris, &lattice, 0, Mode::Avoid);
    assert_eq!(search(&index, cell(0, 0, 0), cell(0, 0, 0), 0, Mode::Avoid, None), Ok(0));
}

#[test]
fn the_horizon_bounds_the_route() {
    let lattice = Lattice::new(4, 1, 1, 1).unwrap();
    let debris: Vec<DebrisPiece> = Vec::new();
    let index = build_occupancy(&debris, &lattice, 3, Mode::Avoid);
    let start = cell(0, 0, 0);
    let goal = cell(3, 0, 0);
    assert_eq!(search(&index, start, goal, 3, Mode::Avoid, None), Ok(3));
    assert_eq!(search(&index, start, goal, 2, Mode::Avoid, None), Err(Unreachable));
}

#[test]
fn parallel_and_sequential_snapshots_agree() {
    let lattice = Lattice::new(3, 2, 2, 3).unwrap();
    let debris = vec![
        DebrisPiece {
            initial_position: Vec4 { x: 0, y: 1, z: 0, w: 0 },
            velocity: Vec4 { x: 1, y: 0, z: 1, w: 0 },
        },
        DebrisPiece {
            initial_position: Vec4 { x: 2, y: 0, z: 1, w: -1 },
            velocity: Vec4 { x: -1, y: 1, z: 0, w: 1 },
        },
        still(1, 1, 1),
        still(1, 1, 1),
    ];
    for mode in [Mode::Avoid, Mode::Deplete] {
        let a = build_occupancy(&debris, &lattice, 12, mode);
        let b = build_occupancy_sequential(&debris, &lattice, 12, mode);
        assert_eq!(a.snapshots.len(), 13);
        assert_eq!(b.snapshots.len(), 13);
        for t in 0..13u32 {
            for x in 0..3 {
                for y in 0..2 {
                    for z in 0..2 {
                        assert_eq!(a.count_at(t, cell(x, y, z)), b.count_at(t, cell(x, y, z)));
                    }
                }
            }
        }
        let (two, four) = if mode == Mode::Deplete { (2, 4) } else { (1, 1) };
        assert_eq!(a.count_at(2, cell(1, 1, 1)), two);
        assert_eq!(a.count_at(7, cell(1, 1, 1)), four);
        assert_eq!(a.count_at(2, cell(2, 1, 0)), 1);
        assert_eq!(a.count_at(2, cell(0, 0, 1)), 0);
    }
}

#[test]
fn without_a_budget_debris_is_not_read() {
    let lattice = Lattice::new(3, 3, 3, 1).unwrap();
    let mut walls = Vec::new();
    for y in 0..3 {
        for z in 0..3 {
            walls.push(still(1, y, z));
        }
    }
    let start = cell(0, 0, 0);
    for mode in [Mode::Avoid, Mode::Deplete] {
        let barred = build_occupancy(&walls, &lattice, 9, mode);
        let clear = build_occupancy(&[], &lattice, 9, mode);
        for x in 0..3 {
            for z in 0..3 {
                let goal = cell(x, 2, z);
                let free = search(&clear, start, goal, 9, Mode::Avoid, None);
                assert_eq!(search(&barred, start, goal, 9, Mode::Deplete, None), free);
                assert_eq!(search(&clear, start, goal, 9, Mode::Deplete, Some(0)), free);
                let avoiding = search(&barred, start, goal, 9, Mode::Avoid, None);
                assert_eq!(search(&barred, start, goal, 9, Mode::Deplete, Some(0)), avoiding);
                assert_eq!(avoiding.is_ok(), x == 0);
                assert!(free.is_ok());
            }
        }
    }
}
