use puzzlebox::debris::{generate_obstacles, DebrisPiece, Rule};
use puzzlebox::exhaustive::search_exhaustive;
use puzzlebox::lattice::{vec4_to_vec3, Lattice, Vec3, Vec4};
use puzzlebox::occupancy::{build_occupancy, build_snapshot, construct_bitset, construct_debris_map, Mode};
use puzzlebox::rule_text::{parse, parse_rule, MalformedRule};
use puzzlebox::search::{
    node_heuristic, node_is_goal, node_successors, search, successors, to_node, to_state, Query, SearchState,
    Unreachable,
};
use puzzlebox::variants::{solve_part2, solve_part3};

const LINE: &str = "RULE 1: 8x+10y+3z+5w DIVIDE 9 HAS REMAINDER 4 | DEBRIS VELOCITY (0, -1, 0, 1)";

fn v4(x: i16, y: i16, z: i16, w: i16) -> Vec4 {
    Vec4 { x, y, z, w }
}

fn cell(x: i16, y: i16, z: i16) -> Vec3 {
    Vec3 { x, y, z }
}

#[test]
fn a_rule_line_is_read() {
    let rule = Rule::from_str(LINE).unwrap();
    assert_eq!(rule.coeffs, v4(8, 10, 3, 5));
    assert_eq!(rule.modulus, 9);
    assert_eq!(rule.remainder, 4);
    assert_eq!(rule.debris_velocity, v4(0, -1, 0, 1));
}

#[test]
fn a_rule_is_described_in_words() {
    let rule = Rule::from_str(LINE).unwrap();
    assert_eq!(
        rule.describe(),
        "8x + 10y + 3z + 5w DIVIDE 9 HAS REMAINDER 4 | DEBRIS VELOCITY (0, -1, 0, 1)"
    );
    let other = Rule {
        coeffs: v4(-1, 0, 32767, -32768),
        modulus: 1,
        remainder: 0,
        debris_velocity: v4(10, -10, 100, -100),
    };
    assert_eq!(
        other.describe(),
        "-1x + 0y + 32767z + -32768w DIVIDE 1 HAS REMAINDER 0 | DEBRIS VELOCITY (10, -10, 100, -100)"
    );
}

#[test]
fn negative_and_signed_coefficients_are_read() {
    let rule = Rule::from_str("RULE 7: -2x+3y+0z+-11w DIVIDE 5 HAS REMAINDER 0 | DEBRIS VELOCITY (-1, 1, +1, 0)")
        .unwrap();
    assert_eq!(rule.coeffs, v4(-2, 3, 0, -11));
    assert_eq!(rule.debris_velocity, v4(-1, 1, 1, 0));
}

#[test]
fn lines_that_are_no_rules_are_refused() {
    let bad = [
        "",
        "RULE 1: 8x+10y+3z+5w DIVIDE 9 HAS REMAINDER 4 | DEBRIS VELOCITY",
        "RULE 1: 8x+10y+3z DIVIDE 9 HAS REMAINDER 4 | DEBRIS VELOCITY (0, -1, 0, 1)",
        "RULE 1: 8x+10y+3z+5w+1v DIVIDE 9 HAS REMAINDER 4 | DEBRIS VELOCITY (0, -1, 0, 1)",
        "RULE 1: 8x+10y+3z+w DIVIDE 9 HAS REMAINDER 4 | DEBRIS VELOCITY (0, -1, 0, 1)",
        "RULE 1: 8x+10y+3z+5w DIVIDE nine HAS REMAINDER 4 | DEBRIS VELOCITY (0, -1, 0, 1)",
        "RULE 1: 8x+10y+3z+5w DIVIDE 0 HAS REMAINDER 4 | DEBRIS VELOCITY (0, -1, 0, 1)",
        "RULE 1: 8x+10y+3z+5w DIVIDE -9 HAS REMAINDER 4 | DEBRIS VELOCITY (0, -1, 0, 1)",
        "RULE 1: 8x+10y+3z+5w DIVIDE 9 HAS REMAINDER 40000 | DEBRIS VELOCITY (0, -1, 0, 1)",
        "RULE 1: 8x+10y+3z+5w DIVIDE 9 HAS REMAINDER 4 | DEBRIS VELOCITY (0, -1, 0)",
        "RULE 1: 8x+10y+3z+5w DIVIDE 9 HAS REMAINDER 4 | DEBRIS VELOCITY (0, -1, 0, 1, 2)",
        "RULE 1: 8x+10y+3z+5w DIVIDE 9 HAS REMAINDER 4 | DEBRIS VELOCITY 0, -1, 0, 1",
        "RULE 1: 8x+10y+3z+5w DIVIDE 9 HAS REMAINDER 4 | DEBRIS VELOCITY (0,-1,0,1)",
    ];
    for line in bad {
        assert_eq!(parse_rule(line.as_bytes()), Err(MalformedRule), "{}", line);
    }
}

#[test]
fn a_text_of_rules_is_read_line_by_line() {
    let text = format!("{}\n{}\r\n{}\n", LINE, LINE.replace("DIVIDE 9", "DIVIDE 7"), LINE);
    let rules = parse(&text).unwrap();
    assert_eq!(rules.len(), 3);
    assert_eq!(rules[1].modulus, 7);
    assert_eq!(parse("").unwrap().len(), 0);
    assert_eq!(parse(&format!("{}\n\n{}", LINE, LINE)), Err(MalformedRule));
    assert_eq!(parse(&format!("{}\nRULE", LINE)), Err(MalformedRule));
}

#[test]
fn matching_uses_the_remainder_that_is_never_negative() {
    let rule = Rule { coeffs: v4(1, 1, 1, 1), modulus: 3, remainder: 2, debris_velocity: v4(0, 0, 0, 0) };
    assert!(rule.matches(v4(0, 0, 0, -1)));
    assert!(rule.matches(v4(1, 1, 0, 0)));
    assert!(!rule.matches(v4(1, 1, 1, 0)));
    let wide = Rule { coeffs: v4(32767, 32767, 32767, 32767), modulus: 32767, remainder: 0, debris_velocity: v4(0, 0, 0, 0) };
    assert!(wide.matches(v4(32767, -32768, 5, 7)));
    let minus = Rule { coeffs: v4(-7, 0, 0, 0), modulus: 5, remainder: 3, debris_velocity: v4(0, 0, 0, 0) };
    assert!(minus.matches(v4(1, 0, 0, 0)));
}

#[test]
fn phase_space_is_walked_with_the_layer_fastest() {
    let lattice = Lattice::new(2, 1, 2, 3).unwrap();
    let space = lattice.feasible_space();
    assert_eq!(space.len(), 12);
    assert_eq!(space[0], v4(0, 0, 0, -1));
    assert_eq!(space[1], v4(0, 0, 0, 0));
    assert_eq!(space[2], v4(0, 0, 0, 1));
    assert_eq!(space[3], v4(0, 0, 1, -1));
    assert_eq!(space[6], v4(1, 0, 0, -1));
    assert_eq!(space[11], v4(1, 0, 1, 1));
    assert_eq!(lattice.phase_count(), 12);
    assert_eq!(lattice.phase_point_at(7), v4(1, 0, 0, 0));
}

#[test]
fn every_matching_point_and_no_other_is_seeded() {
    let lattice = Lattice::new(3, 4, 5, 3).unwrap();
    let rules = parse(&format!("{}\n{}", LINE, LINE.replace("REMAINDER 4", "REMAINDER 5"))).unwrap();
    let debris = generate_obstacles(&rules, &lattice);
    let mut expected = Vec::new();
    for rule in &rules {
        for x in 0..3 {
            for y in 0..4 {
                for z in 0..5 {
                    for w in -1..=1 {
                        let sum = 8 * x + 10 * y + 3 * z + 5 * w;
                        if i32::rem_euclid(sum, 9) == rule.remainder as i32 {
                            expected.push(DebrisPiece {
                                initial_position: v4(x as i16, y as i16, z as i16, w as i16),
                                velocity: rule.debris_velocity,
                            });
                        }
                    }
                }
            }
        }
    }
    assert_eq!(debris, expected);
    assert_eq!(debris.len(), 41);
    for piece in &debris[..20] {
        assert!(rules[0].matches(piece.initial_position));
    }
}

#[test]
fn a_point_that_satisfies_two_rules_is_seeded_twice() {
    let lattice = Lattice::new(1, 1, 1, 1).unwrap();
    let rule = Rule { coeffs: v4(1, 1, 1, 1), modulus: 2, remainder: 0, debris_velocity: v4(1, 2, 3, 4) };
    let debris = generate_obstacles(&vec![rule, rule], &lattice);
    assert_eq!(debris.len(), 2);
    assert_eq!(debris[0], debris[1]);
    assert_eq!(debris[0].initial_position, v4(0, 0, 0, 0));
    assert_eq!(debris[0].velocity, v4(1, 2, 3, 4));
}

#[test]
fn positions_wrap_into_the_lattice() {
    let lattice = Lattice::new(10, 15, 60, 3).unwrap();
    let piece = DebrisPiece { initial_position: v4(9, 0, 59, 1), velocity: v4(1, -1, 2, 1) };
    assert_eq!(piece.position_at(&lattice, 0), v4(9, 0, 59, 1));
    assert_eq!(piece.position_at(&lattice, 1), v4(0, 14, 1, -1));
    assert_eq!(piece.position_at(&lattice, 2), v4(1, 13, 3, 0));
    assert_eq!(piece.position_at(&lattice, 3), v4(2, 12, 5, 1));
    assert_eq!(vec4_to_vec3(piece.position_at(&lattice, 2)), Some(cell(1, 13, 3)));
    assert_eq!(vec4_to_vec3(piece.position_at(&lattice, 3)), None);
    let far = DebrisPiece { initial_position: v4(-32768, 32767, 0, -32768), velocity: v4(-32768, 32767, -1, 32767) };
    let p = far.position_at(&lattice, u32::MAX);
    assert!(0 <= p.x && p.x < 10 && 0 <= p.y && p.y < 15 && 0 <= p.z && p.z < 60 && -1 <= p.w && p.w <= 1);
}

#[test]
fn trajectories_repeat_after_the_period() {
    let lattice = Lattice::new(10, 15, 60, 3).unwrap();
    assert_eq!(lattice.period(), 60);
    assert_eq!(Lattice::new(4, 6, 9, 5).unwrap().period(), 180);
    assert_eq!(Lattice::new(32767, 32766, 32765, 32763).unwrap().period(), 384178173511761930);
    assert_eq!(Lattice::new(32767, 32766, 32765, 32761).unwrap().period(), 32767 * 32766 * 32765 * 32761);
    let piece = DebrisPiece { initial_position: v4(3, 7, 11, -1), velocity: v4(7, -4, 13, 2) };
    for t in 0..200u32 {
        assert_eq!(piece.position_at(&lattice, t + 60), piece.position_at(&lattice, t));
    }
}

#[test]
fn cells_are_numbered_densely() {
    let lattice = Lattice::new(10, 15, 60, 3).unwrap();
    assert_eq!(lattice.cell_count(), 9000);
    assert_eq!(lattice.vec3_to_idx(cell(0, 0, 0)), 0);
    assert_eq!(lattice.vec3_to_idx(cell(0, 0, 59)), 59);
    assert_eq!(lattice.vec3_to_idx(cell(0, 1, 0)), 60);
    assert_eq!(lattice.vec3_to_idx(cell(1, 0, 0)), 900);
    assert_eq!(lattice.vec3_to_idx(cell(9, 14, 59)), 8999);
    for i in [0usize, 59, 60, 899, 900, 4567, 8999] {
        assert_eq!(lattice.vec3_to_idx(lattice.idx_to_vec3(i)), i);
    }
    assert!(lattice.in_bounds(cell(9, 14, 59)));
    assert!(!lattice.in_bounds(cell(10, 0, 0)));
    assert!(!lattice.in_bounds(cell(0, -1, 0)));
    assert!(!lattice.in_bounds(cell(0, 0, 60)));
    assert_eq!(Lattice::new(0, 1, 1, 1), None);
    assert_eq!(Lattice::new(1, 1, 1, -3), None);
}

#[test]
fn snapshots_hold_only_the_debris_of_layer_zero() {
    let lattice = Lattice::new(2, 2, 2, 3).unwrap();
    let debris = vec![
        DebrisPiece { initial_position: v4(1, 0, 1, 0), velocity: v4(0, 0, 0, 1) },
        DebrisPiece { initial_position: v4(1, 0, 1, 0), velocity: v4(0, 0, 0, 0) },
        DebrisPiece { initial_position: v4(0, 1, 0, 1), velocity: v4(1, 0, 0, -1) },
    ];
    let at = lattice.vec3_to_idx(cell(1, 0, 1));
    let bits = construct_bitset(&debris, &lattice, 0);
    assert_eq!(bits.len(), 8);
    assert!(bits.contains(at));
    assert_eq!(bits.count_ones(..), 1);
    let map = construct_debris_map(&debris, &lattice, 0);
    assert_eq!(map.len(), 8);
    assert_eq!(map[at], 2);
    assert_eq!(map.iter().sum::<u64>(), 2);
    let map = construct_debris_map(&debris, &lattice, 1);
    assert_eq!(map[at], 1);
    assert_eq!(map[lattice.vec3_to_idx(cell(1, 1, 0))], 1);
    assert_eq!(map.iter().sum::<u64>(), 2);
    let snap = build_snapshot(&debris, &lattice, 3, Mode::Deplete);
    assert_eq!(snap.count_at(at), 2);
    let snap = build_snapshot(&debris, &lattice, 3, Mode::Avoid);
    assert_eq!(snap.count_at(at), 1);
}

#[test]
fn a_node_has_its_allowed_moves_as_successors() {
    let lattice = Lattice::new(2, 2, 2, 1).unwrap();
    let debris = vec![DebrisPiece { initial_position: v4(0, 0, 1, 0), velocity: v4(0, 0, 0, 0) }; 3];
    let index = build_occupancy(&debris, &lattice, 2, Mode::Deplete);
    let q = Query { start: cell(0, 0, 0), goal: cell(1, 1, 1), horizon: 2, mode: Mode::Deplete, resource_budget: Some(4) };
    let from = q.initial_state();
    let next = successors(&index, &q, &from);
    let expected = vec![
        (SearchState { position: cell(0, 0, 0), tick: 1, resource: Some(4) }, 1),
        (SearchState { position: cell(1, 0, 0), tick: 1, resource: Some(4) }, 1),
        (SearchState { position: cell(0, 1, 0), tick: 1, resource: Some(4) }, 1),
        (SearchState { position: cell(0, 0, 1), tick: 1, resource: Some(1) }, 1),
    ];
    assert_eq!(next, expected);
    let poor = SearchState { position: cell(0, 0, 0), tick: 1, resource: Some(2) };
    assert_eq!(successors(&index, &q, &poor).len(), 3);
    let late = SearchState { position: cell(0, 0, 0), tick: 2, resource: Some(4) };
    assert_eq!(successors(&index, &q, &late).len(), 0);
    let avoid = Query { mode: Mode::Avoid, ..q };
    assert_eq!(successors(&index, &avoid, &avoid.initial_state()).len(), 3);
    assert_eq!(q.heuristic(&from), 3);
    assert!(!q.is_goal(&from));
}

#[test]
fn a_node_is_held_as_a_row_of_numbers() {
    let counted = SearchState { position: cell(1, 2, 3), tick: 7, resource: Some(4) };
    assert_eq!(to_node(&counted), (1, 2, 3, 7, true, 4));
    assert_eq!(to_state(&(1, 2, 3, 7, true, 4)), counted);
    let free = SearchState { position: cell(0, 0, 1), tick: 0, resource: None };
    assert_eq!(to_node(&free), (0, 0, 1, 0, false, 0));
    assert_eq!(to_state(&to_node(&free)), free);
    let spent = SearchState { position: cell(0, 0, 1), tick: 0, resource: Some(0) };
    assert_ne!(to_node(&spent), to_node(&free));
    assert_eq!(to_state(&to_node(&spent)), spent);
    let lattice = Lattice::new(2, 2, 2, 1).unwrap();
    let debris = vec![DebrisPiece { initial_position: v4(0, 0, 1, 0), velocity: v4(0, 0, 0, 0) }; 3];
    let index = build_occupancy(&debris, &lattice, 2, Mode::Deplete);
    let q = Query { start: cell(0, 0, 0), goal: cell(1, 1, 1), horizon: 2, mode: Mode::Deplete, resource_budget: Some(4) };
    let from = to_node(&q.initial_state());
    assert_eq!(from, (0, 0, 0, 0, true, 4));
    let rows = node_successors(&index, &q, &from);
    let expected = vec![
        ((0, 0, 0, 1, true, 4), 1),
        ((1, 0, 0, 1, true, 4), 1),
        ((0, 1, 0, 1, true, 4), 1),
        ((0, 0, 1, 1, true, 1), 1),
    ];
    assert_eq!(rows, expected);
    let states = successors(&index, &q, &q.initial_state());
    assert_eq!(rows.len(), states.len());
    for (row, state) in rows.iter().zip(states.iter()) {
        assert_eq!(to_state(&row.0), state.0);
    }
    assert_eq!(node_heuristic(&q, &from), 3);
    assert_eq!(node_heuristic(&q, &(1, 1, 0, 2, true, 4)), 1);
    assert!(!node_is_goal(&q, &from));
    assert!(node_is_goal(&q, &(1, 1, 1, 2, true, 0)));
    let unlimited = Query { resource_budget: None, ..q };
    assert_eq!(to_node(&unlimited.initial_state()), (0, 0, 0, 0, false, 0));
    assert_eq!(node_successors(&index, &unlimited, &(0, 0, 0, 0, false, 0))[3], ((0, 0, 1, 1, false, 0), 1));
    assert_eq!(search(&index, cell(0, 0, 0), cell(0, 0, 1), 2, Mode::Deplete, Some(2)), Err(Unreachable));
    assert_eq!(search(&index, cell(0, 0, 0), cell(0, 0, 1), 2, Mode::Deplete, Some(3)), Ok(1));
    assert_eq!(search(&index, cell(0, 0, 0), cell(0, 0, 1), 2, Mode::Deplete, None), Ok(1));
}

#[test]
fn the_two_searches_agree_on_a_small_lattice() {
    let lattice = Lattice::new(3, 3, 3, 3).unwrap();
    let rules = parse("RULE 1: 1x+2y+1z+1w DIVIDE 3 HAS REMAINDER 0 | DEBRIS VELOCITY (1, 0, 1, 1)").unwrap();
    let debris = generate_obstacles(&rules, &lattice);
    assert_eq!(debris.len(), 27);
    let start = cell(0, 0, 0);
    let mut lengths = Vec::new();
    for mode in [Mode::Avoid, Mode::Deplete] {
        let index = build_occupancy(&debris, &lattice, 10, mode);
        for budget in [None, Some(0), Some(1), Some(3)] {
            for x in 0..3 {
                for y in 0..3 {
                    for z in 0..3 {
                        let goal = cell(x, y, z);
                        let fast = search(&index, start, goal, 10, mode, budget);
                        let slow = search_exhaustive(&index, start, goal, 10, mode, budget);
                        assert_eq!(fast, slow);
                        if goal == cell(2, 2, 2) {
                            lengths.push(fast);
                        }
                    }
                }
            }
        }
    }
    assert_eq!(lengths[0], lengths[1]);
    assert_eq!(lengths[4], Ok(6));
    assert_eq!(lengths[5], lengths[0]);
    if let (Ok(avoiding), Ok(paying)) = (lengths[0], lengths[7]) {
        assert!(avoiding >= paying && paying >= 6);
    }
}

#[test]
fn the_exhaustive_search_meets_the_scenarios() {
    let lattice = Lattice::new(2, 2, 2, 1).unwrap();
    let still = |x, y, z| DebrisPiece { initial_position: v4(x, y, z, 0), velocity: v4(0, 0, 0, 0) };
    let index = build_occupancy(&[still(1, 1, 1)], &lattice, 5, Mode::Avoid);
    assert_eq!(search_exhaustive(&index, cell(0, 0, 0), cell(1, 1, 0), 5, Mode::Avoid, None), Ok(2));
    let all: Vec<DebrisPiece> = (1..8).map(|i| still(i / 4, (i / 2) % 2, i % 2)).collect();
    let index = build_occupancy(&all, &lattice, 5, Mode::Avoid);
    assert_eq!(search_exhaustive(&index, cell(0, 0, 0), cell(1, 1, 0), 5, Mode::Avoid, None), Err(Unreachable));
    assert_eq!(search_exhaustive(&index, cell(0, 0, 0), cell(0, 0, 0), 5, Mode::Avoid, None), Ok(0));
    assert_eq!(search_exhaustive(&index, cell(0, 0, 0), cell(5, 5, 5), 5, Mode::Avoid, None), Err(Unreachable));
    assert_eq!(search_exhaustive(&index, cell(-1, 0, 0), cell(0, 1, 0), 5, Mode::Deplete, Some(2)), Ok(2));
    assert_eq!(search(&index, cell(-1, 0, 0), cell(0, 1, 0), 5, Mode::Deplete, Some(2)), Ok(2));
}

#[test]
fn both_parts_are_solved_from_the_debris() {
    let lattice = Lattice::new(3, 1, 1, 1).unwrap();
    let debris = vec![DebrisPiece { initial_position: v4(1, 0, 0, 0), velocity: v4(0, 0, 0, 0) }; 5];
    let start = cell(0, 0, 0);
    let goal = cell(2, 0, 0);
    assert_eq!(solve_part2(&debris, &lattice, start, goal, 6), Err(Unreachable));
    assert_eq!(solve_part3(&debris, &lattice, start, goal, 6, 4), Err(Unreachable));
    assert_eq!(solve_part3(&debris, &lattice, start, goal, 6, 5), Ok(2));
    assert_eq!(solve_part2(&[], &lattice, start, goal, 6), Ok(2));
    assert_eq!(solve_part3(&debris, &lattice, start, goal, 6, 0), solve_part2(&debris, &lattice, start, goal, 6));
}
