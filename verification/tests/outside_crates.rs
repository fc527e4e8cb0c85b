use puzzlebox::cube::{self, absorb, dominant_product, dominant_sum, make_grid, parse_order, top_two_product, Cube, Part};
use puzzlebox::cycles::{self, longest_cycle, longest_cycle_starting_from, parse_road, parse_roads, top_product, top_trips};
use puzzlebox::islands::{checked_dist, distances, nearest, nearest_neighbour, parse_islands, spread, tour};
use puzzlebox::staircase::{
    self, calculate_path_counts, construct_graph, contract_graph, count_paths_dp, count_stairs, find_kth_path,
    load_input, parse_moves, path_text, plan_graph, solve_for_kth_path, sorted_nodes, CountError, Staircase,
    StaircaseName, StaircaseStep, StepGraph,
};
use puzzlebox::tree::{
    build, first_common, insert, join_codes, parents, parse_node, path_to, widest_layer, Arena, Tree,
};

const ITEMS: [(&str, u32); 8] =
    [("a", 50), ("b", 30), ("c", 70), ("d", 20), ("e", 40), ("f", 60), ("g", 80), ("h", 45)];

#[test]
fn a_search_tree_is_built_in_the_arena() {
    let (arena, root) = build(&ITEMS).unwrap();
    assert_eq!(root, 0);
    assert_eq!(arena.len(), 8);
    assert_eq!(arena[0].left, Some(1));
    assert_eq!(arena[0].right, Some(2));
    assert_eq!(arena[1].left, Some(3));
    assert_eq!(arena[1].right, Some(4));
    assert_eq!(arena[2].left, Some(5));
    assert_eq!(arena[2].right, Some(6));
    assert_eq!(arena[4].right, Some(7));
    assert_eq!(arena[7].parent, Some(4));
    assert_eq!(arena[7].code, "h");
    assert_eq!(arena[7].id, 45);
    assert_eq!(arena[0].parent, None);
    assert!(build(&[]).is_none());
    let (single, root) = build(&ITEMS[..1]).unwrap();
    assert_eq!(single.len(), 1);
    assert_eq!(single[root].height(&single), 1);
}

#[test]
fn equal_numbers_go_to_the_right() {
    let (mut arena, root) = build(&[("a", 5), ("b", 5)]).unwrap();
    assert_eq!(arena[root].right, Some(1));
    assert_eq!(insert(&mut arena, root, "c", 5), Some(2));
    assert_eq!(arena[1].right, Some(2));
    assert_eq!(insert(&mut arena, root, "d", 4), Some(3));
    assert_eq!(arena[root].left, Some(3));
    assert_eq!(insert(&mut arena, 17, "e", 4), None);
    assert_eq!(arena.len(), 4);
}

#[test]
fn heights_and_layers_are_measured() {
    let (arena, root) = build(&ITEMS).unwrap();
    assert_eq!(arena[root].height(&arena), 4);
    assert_eq!(arena[1].height(&arena), 3);
    assert_eq!(arena[3].height(&arena), 1);
    let mut sums = vec![0u32; 4];
    assert!(arena[root].layer_sums(&arena, 0, &mut sums));
    assert_eq!(sums, [50, 100, 200, 45]);
    let mut short = vec![0u32; 3];
    assert!(!arena[root].layer_sums(&arena, 0, &mut short));
    let mut full = vec![u32::MAX - 49, 0, 0, 0];
    assert!(!arena[root].layer_sums(&arena, 0, &mut full));
    assert_eq!(widest_layer(&arena, root), Some(800));
    assert_eq!(widest_layer(&arena, 99), None);
}

#[test]
fn a_dangling_link_counts_as_none() {
    let mut arena = Arena::new();
    let mut top = Tree::new_leaf("top", 1, None);
    top.left = Some(7);
    top.right = Some(0);
    let key = arena.insert(top);
    assert_eq!(arena[key].height(&arena), 2);
    assert_eq!(path_to(&arena, key, 5), ["top"]);
    assert_eq!(path_to(&arena, key, 0), ["top"]);
    assert_eq!(parents(&arena, "top"), [0]);
}

#[test]
fn ways_lead_down_and_up_the_tree() {
    let (arena, root) = build(&ITEMS).unwrap();
    let down = path_to(&arena, root, 45);
    assert_eq!(down, ["a", "b", "e", "h"]);
    assert_eq!(join_codes(&down), "a-b-e-h");
    assert_eq!(join_codes(&path_to(&arena, root, 500_000)), "a-c-g");
    assert_eq!(join_codes(&vec![]), "");
    assert_eq!(join_codes(&vec!["x"]), "x");
    assert_eq!(parents(&arena, "h"), [7, 4, 1, 0]);
    assert_eq!(parents(&arena, "d"), [3, 1, 0]);
    assert_eq!(parents(&arena, "a"), [0]);
    assert_eq!(parents(&arena, "zz"), Vec::<usize>::new());
    assert_eq!(first_common(&parents(&arena, "h"), &parents(&arena, "d")), Some(1));
    assert_eq!(first_common(&parents(&arena, "h"), &parents(&arena, "g")), Some(0));
    assert_eq!(first_common(&[1, 2], &[3]), None);
    assert_eq!(first_common(&[], &[3]), None);
}

#[test]
fn nodes_are_read() {
    assert_eq!(parse_node("ozNxANO | 576690"), Some(("ozNxANO", 576_690)));
    assert_eq!(parse_node("é | 4294967295"), Some(("é", u32::MAX)));
    assert_eq!(parse_node(" |  | 5"), None);
    assert_eq!(parse_node("a | b | 5"), None);
    assert_eq!(parse_node("a|5"), None);
    assert_eq!(parse_node("a | 4294967296"), None);
    assert_eq!(parse_node(" | 7"), Some(("", 7)));
    let forest = puzzlebox::tree::parse_input("a | 5\nb | 3\n\na | 0\nb | 0\nmore").unwrap();
    assert_eq!(forest.items, [("a", 5), ("b", 3)]);
    assert_eq!((forest.first, forest.second), ("a", "b"));
    assert!(puzzlebox::tree::parse_input("a | 5\n\na | 0").is_none());
    assert!(puzzlebox::tree::parse_input("a | 5\nb\n\na | 0\nb | 0").is_none());
    assert!(puzzlebox::tree::parse_input("a | 5\n\na | 0\nb").is_none());
    assert_eq!(puzzlebox::tree::parse_input("\na | 0\nb | 0").unwrap().items.len(), 0);
}

fn total(grids: &[grid::Grid<u8>]) -> u32 {
    grids.iter().map(|g| g.iter().map(|&v| v as u32).sum::<u32>()).sum()
}

#[test]
fn a_face_absorbs_a_value() {
    let mut face = make_grid();
    assert_eq!(face.size(), (80, 80));
    assert_eq!(dominant_sum(&face), 80);
    assert!(absorb(&mut face, Part::Row(3), 98));
    assert_eq!(face.get(3, 0), Some(&99));
    assert_eq!(face.get(2, 0), Some(&1));
    assert!(absorb(&mut face, Part::Col(79), 2));
    assert_eq!(face.get(3, 79), Some(&1));
    assert_eq!(face.get(3, 78), Some(&99));
    assert_eq!(face.get(0, 79), Some(&3));
    assert_eq!(dominant_sum(&face), 79 * 99 + 1);
    assert!(absorb(&mut face, Part::Face, 100));
    assert_eq!(face.get(0, 0), Some(&1));
    assert_eq!(face.get(3, 0), Some(&99));
    assert!(!absorb(&mut face, Part::Row(80), 1));
    assert!(!absorb(&mut face, Part::Col(80), 1));
    assert!(!absorb(&mut face, Part::Face, 200));
    assert_eq!(cube::clamp(6), 6);
    assert_eq!(cube::bump(100, 1), Some(1));
    assert_eq!(cube::bump(1, 255), None);
    assert_eq!(cube::bump(0, 0), None);
}

#[test]
fn instructions_are_understood() {
    assert_eq!(parse_order(b"FACE - VALUE 5"), Some((Part::Face, 5)));
    assert_eq!(parse_order(b"ROW 12 - VALUE 255"), Some((Part::Row(11), 255)));
    assert_eq!(parse_order(b"COL 1 - WORTH 0"), Some((Part::Col(0), 0)));
    assert_eq!(parse_order(b"FACE 9 - VALUE 5"), Some((Part::Face, 5)));
    assert_eq!(parse_order(b"ROW - VALUE 5"), Some((Part::Row(0), 5)));
    for bad in [
        "", "FACE", "FACE - 5", "FACE - VALUE 256", "FACE - VALUE x", "ROW 0 - VALUE 5", "DIAG 1 - VALUE 5",
        "ROW x - VALUE 5", "FACE 0 - VALUE 5", "ROW 1 -VALUE 5",
    ] {
        assert_eq!(parse_order(bad.as_bytes()), None, "{}", bad);
    }
}

#[test]
fn a_face_instruction_changes_the_upper_face() {
    let mut cube = Cube::new();
    assert!(cube.apply_instruction("FACE - VALUE 5"));
    assert_eq!(cube.absorption, [32000, 0, 0, 0, 0, 0]);
    assert_eq!(dominant_sum(&cube.grids_part2[0]), 480);
    assert_eq!(dominant_sum(&cube.grids_part3[0]), 480);
    assert_eq!(dominant_sum(&cube.grids_part2[1]), 80);
    assert_eq!(top_two_product(&cube.absorption), 0);
    assert_eq!(dominant_product(&cube.grids_part2), 480 * 80u128.pow(5));
    assert!(cube.apply_twist(b'U'));
    assert_eq!(cube.current_face(), 1);
    assert!(cube.apply_instruction("FACE - VALUE 200"));
    assert_eq!(cube.absorption, [32000, 1_280_000, 0, 0, 0, 0]);
    assert_eq!(top_two_product(&cube.absorption), 32000 * 1_280_000);
    assert_eq!(cube.grids_part2[1].get(5, 5), Some(&1));
    assert!(!cube.apply_instruction("NOTHING"));
    assert!(!cube.apply_twist(b'x'));
}

#[test]
fn a_row_goes_all_the_way_round() {
    let mut cube = Cube::new();
    assert!(cube.apply_instruction("ROW 2 - VALUE 10"));
    assert_eq!(cube.absorption[0], 800);
    assert_eq!(cube.vertical_loop, [0, 1, 2, 3]);
    assert_eq!((cube.face_left, cube.face_right), (4, 5));
    assert_eq!(total(&cube.grids_part2), 6 * 6400 + 800);
    assert_eq!(total(&cube.grids_part3), 6 * 6400 + 4 * 800);
    assert_eq!(total(&cube.grids_part3[1..2]), 6400);
    assert_eq!(total(&cube.grids_part3[3..4]), 6400);
    assert_eq!(cube.grids_part2[0].get(1, 7), Some(&11));
    assert_eq!(cube.grids_part2[0].get(0, 7), Some(&1));
    let mut cube = Cube::new();
    assert!(cube.apply_instruction("COL 80 - VALUE 99"));
    assert_eq!(cube.vertical_loop, [0, 1, 2, 3]);
    assert_eq!(total(&cube.grids_part3), 6 * 6400 + 4 * 80 * 99);
    assert_eq!(total(&cube.grids_part3[4..6]), 2 * 6400);
    assert_eq!(cube.grids_part2[0].get(7, 79), Some(&100));
    assert!(!cube.apply_instruction("COL 80 - VALUE 200"));
    let mut cube = Cube::new();
    assert!(!cube.apply_instruction("COL 81 - VALUE 1"));
}

#[test]
fn faces_turn_as_the_cube_is_twisted() {
    let mut cube = Cube::new();
    for face in 0..6 {
        *cube.grids_part2[face].get_mut(0, 1).unwrap() = 9;
    }
    cube.twist_U();
    assert_eq!(cube.vertical_loop, [1, 2, 3, 0]);
    assert_eq!(cube.grids_part2[4].get(78, 0), Some(&9));
    assert_eq!(cube.grids_part2[4].get(0, 1), Some(&1));
    assert_eq!(cube.grids_part2[5].get(1, 79), Some(&9));
    assert_eq!(cube.grids_part2[0].get(0, 1), Some(&9));
    assert_eq!(cube.grids_part3[4].get(78, 0), Some(&1));
    let mut cube = Cube::new();
    for face in 0..6 {
        *cube.grids_part3[face].get_mut(0, 1).unwrap() = 9;
    }
    cube.twist_L();
    assert_eq!(cube.vertical_loop, [5, 1, 4, 3]);
    assert_eq!((cube.face_left, cube.face_right), (0, 2));
    assert_eq!(cube.grids_part3[1].get(78, 0), Some(&9));
    assert_eq!(cube.grids_part3[2].get(79, 78), Some(&9));
    assert_eq!(cube.grids_part3[4].get(79, 78), Some(&9));
    assert_eq!(cube.grids_part3[3].get(1, 79), Some(&9));
    assert_eq!(cube.grids_part3[0].get(0, 1), Some(&9));
    assert_eq!(cube.grids_part3[5].get(0, 1), Some(&9));
    let mut a = Cube::new();
    let mut b = Cube::new();
    *a.grids_part2[3].get_mut(4, 9).unwrap() = 7;
    *b.grids_part2[3].get_mut(4, 9).unwrap() = 7;
    a.twist_D();
    a.twist_U();
    b.twist_R();
    b.twist_L();
    for cube in [&a, &b] {
        assert_eq!(cube.vertical_loop, [0, 1, 2, 3]);
        assert_eq!((cube.face_left, cube.face_right), (4, 5));
        assert_eq!(cube.grids_part2[3].get(4, 9), Some(&7));
        assert_eq!(total(&cube.grids_part2), 6 * 6400 + 6);
    }
}

#[test]
fn a_twist_and_the_twist_back_cancel() {
    let marked = || {
        let mut cube = Cube::new();
        for face in 0..6 {
            *cube.grids_part2[face].get_mut(face, 2 * face + 1).unwrap() = 10 + face as u8;
            *cube.grids_part3[face].get_mut(79 - face, 5).unwrap() = 20 + face as u8;
        }
        cube
    };
    let same = |a: &Cube, b: &Cube| {
        a.vertical_loop == b.vertical_loop
            && (a.face_left, a.face_right) == (b.face_left, b.face_right)
            && a.grids_part2 == b.grids_part2
            && a.grids_part3 == b.grids_part3
    };
    let still = marked();
    let mut cube = marked();
    cube.twist_L();
    assert!(!same(&cube, &still));
    cube.twist_R();
    assert!(same(&cube, &still));
    cube.twist_R();
    cube.twist_L();
    assert!(same(&cube, &still));
    cube.twist_U();
    assert!(!same(&cube, &still));
    cube.twist_D();
    assert!(same(&cube, &still));
    cube.twist_D();
    cube.twist_U();
    assert!(same(&cube, &still));
    for _ in 0..4 {
        cube.twist_L();
    }
    assert!(same(&cube, &still));
    for _ in 0..4 {
        cube.twist_U();
    }
    assert!(same(&cube, &still));
}

#[test]
fn instructions_and_twists_are_run() {
    let end = cube::run(b"FACE - VALUE 5\nROW 1 - VALUE 1\nCOL 3 - VALUE 2", b" UL\n").unwrap();
    let same = cube::run_input("FACE - VALUE 5\nROW 1 - VALUE 1\nCOL 3 - VALUE 2\n\n UL\n").unwrap();
    assert_eq!(same.absorption, end.absorption);
    assert_eq!(same.grids_part3, end.grids_part3);
    assert!(cube::run_input("FACE - VALUE 5").is_none());
    assert_eq!(end.absorption[0], 32000);
    assert_eq!(end.absorption[1], 80);
    assert_eq!(end.absorption.iter().sum::<u32>(), 32000 + 80 + 160);
    assert_eq!(total(&end.grids_part2), 6 * 6400 + 5 * 6400 + 80 + 160);
    assert_eq!(total(&end.grids_part3), 6 * 6400 + 5 * 6400 + 4 * 80 + 4 * 160);
    assert!(cube::run(b"FACE - VALUE 5", b"Q").is_none());
    assert!(cube::run(b"FACE - VALUE 5\nFACE", b"").is_none());
    let fresh = cube::run(b"", b"UUU").unwrap();
    assert_eq!(fresh.vertical_loop, [0, 1, 2, 3]);
    assert_eq!(dominant_product(&fresh.grids_part3), 80u128.pow(6));
}

const PLAN: &str = "S1 : 0 -> 6 : FROM START TO END\nS2 : 2 -> 4 : FROM S1 TO S1\nS3 : 1 -> 5 : FROM S1 TO S2\n\nPossible Moves : 1, 2";

fn plan() -> (usize, Vec<Staircase>, Vec<usize>) {
    let (end, branches) = load_input(PLAN).unwrap();
    let moves = staircase::load_moves(PLAN).unwrap();
    assert_eq!(staircase::load_moves(""), None);
    assert_eq!(staircase::load_moves("S1 : 0 -> 6"), None);
    (end, branches, moves)
}

#[test]
fn names_and_steps_are_read_and_written() {
    assert_eq!(StaircaseName::from_str("S12"), Some(StaircaseName(12)));
    assert_eq!(StaircaseName::from_str("12"), Some(StaircaseName(12)));
    assert_eq!(StaircaseName::from_str("S256"), None);
    assert_eq!(StaircaseName::from_str("SS1"), None);
    assert_eq!(StaircaseName::from_str("S"), None);
    assert_eq!(StaircaseName(7).to_text(), "S7");
    assert_eq!(StaircaseStep::from_str("S3_17"), Some(StaircaseStep(3, 17)));
    assert_eq!(StaircaseStep::from_str("3_S17_9"), Some(StaircaseStep(3, 17)));
    assert_eq!(StaircaseStep::from_str("S3"), None);
    assert_eq!(StaircaseStep::from_str("S3_"), None);
    assert_eq!(StaircaseStep(3, 255).to_text(), "S3_255");
    assert_eq!(path_text(&vec![StaircaseStep(1, 0), StaircaseStep(2, 10)]), "S1_0-S2_10");
    assert_eq!(path_text(&vec![]), "");
}

#[test]
fn a_plan_is_read() {
    let (end, branches, moves) = plan();
    assert_eq!(end, 6);
    assert_eq!(moves, [1, 2]);
    assert_eq!(
        branches,
        [
            Staircase { name: StaircaseName(2), start: 2, end: 4, feeding: StaircaseName(1), returning: StaircaseName(1) },
            Staircase { name: StaircaseName(3), start: 1, end: 5, feeding: StaircaseName(1), returning: StaircaseName(2) },
        ]
    );
    assert_eq!(load_input(""), None);
    assert_eq!(load_input("S1 : 0 -> x"), None);
    assert_eq!(load_input("S1 : 0 -> 6\nS2 : 2 -> 4 : FROM S1 TO"), None);
    assert_eq!(load_input("S1 : 0 -> 6\n\nS2 nothing").unwrap().1.len(), 0);
    assert_eq!(parse_moves(b"Possible Moves : 1, 3, 5"), Some(vec![1, 3, 5]));
    assert_eq!(parse_moves(b"Possible Moves 1, 3, 5"), None);
    assert_eq!(parse_moves(b"Moves: 1,3"), None);
}

#[test]
fn the_ways_up_the_main_staircase_are_counted() {
    assert_eq!(count_stairs(0, &[1, 2]), Some(1));
    assert_eq!(count_stairs(5, &[1, 2]), Some(8));
    assert_eq!(count_stairs(10, &[1, 3, 5]), Some(47));
    assert_eq!(count_stairs(3, &[0, 1]), Some(1));
    assert_eq!(count_stairs(3, &[1, 0]), Some(8));
    assert_eq!(count_stairs(4, &[]), Some(0));
    assert!(count_stairs(185, &[1, 2]).is_some());
    assert_eq!(count_stairs(186, &[1, 2]), None);
}

#[test]
fn the_graph_of_a_plan_is_drawn_and_contracted() {
    let (end, branches, moves) = plan();
    let g = plan_graph(end, &branches).unwrap();
    assert_eq!(g.edge_count(), 16);
    assert_eq!(g.node_count(), 16);
    assert_eq!(g.edge_weight((1, 2), (2, 2)), Some(&1));
    assert_eq!(g.edge_weight((3, 5), (2, 5)), Some(&1));
    assert_eq!(g.edge_weight((2, 2), (1, 2)), None);
    let wide = contract_graph(&g, &moves).unwrap();
    assert_eq!(wide.edge_count(), 32);
    assert_eq!(wide.edge_weight((1, 2), (2, 3)), Some(&2));
    assert_eq!(wide.edge_weight((1, 0), (1, 2)), Some(&2));
    assert_eq!(wide.edge_weight((1, 0), (1, 1)), Some(&1));
    assert_eq!(wide.edge_weight((1, 0), (1, 3)), None);
    assert_eq!(contract_graph(&g, &[0]).unwrap().edge_weight((1, 0), (1, 0)), Some(&0));
    assert!(plan_graph(256, &[]).is_none());
    assert!(plan_graph(6, &[Staircase { end: 256, ..branches[0] }]).is_none());
    let mut g = StepGraph::new();
    assert!(construct_graph(&mut g, 255, &[]));
    assert_eq!(g.edge_count(), 255);
    assert_eq!(sorted_nodes(&vec![(2, 1), (1, 9), (1, 200), (0, 255), (1, 9)]), [(0, 255), (1, 9), (1, 200), (2, 1)]);
}

#[test]
fn the_ways_over_all_staircases_are_counted() {
    let (end, branches, moves) = plan();
    let g = plan_graph(end, &branches).unwrap();
    assert_eq!(staircase::solve_part2(&g, end, &moves), Some(47));
    assert_eq!(count_paths_dp(&g, StaircaseStep(1, 0), StaircaseStep(1, 6)), Some(2));
    assert_eq!(count_paths_dp(&g, StaircaseStep(1, 6), StaircaseStep(1, 0)), Some(0));
    assert_eq!(count_paths_dp(&g, StaircaseStep(9, 9), StaircaseStep(1, 6)), Some(0));
    let table = calculate_path_counts(&g, StaircaseStep(1, 6)).unwrap();
    assert_eq!(table.len(), 65536);
    assert_eq!(table[256 + 6], Some(1));
    assert_eq!(table[256 + 4], Some(1));
    assert_eq!(table[256 + 2], Some(2));
    assert_eq!(table[256 + 1], Some(2));
    assert_eq!(table[2 * 256 + 5], Some(0));
    assert_eq!(table[0], None);
    assert_eq!(staircase::solve_part2(&g, end, &[0]), None);
    let mut doubling = StepGraph::new();
    for i in 0..130u8 {
        for side in [2u8, 3] {
            doubling.add_edge((1, i), (side, i), 1);
            doubling.add_edge((side, i), (1, i + 1), 1);
        }
    }
    assert_eq!(calculate_path_counts(&doubling, StaircaseStep(1, 130)), Err(CountError::Overflow));
    assert_eq!(count_paths_dp(&doubling, StaircaseStep(1, 3), StaircaseStep(1, 130)), None);
    assert_eq!(count_paths_dp(&doubling, StaircaseStep(1, 3), StaircaseStep(1, 127)), Some(1 << 124));
    let mut looped = plan_graph(3, &[]).unwrap();
    looped.add_edge((1, 3), (1, 0), 1);
    assert_eq!(calculate_path_counts(&looped, StaircaseStep(1, 3)), Err(CountError::Cyclic));
    assert_eq!(count_paths_dp(&looped, StaircaseStep(1, 0), StaircaseStep(1, 3)), None);
}

#[test]
fn the_kth_way_is_found() {
    let (end, branches, moves) = plan();
    let g = plan_graph(end, &branches).unwrap();
    let way = |k| solve_for_kth_path(&g, end, &moves, k).map(|p| path_text(&p));
    assert_eq!(way(1).unwrap(), "S1_0-S1_1-S1_2-S1_3-S1_4-S1_5-S1_6");
    assert_eq!(way(2).unwrap(), "S1_0-S1_1-S1_2-S1_3-S1_4-S1_6");
    assert_eq!(way(7).unwrap(), "S1_0-S1_1-S1_2-S2_2-S2_3-S1_4-S1_6");
    assert_eq!(way(47).unwrap(), "S1_0-S1_2-S2_3-S2_4-S1_5-S1_6");
    assert_eq!(way(48), None);
    assert_eq!(way(0), None);
    let table = calculate_path_counts(&g, StaircaseStep(1, 6)).unwrap();
    let first = find_kth_path(&g, StaircaseStep(1, 0), StaircaseStep(1, 6), 1, &table).unwrap();
    assert_eq!(path_text(&first), "S1_0-S1_1-S1_2-S1_3-S1_4-S1_5-S1_6");
    let last = find_kth_path(&g, StaircaseStep(1, 0), StaircaseStep(1, 6), 2, &table).unwrap();
    assert_eq!(path_text(&last), "S1_0-S1_1-S1_2-S2_2-S2_3-S2_4-S1_4-S1_5-S1_6");
    assert_eq!(find_kth_path(&g, StaircaseStep(1, 0), StaircaseStep(1, 6), 3, &table), None);
    assert_eq!(find_kth_path(&g, StaircaseStep(3, 1), StaircaseStep(1, 6), 1, &table), None);
    assert_eq!(find_kth_path(&g, StaircaseStep(1, 6), StaircaseStep(1, 6), 1, &table), Some(vec![StaircaseStep(1, 6)]));
    assert_eq!(find_kth_path(&g, StaircaseStep(1, 6), StaircaseStep(1, 6), 2, &table), None);
}

#[test]
fn contraction_adds_edges_and_no_node() {
    let (end, branches, moves) = plan();
    let g = plan_graph(end, &branches).unwrap();
    let wide = contract_graph(&g, &moves).unwrap();
    assert_eq!(wide.node_count(), 16);
    let mut before: Vec<(u8, u8)> = g.nodes().collect();
    let mut after: Vec<(u8, u8)> = wide.nodes().collect();
    before.sort();
    after.sort();
    assert_eq!(before, after);
    assert!(wide.contains_node((2, 5)));
    assert!(!wide.contains_node((2, 6)));
    let mut lone = StepGraph::new();
    lone.add_node((1, 0));
    lone.add_node((1, 6));
    let wide = contract_graph(&lone, &[0, 1]).unwrap();
    assert_eq!(wide.node_count(), 2);
    assert_eq!(wide.edge_count(), 2);
    assert_eq!(staircase::solve_part2(&lone, 6, &[1, 2]), Some(0));
    let mut short = StepGraph::new();
    assert!(construct_graph(&mut short, 2, &[]));
    assert_eq!(short.node_count(), 3);
    assert_eq!(staircase::solve_part2(&short, 2, &[1, 2]), Some(2));
    assert_eq!(staircase::solve_part2(&short, 2, &[2]), Some(2));
}

#[test]
fn ways_are_not_counted_round_a_cycle() {
    let mut knot = StepGraph::new();
    knot.add_edge((1, 0), (1, 1), 1);
    knot.add_edge((1, 1), (1, 1), 1);
    assert_eq!(calculate_path_counts(&knot, StaircaseStep(1, 1)), Err(CountError::Cyclic));
    assert_eq!(count_paths_dp(&knot, StaircaseStep(1, 0), StaircaseStep(1, 1)), None);
    let mut ring = StepGraph::new();
    ring.add_edge((1, 0), (1, 1), 1);
    ring.add_edge((1, 1), (2, 1), 1);
    ring.add_edge((2, 1), (1, 0), 1);
    assert_eq!(calculate_path_counts(&ring, StaircaseStep(7, 7)), Err(CountError::Cyclic));
    assert_eq!(staircase::solve_part2(&ring, 1, &[1]), None);
    assert_eq!(solve_for_kth_path(&ring, 1, &[1], 1), None);
    let (end, branches, _) = plan();
    let g = plan_graph(end, &branches).unwrap();
    assert_eq!(solve_for_kth_path(&g, end, &[0], 1), None);
    let mut bare = StepGraph::new();
    bare.add_node((1, 0));
    let table = calculate_path_counts(&bare, StaircaseStep(1, 1)).unwrap();
    assert_eq!(table[256], Some(0));
    assert_eq!(table[257], Some(1));
    assert_eq!(table.iter().filter(|c| c.is_some()).count(), 2);
}

#[test]
fn a_last_step_or_a_move_may_be_too_far() {
    let (end, branches, moves) = plan();
    let g = plan_graph(end, &branches).unwrap();
    assert_eq!(staircase::solve_part2(&g, 256, &moves), None);
    assert_eq!(solve_for_kth_path(&g, 256, &moves, 1), None);
    assert_eq!(staircase::solve_part2(&g, 255, &moves), Some(0));
    assert_eq!(solve_for_kth_path(&g, 255, &moves, 1), None);
    let mut steep = StepGraph::new();
    steep.add_edge((1, 0), (1, 1), 200);
    steep.add_edge((1, 1), (1, 2), 200);
    assert!(contract_graph(&steep, &[400]).is_none());
    assert_eq!(staircase::solve_part2(&steep, 2, &[400]), None);
    assert_eq!(solve_for_kth_path(&steep, 2, &[400], 1), None);
    assert_eq!(staircase::solve_part2(&steep, 2, &[200]), Some(1));
    assert_eq!(staircase::solve_part2(&steep, 2, &[200, 255]), Some(1));
}

#[test]
fn numbers_of_ways_may_not_fit() {
    let mut doubling = StepGraph::new();
    for i in 0..130u8 {
        for side in [2u8, 3] {
            doubling.add_edge((1, i), (side, i), 1);
            doubling.add_edge((side, i), (1, i + 1), 1);
        }
    }
    assert_eq!(staircase::solve_part2(&doubling, 127, &[1]), Some(1 << 127));
    assert_eq!(staircase::solve_part2(&doubling, 128, &[1]), None);
    assert_eq!(staircase::solve_part2(&doubling, 130, &[1]), None);
    assert_eq!(solve_for_kth_path(&doubling, 128, &[1], 1), None);
    let first = solve_for_kth_path(&doubling, 127, &[1], 1).unwrap();
    assert_eq!(first.len(), 255);
    assert_eq!(first[0], StaircaseStep(1, 0));
    assert!(first.iter().all(|s| s.0 != 3));
    assert_eq!(first[254], StaircaseStep(1, 127));
    let last = solve_for_kth_path(&doubling, 127, &[1], 1 << 127).unwrap();
    assert_eq!(last.len(), 255);
    assert!(last.iter().all(|s| s.0 != 2));
    assert_eq!(solve_for_kth_path(&doubling, 127, &[1], (1 << 127) + 1), None);
}

#[test]
fn the_ways_are_numbered_in_the_order_of_their_steps() {
    let (end, branches, moves) = plan();
    let g = plan_graph(end, &branches).unwrap();
    let mut ways: Vec<Vec<(u8, u8)>> = Vec::new();
    for k in 1..=47u128 {
        let way = solve_for_kth_path(&g, end, &moves, k).unwrap();
        ways.push(way.iter().map(|s| (s.0, s.1)).collect());
    }
    let wide = contract_graph(&g, &moves).unwrap();
    for way in &ways {
        assert_eq!(way[0], (1, 0));
        assert_eq!(way[way.len() - 1], (1, 6));
        for pair in way.windows(2) {
            assert!(wide.contains_edge(pair[0], pair[1]));
        }
    }
    for pair in ways.windows(2) {
        assert!(pair[0] < pair[1]);
    }
    assert_eq!(solve_for_kth_path(&g, end, &moves, 48), None);
}

const ROADS: &str = "STT -> A | 3\nSTT -> B | 1\nA -> C | 4\nB -> A | 1\nC -> STT | 2\nC -> B | 7\nB -> D | 10\nD -> STT | 1\nE -> STT | 5";

#[test]
fn roads_are_read() {
    assert_eq!(parse_road(b"A -> B | 5"), Some((&b"A"[..], &b"B"[..], 5)));
    assert_eq!(parse_road(b"A -> B -> C | 5"), Some((&b"A"[..], &b"B -> C"[..], 5)));
    assert_eq!(parse_road(b"A -> B"), None);
    assert_eq!(parse_road(b"A | 5"), None);
    assert_eq!(parse_road(b"A -> B | -5"), None);
    let roads = parse_roads(ROADS.as_bytes()).unwrap();
    let names: Vec<&[u8]> = vec![b"STT", b"A", b"B", b"C", b"D", b"E"];
    assert_eq!(roads.names, names);
    assert_eq!(roads.next[0], [(1, 3), (2, 1)]);
    assert_eq!(roads.next[2], [(1, 1), (4, 10)]);
    assert_eq!(roads.next[5], [(0, 5)]);
    assert!(parse_roads(b"A -> B | 5\nnothing").is_none());
    assert_eq!(parse_roads(b"").unwrap().names.len(), 0);
}

#[test]
fn the_cheapest_trips_are_found() {
    let roads = parse_roads(ROADS.as_bytes()).unwrap();
    assert_eq!(top_trips(&roads, b"STT", true), Some(4));
    assert_eq!(top_trips(&roads, b"STT", false), Some(132));
    assert_eq!(top_trips(&roads, b"E", false), Some(16 * 11 * 7));
    assert_eq!(top_trips(&roads, b"nowhere", false), None);
    let dear = parse_roads(b"STT -> A | 4294967296\nSTT -> B | 4294967296\nSTT -> C | 2").unwrap();
    assert_eq!(top_trips(&dear, b"STT", false), None);
    assert_eq!(top_trips(&dear, b"STT", true), Some(1));
    assert_eq!(top_trips(&dear, b"C", false), Some(1));
    let near = parse_roads(b"STT -> A | 4294967296\nSTT -> B | 4294967295\nSTT -> C | 1").unwrap();
    assert_eq!(top_trips(&near, b"STT", false), Some(4294967296 * 4294967295));
    assert_eq!(cycles::exits(&roads.next, true, 0), [(1, 1), (2, 1)]);
    assert_eq!(cycles::exits(&roads.next, false, 0), [(1, 3), (2, 1)]);
    assert_eq!(cycles::exits(&roads.next, false, 99), []);
    assert_eq!(top_product(&vec![]), Some(1));
    assert_eq!(top_product(&vec![(0, 5)]), Some(5));
    assert_eq!(top_product(&vec![(0, 5), (1, 9), (2, 2), (3, 7)]), Some(315));
    assert_eq!(top_product(&vec![(0, 1 << 32), (1, 1 << 32), (2, 0)]), None);
    assert_eq!(top_product(&vec![(0, 1 << 32), (1, (1 << 32) - 1), (2, 0)]), Some(0));
    assert_eq!(top_product(&vec![(0, 1 << 64), (1, 0)]), None);
}

#[test]
fn the_dearest_round_trip_is_found() {
    let roads = parse_roads(ROADS.as_bytes()).unwrap();
    let each: Vec<Option<u64>> = (0..6).map(|i| longest_cycle_starting_from(&roads, i)).collect();
    assert_eq!(each, [Some(25), Some(25), Some(25), Some(25), Some(25), Some(0)]);
    assert_eq!(longest_cycle(&roads), Some(25));
    assert_eq!(longest_cycle(&parse_roads(b"").unwrap()), None);
    let own = parse_roads(b"A -> A | 7\nA -> B | 1").unwrap();
    assert_eq!(longest_cycle_starting_from(&own, 0), Some(7));
    assert_eq!(longest_cycle(&own), Some(7));
    let wide = parse_roads(b"A -> B | 18446744073709551615\nB -> A | 1").unwrap();
    assert_eq!(longest_cycle_starting_from(&wide, 0), None);
}

#[test]
fn islands_are_measured() {
    let islands = parse_islands("(3, -4)\n(-1, 1)\n(10, 10)\n(0, -2)\n(2, 0)").unwrap();
    assert_eq!(islands, [(3, -4), (-1, 1), (10, 10), (0, -2), (2, 0)]);
    assert_eq!(distances((0, 0), &islands), Some(vec![7, 2, 20, 2, 2]));
    assert_eq!(spread(&islands), Some(18));
    assert_eq!(nearest((0, 0), &islands), Some(1));
    assert_eq!(nearest((10, 9), &islands), Some(2));
    assert_eq!(nearest_neighbour(&islands, 1), Some(4));
    assert_eq!(tour(islands.clone()), Some(36));
    assert_eq!(tour(vec![]), Some(0));
    assert_eq!(spread(&vec![]), None);
    assert_eq!(spread(&vec![(4, 4)]), Some(0));
    assert_eq!(nearest((0, 0), &vec![]), None);
    assert_eq!(nearest_neighbour(&vec![(1, 1), (1, 1)], 0), None);
    assert_eq!(checked_dist((i64::MIN, i64::MIN), (i64::MAX, i64::MAX)), None);
    assert_eq!(spread(&vec![(i64::MIN, -1)]), Some(0));
    assert_eq!(spread(&vec![(i64::MIN, i64::MIN)]), None);
    assert_eq!(tour(vec![(i64::MAX, 0), (i64::MIN, 0)]), None);
    assert!(parse_islands("(1, 2)\n(1 2)").is_none());
}
