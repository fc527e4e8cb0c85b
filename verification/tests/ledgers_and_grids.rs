use puzzlebox::danger;
use puzzlebox::grid_ops::{
    self, apply, checked_max_row_or_col_sum, exec, max_row_or_col_sum, parse_grid, parse_instruction, Axis,
    Instruction, Op, Target,
};
use puzzlebox::ledger::{
    checked_sum_top_three, idx, parse_balance_line, parse_txn_line, solve_part1, solve_part2, solve_part3,
    sum_top_three,
};

const LEDGER: &str = "Alpha HAS 131\nBravo HAS 804\nCharlie HAS 348\nDelta HAS 187\n\nFROM Bravo TO Alpha AMT 100\nFROM Alpha TO Delta AMT 300\nFROM Charlie TO Bravo AMT 400\nFROM Delta TO Charlie AMT 10";

#[test]
fn accounts_are_placed_by_their_first_letter() {
    assert_eq!(idx("Alpha"), 0);
    assert_eq!(idx("Zulu"), 25);
    assert_eq!(idx("B"), 1);
    assert_eq!(idx("alpha"), 32);
}

#[test]
fn balance_lines_are_read() {
    assert_eq!(parse_balance_line("Alpha HAS 131"), Some((0, 131)));
    assert_eq!(parse_balance_line("Zulu HAS -32768"), Some((25, -32768)));
    assert_eq!(parse_balance_line("Zulu HAS HAS 7"), None);
    assert_eq!(parse_balance_line("Zulu HAS 32768"), None);
    assert_eq!(parse_balance_line("Zulu has 7"), None);
    assert_eq!(parse_balance_line(" HAS 7"), None);
    assert_eq!(parse_balance_line("9 HAS 7"), None);
}

#[test]
fn transfer_lines_are_read() {
    assert_eq!(parse_txn_line("FROM Bravo TO Alpha AMT 100"), Some((1, 0, 100)));
    assert_eq!(parse_txn_line("  x  Delta y Charlie z -7 and more"), Some((3, 2, -7)));
    assert_eq!(parse_txn_line("FROM Bravo TO Alpha AMT"), None);
    assert_eq!(parse_txn_line("FROM Bravo TO Alpha AMT x"), None);
    assert_eq!(parse_txn_line("FROM 1 TO Alpha AMT 5"), None);
    assert_eq!(parse_txn_line(""), None);
}

#[test]
fn the_three_greatest_balances_are_summed() {
    let mut balances = [0i16; 26];
    assert_eq!(sum_top_three(&balances), 0);
    balances[3] = 7;
    balances[9] = -4;
    balances[25] = 100;
    balances[0] = 50;
    balances[1] = 50;
    assert_eq!(sum_top_three(&balances), 200);
    assert_eq!(checked_sum_top_three(&balances), Some(200));
    let all = [-5i16; 26];
    assert_eq!(sum_top_three(&all), -15);
    balances[2] = 32767;
    assert_eq!(checked_sum_top_three(&balances), None);
    assert_eq!(checked_sum_top_three(&[i16::MIN; 26]), None);
}

#[test]
fn the_three_greatest_do_not_depend_on_the_order() {
    let mut rising = [0i16; 26];
    let mut falling = [0i16; 26];
    let mut mixed = [0i16; 26];
    for i in 0..26 {
        rising[i] = 10 * i as i16 - 100;
        falling[25 - i] = 10 * i as i16 - 100;
        mixed[(7 * i) % 26] = 10 * i as i16 - 100;
    }
    assert_eq!(sum_top_three(&rising), 150 + 140 + 130);
    assert_eq!(sum_top_three(&falling), 420);
    assert_eq!(sum_top_three(&mixed), 420);
    assert_eq!(checked_sum_top_three(&mixed), Some(420));
    let mut twice = [-9i16; 26];
    twice[4] = 5;
    twice[20] = 5;
    assert_eq!(sum_top_three(&twice), 1);
    twice.reverse();
    assert_eq!(sum_top_three(&twice), 1);
}

#[test]
fn transfers_are_carried_out_in_full() {
    assert_eq!(solve_part1(LEDGER), Some(1104 + 477));
    assert_eq!(solve_part1("A HAS 1\n\n"), Some(1));
    assert_eq!(solve_part1("A HAS 1\n"), None);
    assert_eq!(solve_part1("A HAS 1\n\nFROM A TO b AMT 1"), None);
    assert_eq!(solve_part1("A HAS 1\nb HAS 1\n\nFROM A TO B AMT 1"), None);
    assert_eq!(solve_part1("A HAS 32767\nB HAS 1\n\nFROM A TO B AMT 32767"), None);
    assert_eq!(solve_part1("A HAS 30000\nB HAS 1\n\nFROM A TO B AMT 30000"), Some(30001));
}

#[test]
fn transfers_are_capped_by_the_balance() {
    assert_eq!(solve_part2(LEDGER), Some(1052 + 408 + 10));
    assert_eq!(solve_part2("A HAS 5\nB HAS 1\n\nFROM A TO B AMT 9\nFROM A TO B AMT 9"), Some(6));
    assert_eq!(solve_part2("A HAS -5\nB HAS 1\n\nFROM A TO B AMT 9"), Some(0));
}

#[test]
fn debts_are_repaid_when_there_is_money() {
    assert_eq!(solve_part3(LEDGER), Some(1062 + 408));
    assert_eq!(solve_part3("A HAS 5\nB HAS 1\nC HAS 0\n\nFROM A TO B AMT 9\nFROM B TO A AMT 2"), Some(6));
    assert_eq!(
        solve_part3("A HAS 5\nB HAS 1\nC HAS 0\n\nFROM A TO B AMT 9\nFROM B TO C AMT 20\nFROM C TO A AMT 3"),
        Some(6)
    );
}

fn numbered() -> [i64; 900] {
    let mut grid = [0i64; 900];
    for (i, cell) in grid.iter_mut().enumerate() {
        *cell = i as i64;
    }
    grid
}

#[test]
fn the_greatest_line_is_found() {
    let grid = numbered();
    assert_eq!(max_row_or_col_sum(grid), (870..900).sum::<i64>());
    let mut grid = [-1i64; 900];
    assert_eq!(max_row_or_col_sum(grid), -30);
    grid[5 * 30 + 7] = 1000;
    assert_eq!(max_row_or_col_sum(grid), 971);
    assert_eq!(checked_max_row_or_col_sum(&grid), Some(971));
    grid[0] = i64::MAX;
    grid[1] = 5;
    assert_eq!(checked_max_row_or_col_sum(&grid), Some(i64::MAX - 23));
    grid[1] = 100;
    assert_eq!(checked_max_row_or_col_sum(&grid), None);
    assert_eq!(checked_max_row_or_col_sum(&[i64::MIN; 900]), None);
}

#[test]
fn instructions_are_read() {
    assert_eq!(
        parse_instruction(b"SHIFT ROW 3 BY 7"),
        Some(Instruction::Shift { axis: Axis::Row, idx: 2, by: 7 })
    );
    assert_eq!(
        parse_instruction(b"SHIFT COL 30 WITH 0 more"),
        Some(Instruction::Shift { axis: Axis::Col, idx: 29, by: 0 })
    );
    assert_eq!(
        parse_instruction(b"ADD -5 ALL"),
        Some(Instruction::Change { op: Op::Add, amount: -5, target: Target::All })
    );
    assert_eq!(
        parse_instruction(b"SUB 2 COL 9"),
        Some(Instruction::Change { op: Op::Sub, amount: 2, target: Target::Line(Axis::Col, 8) })
    );
    assert_eq!(
        parse_instruction(b"MULTIPLY 4 ROW 1"),
        Some(Instruction::Change { op: Op::Multiply, amount: 4, target: Target::Line(Axis::Row, 0) })
    );
    for bad in [
        "", "SHIFT", "SHIFT ROW 3 BY", "SHIFT ROW 0 BY 1", "SHIFT DIAG 3 BY 1", "SHIFT ROW x BY 1",
        "ADD", "ADD 5", "ADD x ALL", "ADD 5 ROW", "ADD 5 ROW 0", "ADD 5 all", "DIVIDE 5 ALL", " ADD 5 ALL",
        "ADD  5 ALL",
    ] {
        assert_eq!(parse_instruction(bad.as_bytes()), None, "{}", bad);
    }
}

#[test]
fn rows_and_columns_are_shifted() {
    let mut grid = numbered();
    assert!(exec("SHIFT ROW 2 BY 3", &mut grid));
    assert_eq!(&grid[30..36], &[57, 58, 59, 30, 31, 32]);
    assert_eq!(grid[59], 56);
    assert_eq!(grid[29], 29);
    assert_eq!(grid[60], 60);
    let mut grid = numbered();
    assert!(exec("SHIFT COL 1 BY 30", &mut grid));
    assert_eq!(grid, numbered());
    assert!(exec("SHIFT COL 1 BY 1", &mut grid));
    assert_eq!(grid[0], 870);
    assert_eq!(grid[30], 0);
    assert_eq!(grid[870], 840);
    assert_eq!(grid[1], 1);
    let mut grid = numbered();
    assert!(!exec("SHIFT COL 1 BY 31", &mut grid));
    assert!(!exec("SHIFT ROW 31 BY 1", &mut grid));
    assert!(!exec("SHIFT SOMETHING", &mut grid));
    assert_eq!(grid, numbered());
    assert!(apply(&Instruction::Shift { axis: Axis::Col, idx: 845, by: 1 }, &mut grid));
    assert_eq!(grid[845], 0);
    assert_eq!(grid[875], 845);
    assert_eq!(grid[815], 815);
}

#[test]
fn cells_are_changed_and_reduced() {
    let mut grid = numbered();
    assert!(exec("ADD 5 ALL", &mut grid));
    assert_eq!(grid[0], 5);
    assert_eq!(grid[899], 904);
    assert!(exec("SUB 10 ROW 1", &mut grid));
    assert_eq!(grid[0], 1_073_741_824 - 5);
    assert_eq!(grid[29], 24);
    assert_eq!(grid[30], 35);
    assert!(exec("MULTIPLY -2 COL 30", &mut grid));
    assert_eq!(grid[29], 1_073_741_824 - 48);
    assert_eq!(grid[59], 1_073_741_824 - 2 * 64);
    assert_eq!(grid[58], 63);
    assert!(exec("MULTIPLY 9223372036854775807 ALL", &mut grid));
    assert_eq!(grid[58], (63i128 * i64::MAX as i128).rem_euclid(1_073_741_824) as i64);
    let mut grid = [i64::MAX; 900];
    assert!(exec("ADD 9223372036854775807 ROW 30", &mut grid));
    assert_eq!(grid[899], (2 * (i64::MAX as i128)).rem_euclid(1_073_741_824) as i64);
    assert_eq!(grid[0], i64::MAX);
    assert!(!exec("ADD 1 ROW 31", &mut grid));
    assert!(exec("ADD 1 COL 31", &mut grid));
    assert_eq!(grid[30], 0);
    assert_eq!(grid[0], i64::MAX);
}

#[test]
fn grids_are_read() {
    let grid = parse_grid(b"1 2 -3\n4").unwrap();
    assert_eq!(&grid[..5], &[1, 2, -3, 4, 0]);
    assert_eq!(parse_grid(b"").unwrap(), [0i64; 900]);
    assert_eq!(parse_grid(b"1 x"), None);
    let long = "7 ".repeat(900) + "x";
    assert_eq!(parse_grid(long.as_bytes()).unwrap(), [7i64; 900]);
    let parts = grid_ops::parse_input("1 2\n3\n\nADD 1 ALL\n\nTAKE\n\nACT").unwrap();
    assert_eq!(parts, (&b"1 2\n3"[..], &b"ADD 1 ALL"[..], &b"TAKE\n\nACT"[..]));
    assert_eq!(grid_ops::parse_input("1 2\n\nADD 1 ALL"), None);
}

#[test]
fn instructions_run_in_turn_or_by_a_flow() {
    let grid = numbered();
    let text = "ADD 1 ALL\nMULTIPLY 2 ROW 30\nSHIFT COL 30 BY 1";
    let last: i64 = (870..900).map(|v| 2 * (v + 1)).sum::<i64>() - 1800 + 870;
    assert_eq!(grid_ops::solve_part1(text.as_bytes(), grid), Some(last));
    assert_eq!(grid_ops::solve_part1(b"", grid), Some((870..900).sum()));
    assert_eq!(grid_ops::solve_part1(b"ADD 1 ALL\nNOP", grid), None);
    assert_eq!(grid_ops::solve_part2(text.as_bytes(), b"TAKE\nTAKE\nCYCLE\nACT", grid), Some((870..900).map(|v| 2 * v).sum()));
    assert_eq!(grid_ops::solve_part2(text.as_bytes(), b"", grid), Some((870..900).sum()));
    assert_eq!(grid_ops::solve_part2(text.as_bytes(), b"ACT", grid), None);
    assert_eq!(grid_ops::solve_part2(text.as_bytes(), b"TAKE\nTAKE\nTAKE\nTAKE", grid), None);
    assert_eq!(grid_ops::solve_part2(text.as_bytes(), b"TAKE\nSKIP", grid), None);
    assert_eq!(grid_ops::solve_part3(text.as_bytes(), b"TAKE\nACT", grid), Some(last));
    assert_eq!(grid_ops::solve_part3(text.as_bytes(), b"TAKE\nACT\nTAKE\nACT\nTAKE\nACT", grid), Some(last));
    assert_eq!(grid_ops::solve_part3(text.as_bytes(), b"TAKE\nCYCLE\nTAKE\nACT", grid), Some(last - 29));
    assert_eq!(grid_ops::solve_part3(text.as_bytes(), b"TAKE\nCYCLE", grid), None);
    assert_eq!(grid_ops::solve_part3(text.as_bytes(), b"", grid), None);
    assert_eq!(grid_ops::solve_part3(b"", b"TAKE", grid), Some((870..900).sum()));
    assert_eq!(grid_ops::solve_part3(text.as_bytes(), b"TAKE\nACT\nACT", grid), None);
}

#[test]
fn the_least_danger_is_found() {
    let mut text = String::new();
    for i in 0..2500 {
        text += &format!("{} ", 1 + (i * 7) % 9);
    }
    let grid = danger::parse(&text).unwrap();
    assert_eq!(grid[0], 1);
    assert_eq!(grid[2499], 1 + ((2499 * 7) % 9) as u8);
    let mut least = u64::MAX;
    for i in 0..50 {
        let row: u64 = (0..50).map(|j| grid[i * 50 + j] as u64).sum();
        let col: u64 = (0..50).map(|j| grid[j * 50 + i] as u64).sum();
        least = least.min(row).min(col);
    }
    assert_eq!(danger::solve_part1(&text), Some(least));
    assert_eq!(danger::least_danger(&grid), least);
    assert_eq!(danger::solve_part1("1 2 256"), None);
    assert_eq!(danger::solve_part1("1 2 -3"), None);
    assert_eq!(danger::solve_part1("255"), Some(0));
    let mut best = vec![vec![0u64; 50]; 50];
    for x in 0..50 {
        for y in 0..50 {
            let here = grid[x * 50 + y] as u64;
            best[x][y] = here + match (x, y) {
                (0, 0) => 0,
                (0, _) => best[0][y - 1],
                (_, 0) => best[x - 1][0],
                _ => best[x - 1][y].min(best[x][y - 1]),
            };
        }
    }
    assert_eq!(danger::solve_part23::<15>(&text), Some(best[14][14]));
    assert_eq!(danger::solve_part23::<50>(&text), Some(best[49][49]));
    assert_eq!(danger::solve_part23::<1>(&text), Some(1));
    assert_eq!(danger::solve_part23::<0>(&text), None);
    assert_eq!(danger::solve_part23::<51>(&text), None);
    assert_eq!(danger::solve_part23::<2>("1 x"), None);
    assert_eq!(danger::steps(&grid, 50, (49, 49)).len(), 0);
    assert_eq!(danger::steps(&grid, 50, (0, 0)), vec![((1, 0), grid[50] as u64), ((0, 1), grid[1] as u64)]);
    assert_eq!(danger::steps(&grid, 50, (usize::MAX, 0)).len(), 0);
    assert!(danger::at_goal(50, (49, 49)) && !danger::at_goal(50, (49, 48)));
}
