//! A square grid of numbers whose rows and columns instructions shift and
//! change.

use vstd::prelude::*;
use vstd::string::StringSliceAdditionalSpecFns;
use std::collections::VecDeque;
use crate::text::{
    lines, lines_spec, parse_signed, parse_signed_spec, parse_unsigned, parse_unsigned_spec, same_bytes, split,
    split_once, split_once_spec, split_spec, tokens, tokens_spec,
};

verus! {

/// The side of the grid.
pub const SIDE: usize = 30;

/// The number of cells of the grid.
pub const CELLS: usize = 900;

/// What cell values are reduced by after each change.
pub const MODULO: i64 = 1_073_741_824;

/// The sum of the first `n` cells of row `i`.
pub open spec fn row_sum(grid: Seq<i64>, i: int, n: int) -> int
    decreases n,
{
    if n <= 0 {
        0
    } else {
        row_sum(grid, i, n - 1) + grid[i * 30 + (n - 1)]
    }
}

/// The sum of the first `n` cells of column `i`.
pub open spec fn col_sum(grid: Seq<i64>, i: int, n: int) -> int
    decreases n,
{
    if n <= 0 {
        0
    } else {
        col_sum(grid, i, n - 1) + grid[(n - 1) * 30 + i]
    }
}

/// The greater of two numbers.
pub open spec fn greater(a: int, b: int) -> int {
    if a >= b {
        a
    } else {
        b
    }
}

/// The greatest sum of a whole row or column among the first `k` rows and
/// columns; without any, the least 64-bit number.
pub open spec fn greatest_line(grid: Seq<i64>, k: int) -> int
    decreases k,
{
    if k <= 0 {
        i64::MIN as int
    } else {
        greater(greater(greatest_line(grid, k - 1), col_sum(grid, k - 1, 30)), row_sum(grid, k - 1, 30))
    }
}

/// Whether the sum of every whole row and column fits 64 bits.
pub open spec fn sums_fit(grid: Seq<i64>) -> bool {
    &&& forall|i: int| 0 <= i < 30 ==> i64::MIN <= #[trigger] row_sum(grid, i, 30) <= i64::MAX
    &&& forall|i: int| 0 <= i < 30 ==> i64::MIN <= #[trigger] col_sum(grid, i, 30) <= i64::MAX
}

/// The greatest sum of a row or of a column.
pub fn max_row_or_col_sum(grid: [i64; CELLS]) -> (r: i64)
    requires
        sums_fit(grid@),
    ensures
        r == greatest_line(grid@, 30),
{
    let mut best: i64 = i64::MIN;
    let mut i: usize = 0;
    while i < SIDE
        invariant
            i <= SIDE,
            sums_fit(grid@),
            best == greatest_line(grid@, i as int),
        decreases SIDE - i,
    {
        let mut col: i128 = 0;
        let mut row: i128 = 0;
        let mut j: usize = 0;
        while j < SIDE
            invariant
                i < SIDE,
                j <= SIDE,
                col == col_sum(grid@, i as int, j as int),
                row == row_sum(grid@, i as int, j as int),
                -0x8000_0000_0000_0000 * j <= col <= 0x8000_0000_0000_0000 * j,
                -0x8000_0000_0000_0000 * j <= row <= 0x8000_0000_0000_0000 * j,
            decreases SIDE - j,
        {
            col = col + grid[j * SIDE + i] as i128;
            row = row + grid[i * SIDE + j] as i128;
            j += 1;
        }
        assert(i64::MIN <= row_sum(grid@, i as int, 30) <= i64::MAX);
        assert(i64::MIN <= col_sum(grid@, i as int, 30) <= i64::MAX);
        let col_total: i64 = col as i64;
        let row_total: i64 = row as i64;
        if col_total > best {
            best = col_total;
        }
        if row_total > best {
            best = row_total;
        }
        i += 1;
    }
    best
}

/// A row or a column.
#[derive(Clone, Copy, Debug, PartialEq, Eq, Structural)]
pub enum Axis {
    Row,
    Col,
}

/// How a cell is changed.
#[derive(Clone, Copy, Debug, PartialEq, Eq, Structural)]
pub enum Op {
    Add,
    Sub,
    Multiply,
}

/// The cells that a change applies to: all, or those of one row or column,
/// counted from zero.
#[derive(Clone, Copy, Debug, PartialEq, Eq, Structural)]
pub enum Target {
    All,
    Line(Axis, usize),
}

/// An instruction: to shift the cells of one line along it, or to change the
/// value of some cells.
#[derive(Clone, Copy, Debug, PartialEq, Eq, Structural)]
pub enum Instruction {
    Shift { axis: Axis, idx: usize, by: usize },
    Change { op: Op, amount: i64, target: Target },
}

/// The axis that a word names.
pub open spec fn axis_spec(word: Seq<u8>) -> Option<Axis> {
    if word == "ROW".spec_bytes() {
        Some(Axis::Row)
    } else if word == "COL".spec_bytes() {
        Some(Axis::Col)
    } else {
        None
    }
}

/// The change that a word names.
pub open spec fn op_spec(word: Seq<u8>) -> Option<Op> {
    if word == "ADD".spec_bytes() {
        Some(Op::Add)
    } else if word == "SUB".spec_bytes() {
        Some(Op::Sub)
    } else if word == "MULTIPLY".spec_bytes() {
        Some(Op::Multiply)
    } else {
        None
    }
}

/// The number of a line as a word writes it, counted from one, as a number
/// counted from zero.
pub open spec fn line_number_spec(word: Seq<u8>) -> Option<usize> {
    match parse_unsigned_spec(word, usize::MAX as nat) {
        Some(n) => if n >= 1 {
            Some((n - 1) as usize)
        } else {
            None
        },
        None => None,
    }
}

/// The cells that the words from the third on name.
pub open spec fn target_spec(words: Seq<Seq<u8>>) -> Option<Target> {
    if words.len() < 3 {
        None
    } else if words[2] == "ALL".spec_bytes() {
        Some(Target::All)
    } else if words.len() < 4 {
        None
    } else {
        match (axis_spec(words[2]), line_number_spec(words[3])) {
            (Some(axis), Some(idx)) => Some(Target::Line(axis, idx)),
            _ => None,
        }
    }
}

/// The instruction that a line writes, if it writes one. Its words are
/// parted by single blanks: `SHIFT ROW 3 BY 7`, `ADD 5 ALL`, `SUB 2 COL 9`,
/// `MULTIPLY 4 ROW 1`. Lines are counted from one; what follows the words
/// that are read is not.
pub open spec fn parse_instruction_spec(line: Seq<u8>) -> Option<Instruction> {
    let words = split_spec(line, seq![0x20u8]);
    if words[0] == "SHIFT".spec_bytes() {
        if words.len() < 5 {
            None
        } else {
            match (axis_spec(words[1]), line_number_spec(words[2]), parse_unsigned_spec(words[4], usize::MAX as nat)) {
                (Some(axis), Some(idx), Some(by)) => Some(Instruction::Shift { axis, idx, by: by as usize }),
                _ => None,
            }
        }
    } else {
        match op_spec(words[0]) {
            Some(op) => if words.len() < 2 {
                None
            } else {
                match (parse_signed_spec(words[1], i64::MIN as int, i64::MAX as int), target_spec(words)) {
                    (Some(amount), Some(target)) => Some(Instruction::Change { op, amount: amount as i64, target }),
                    _ => None,
                }
            },
            None => None,
        }
    }
}

/// Reads the name of an axis.
fn axis_of(word: &[u8]) -> (r: Option<Axis>)
    ensures
        r == axis_spec(word@),
{
    if same_bytes(word, "ROW".as_bytes()) {
        Some(Axis::Row)
    } else if same_bytes(word, "COL".as_bytes()) {
        Some(Axis::Col)
    } else {
        None
    }
}

/// Reads the number of a line.
fn line_number(word: &[u8]) -> (r: Option<usize>)
    ensures
        r == line_number_spec(word@),
{
    match parse_unsigned(word, usize::MAX as u64) {
        Some(n) => if n >= 1 {
            Some((n - 1) as usize)
        } else {
            None
        },
        None => None,
    }
}

/// Reads one line as an instruction.
pub fn parse_instruction(line: &[u8]) -> (r: Option<Instruction>)
    ensures
        r == parse_instruction_spec(line@),
{
    let blank: [u8; 1] = [0x20];
    assert(blank@ =~= seq![0x20u8]);
    let words = split(line, blank.as_slice());
    let ghost spec_words = split_spec(line@, seq![0x20u8]);
    assert(words.len() >= 1) by {
        crate::text::lemma_split_not_empty(line@, seq![0x20u8]);
    }
    let first: &[u8] = words[0];
    if same_bytes(first, "SHIFT".as_bytes()) {
        if words.len() < 5 {
            return None;
        }
        let axis = axis_of(words[1]);
        let idx = line_number(words[2]);
        let by = parse_unsigned(words[4], usize::MAX as u64);
        match (axis, idx, by) {
            (Some(axis), Some(idx), Some(by)) => Some(Instruction::Shift { axis, idx, by: by as usize }),
            _ => None,
        }
    } else {
        let op = if same_bytes(first, "ADD".as_bytes()) {
            Op::Add
        } else if same_bytes(first, "SUB".as_bytes()) {
            Op::Sub
        } else if same_bytes(first, "MULTIPLY".as_bytes()) {
            Op::Multiply
        } else {
            return None;
        };
        if words.len() < 3 {
            assert(target_spec(spec_words) is None);
            return None;
        }
        let amount = match parse_signed(words[1], i64::MIN, i64::MAX) {
            Some(a) => a,
            None => { return None; },
        };
        let target = if same_bytes(words[2], "ALL".as_bytes()) {
            Target::All
        } else if words.len() < 4 {
            return None;
        } else {
            match (axis_of(words[2]), line_number(words[3])) {
                (Some(axis), Some(idx)) => Target::Line(axis, idx),
                _ => { return None; },
            }
        };
        Some(Instruction::Change { op, amount, target })
    }
}

/// The number of cells that a line holds. A column counted from a number
/// beyond the side begins in a later row and holds the fewer cells.
pub open spec fn line_len(axis: Axis, idx: int) -> int {
    match axis {
        Axis::Row => 30,
        Axis::Col => if idx < 900 {
            (900 - idx + 29) / 30
        } else {
            0
        },
    }
}

/// The offset of the cell with number `k` on a line.
pub open spec fn line_cell(axis: Axis, idx: int, k: int) -> int {
    match axis {
        Axis::Row => idx * 30 + k,
        Axis::Col => idx + 30 * k,
    }
}

/// The number on the line of the cell at offset `c`, if it lies on the line.
pub open spec fn on_line(axis: Axis, idx: int, c: int) -> Option<int> {
    match axis {
        Axis::Row => if idx * 30 <= c < idx * 30 + 30 {
            Some(c - idx * 30)
        } else {
            None
        },
        Axis::Col => if c >= idx && (c - idx) % 30 == 0 {
            Some((c - idx) / 30)
        } else {
            None
        },
    }
}

/// Whether an instruction can be carried out: a row lies in the grid, and a
/// line is shifted by no more than the side.
pub open spec fn feasible(instr: Instruction) -> bool {
    match instr {
        Instruction::Shift { axis, idx, by } => by <= 30 && (axis == Axis::Row ==> idx < 30),
        Instruction::Change { op, amount, target } => match target {
            Target::All => true,
            Target::Line(axis, idx) => axis == Axis::Row ==> idx < 30,
        },
    }
}

/// The value of a cell after a change: the sum, difference or product with
/// the amount, reduced to its remainder by `MODULO`, which is never negative.
pub open spec fn changed(op: Op, amount: i64, v: i64) -> i64 {
    match op {
        Op::Add => ((v + amount) % (MODULO as int)) as i64,
        Op::Sub => ((v - amount) % (MODULO as int)) as i64,
        Op::Multiply => ((v * amount) % (MODULO as int)) as i64,
    }
}

/// The grid after a feasible instruction. A shift moves each cell of the
/// line `by` places on, those at the end to the beginning; into a column
/// that holds fewer cells than the side, zeros move from beyond its end.
pub open spec fn apply_spec(instr: Instruction, grid: Seq<i64>) -> Seq<i64> {
    Seq::new(
        900,
        |c: int|
            match instr {
                Instruction::Shift { axis, idx, by } => match on_line(axis, idx as int, c) {
                    Some(k) => {
                        let from = (k - by) % 30;
                        if from < line_len(axis, idx as int) {
                            grid[line_cell(axis, idx as int, from)]
                        } else {
                            0i64
                        }
                    },
                    None => grid[c],
                },
                Instruction::Change { op, amount, target } => match target {
                    Target::All => changed(op, amount, grid[c]),
                    Target::Line(axis, idx) => if on_line(axis, idx as int, c) is Some {
                        changed(op, amount, grid[c])
                    } else {
                        grid[c]
                    },
                },
            },
    )
}

/// The value of a cell after a change.
fn change(op: Op, amount: i64, v: i64) -> (r: i64)
    ensures
        r == changed(op, amount, v),
{
    let wide: i128 = match op {
        Op::Add => v as i128 + amount as i128,
        Op::Sub => v as i128 - amount as i128,
        Op::Multiply => {
            assert(-0x4000_0000_0000_0000_0000_0000_0000_0000 <= v * amount
                <= 0x4000_0000_0000_0000_0000_0000_0000_0000) by (nonlinear_arith)
                requires
                    -0x8000_0000_0000_0000 <= v <= 0x7fff_ffff_ffff_ffff,
                    -0x8000_0000_0000_0000 <= amount <= 0x7fff_ffff_ffff_ffff,
            ;
            (v as i128) * (amount as i128)
        },
    };
    proof {
        vstd::arithmetic::div_mod::lemma_mod_bound(wide as int, MODULO as int);
    }
    let low: i128 = wide % (MODULO as i128);
    if low < 0 {
        (low + MODULO as i128) as i64
    } else {
        low as i64
    }
}

/// The offsets of the cells of a line, in their order on it.
fn line_cells(axis: Axis, idx: usize) -> (r: Vec<usize>)
    requires
        axis == Axis::Row ==> idx < 30,
    ensures
        r.len() == line_len(axis, idx as int),
        r.len() <= 30,
        forall|k: int| 0 <= k < r.len() ==> #[trigger] r[k] == line_cell(axis, idx as int, k) && r[k] < 900,
{
    let mut cells: Vec<usize> = Vec::new();
    match axis {
        Axis::Row => {
            let mut k: usize = 0;
            while k < 30
                invariant
                    idx < 30,
                    k <= 30,
                    cells.len() == k,
                    forall|j: int| 0 <= j < k ==> #[trigger] cells[j] == idx * 30 + j,
                decreases 30 - k,
            {
                cells.push(idx * 30 + k);
                k += 1;
            }
        },
        Axis::Col => {
            let mut c: usize = idx;
            while c < 900
                invariant
                    c == idx + 30 * cells.len(),
                    idx >= 900 ==> cells.len() == 0,
                    idx < 900 ==> 30 * cells.len() <= 900 - idx + 29,
                    forall|j: int| 0 <= j < cells.len() ==> #[trigger] cells[j] == idx + 30 * j && cells[j] < 900,
                decreases 930 - c,
            {
                cells.push(c);
                c += 30;
            }
        },
    }
    cells
}

/// Carries out an instruction on the grid, if it is feasible, and says
/// whether it was. An instruction that is not leaves the grid as it is.
pub fn apply(instr: &Instruction, grid: &mut [i64; CELLS]) -> (r: bool)
    ensures
        r == feasible(*instr),
        final(grid)@ == if feasible(*instr) {
            apply_spec(*instr, old(grid)@)
        } else {
            old(grid)@
        },
{
    match *instr {
        Instruction::Shift { axis, idx, by } => {
            if by > 30 {
                return false;
            }
            match axis {
                Axis::Row => if idx >= 30 {
                    return false;
                },
                Axis::Col => {},
            }
            let cells = line_cells(axis, idx);
            let mut buffer: Vec<i64> = Vec::new();
            let mut k: usize = 0;
            while k < 30
                invariant
                    k <= 30,
                    cells.len() <= 30,
                    forall|j: int| 0 <= j < cells.len() ==> (#[trigger] cells[j]) < 900,
                    buffer.len() == k,
                    forall|j: int|
                        0 <= j < k ==> #[trigger] buffer[j] == if j < cells.len() {
                            grid[cells[j] as int]
                        } else {
                            0i64
                        },
                decreases 30 - k,
            {
                if k < cells.len() {
                    buffer.push(grid[cells[k]]);
                } else {
                    buffer.push(0);
                }
                k += 1;
            }
            let mut k: usize = 0;
            while k < cells.len()
                invariant
                    *instr == (Instruction::Shift { axis, idx, by }),
                    by <= 30,
                    k <= cells.len(),
                    cells.len() == line_len(axis, idx as int),
                    cells.len() <= 30,
                    axis == Axis::Row ==> idx < 30,
                    forall|j: int|
                        0 <= j < cells.len() ==> #[trigger] cells[j] == line_cell(axis, idx as int, j) && cells[j]
                            < 900,
                    buffer.len() == 30,
                    forall|j: int|
                        0 <= j < 30 ==> #[trigger] buffer[j] == if j < cells.len() {
                            old(grid)[cells[j] as int]
                        } else {
                            0i64
                        },
                    forall|c: int|
                        0 <= c < 900 ==> #[trigger] grid[c] == match on_line(axis, idx as int, c) {
                            Some(j) => if j < k {
                                apply_spec(*instr, old(grid)@)[c]
                            } else {
                                old(grid)[c]
                            },
                            None => old(grid)[c],
                        },
                decreases cells.len() - k,
            {
                let from: usize = (k + 30 - by) % 30;
                assert(from == (k - by) % 30) by {
                    vstd::arithmetic::div_mod::lemma_mod_add_multiples_vanish(k - by, 30);
                }
                let v = buffer[from];
                let at = cells[k];
                let ghost before = grid@;
                assert(on_line(axis, idx as int, at as int) == Some(k as int));
                proof {
                    if from < cells.len() {
                        assert(cells[from as int] == line_cell(axis, idx as int, from as int));
                    }
                    assert(apply_spec(*instr, old(grid)@)[at as int] == v);
                }
                grid[at] = v;
                proof {
                    assert forall|c: int| 0 <= c < 900 implies #[trigger] grid[c] == match on_line(
                        axis,
                        idx as int,
                        c,
                    ) {
                        Some(j) => if j < k + 1 {
                            apply_spec(*instr, old(grid)@)[c]
                        } else {
                            old(grid)[c]
                        },
                        None => old(grid)[c],
                    } by {
                        if c != at {
                            assert(grid[c] == before[c]);
                            assert(on_line(axis, idx as int, c) != Some(k as int));
                        }
                    }
                }
                k += 1;
            }
            assert(grid@ =~= apply_spec(*instr, old(grid)@));
            true
        },
        Instruction::Change { op, amount, target } => {
            match target {
                Target::All => {
                    let mut c: usize = 0;
                    while c < 900
                        invariant
                            c <= 900,
                            forall|j: int|
                                0 <= j < 900 ==> #[trigger] grid[j] == if j < c {
                                    changed(op, amount, old(grid)[j])
                                } else {
                                    old(grid)[j]
                                },
                        decreases 900 - c,
                    {
                        let v = change(op, amount, grid[c]);
                        grid[c] = v;
                        c += 1;
                    }
                    assert(grid@ =~= apply_spec(*instr, old(grid)@));
                    true
                },
                Target::Line(axis, idx) => {
                    match axis {
                        Axis::Row => if idx >= 30 {
                            return false;
                        },
                        Axis::Col => {},
                    }
                    let cells = line_cells(axis, idx);
                    let mut k: usize = 0;
                    while k < cells.len()
                        invariant
                            k <= cells.len(),
                            cells.len() == line_len(axis, idx as int),
                            axis == Axis::Row ==> idx < 30,
                            forall|j: int|
                                0 <= j < cells.len() ==> #[trigger] cells[j] == line_cell(axis, idx as int, j)
                                    && cells[j] < 900,
                            forall|c: int|
                                0 <= c < 900 ==> #[trigger] grid[c] == match on_line(axis, idx as int, c) {
                                    Some(j) => if j < k {
                                        changed(op, amount, old(grid)[c])
                                    } else {
                                        old(grid)[c]
                                    },
                                    None => old(grid)[c],
                                },
                        decreases cells.len() - k,
                    {
                        let at = cells[k];
                        assert(on_line(axis, idx as int, at as int) == Some(k as int));
                        let v = change(op, amount, grid[at]);
                        grid[at] = v;
                        k += 1;
                    }
                    assert forall|c: int| 0 <= c < 900 implies grid@[c] == apply_spec(*instr, old(grid)@)[c] by {
                        match on_line(axis, idx as int, c) {
                            Some(j) => {
                                assert(j < line_len(axis, idx as int));
                            },
                            None => {},
                        }
                    }
                    assert(grid@ =~= apply_spec(*instr, old(grid)@));
                    true
                },
            }
        },
    }
}

/// Reads one instruction and carries it out on the grid, and says whether
/// it did. A line that writes no feasible instruction leaves the grid as it
/// is.
pub fn exec(instruction: &str, grid: &mut [i64; CELLS]) -> (r: bool)
    ensures
        match parse_instruction_spec(instruction.spec_bytes()) {
            Some(instr) => r == feasible(instr) && final(grid)@ == if feasible(instr) {
                apply_spec(instr, old(grid)@)
            } else {
                old(grid)@
            },
            None => !r && final(grid)@ == old(grid)@,
        },
{
    match parse_instruction(instruction.as_bytes()) {
        Some(instr) => apply(&instr, grid),
        None => false,
    }
}

/// The greatest sum of a row or of a column, where the sum of every row and
/// column fits 64 bits.
pub fn checked_max_row_or_col_sum(grid: &[i64; CELLS]) -> (r: Option<i64>)
    ensures
        r == if sums_fit(grid@) {
            Some(greatest_line(grid@, 30) as i64)
        } else {
            None
        },
        sums_fit(grid@) ==> i64::MIN <= greatest_line(grid@, 30) <= i64::MAX,
{
    let mut best: i64 = i64::MIN;
    let mut i: usize = 0;
    while i < SIDE
        invariant
            i <= SIDE,
            best == greatest_line(grid@, i as int),
            forall|k: int| 0 <= k < i ==> i64::MIN <= #[trigger] row_sum(grid@, k, 30) <= i64::MAX,
            forall|k: int| 0 <= k < i ==> i64::MIN <= #[trigger] col_sum(grid@, k, 30) <= i64::MAX,
        decreases SIDE - i,
    {
        let mut col: i128 = 0;
        let mut row: i128 = 0;
        let mut j: usize = 0;
        while j < SIDE
            invariant
                i < SIDE,
                j <= SIDE,
                col == col_sum(grid@, i as int, j as int),
                row == row_sum(grid@, i as int, j as int),
                -0x8000_0000_0000_0000 * j <= col <= 0x8000_0000_0000_0000 * j,
                -0x8000_0000_0000_0000 * j <= row <= 0x8000_0000_0000_0000 * j,
            decreases SIDE - j,
        {
            col = col + grid[j * SIDE + i] as i128;
            row = row + grid[i * SIDE + j] as i128;
            j += 1;
        }
        if col < i64::MIN as i128 || col > i64::MAX as i128 || row < i64::MIN as i128 || row > i64::MAX as i128 {
            assert(!sums_fit(grid@));
            return None;
        }
        let col_total: i64 = col as i64;
        let row_total: i64 = row as i64;
        if col_total > best {
            best = col_total;
        }
        if row_total > best {
            best = row_total;
        }
        i += 1;
    }
    Some(best)
}

/// The grid that a text of numbers writes: its words, read as signed decimal
/// numbers, fill the cells row by row. Cells without a word hold zero, and
/// words beyond the last cell are not read.
pub open spec fn parse_grid_spec(text: Seq<u8>) -> Option<Seq<i64>> {
    let words = tokens_spec(text);
    if forall|i: int|
        0 <= i < words.len() && i < 900 ==> parse_signed_spec(#[trigger] words[i], i64::MIN as int, i64::MAX as int)
            is Some {
        Some(
            Seq::new(
                900,
                |i: int|
                    if i < words.len() {
                        parse_signed_spec(words[i], i64::MIN as int, i64::MAX as int)->Some_0 as i64
                    } else {
                        0i64
                    },
            ),
        )
    } else {
        None
    }
}

/// Reads a grid of numbers.
pub fn parse_grid(text: &[u8]) -> (r: Option<[i64; CELLS]>)
    ensures
        match r {
            Some(grid) => parse_grid_spec(text@) == Some(grid@),
            None => parse_grid_spec(text@) is None,
        },
{
    let words = tokens(text);
    let ghost spec_words = tokens_spec(text@);
    let mut grid: [i64; CELLS] = [0; CELLS];
    let mut i: usize = 0;
    while i < CELLS && i < words.len()
        invariant
            i <= CELLS,
            i <= words.len(),
            spec_words == tokens_spec(text@),
            words.len() == spec_words.len(),
            forall|k: int| 0 <= k < words.len() ==> (#[trigger] words[k])@ == spec_words[k],
            forall|k: int|
                0 <= k < i ==> parse_signed_spec(#[trigger] spec_words[k], i64::MIN as int, i64::MAX as int)
                    == Some(grid[k] as int),
            forall|k: int| i <= k < 900 ==> grid[k] == 0,
        decreases CELLS - i,
    {
        match parse_signed(words[i], i64::MIN, i64::MAX) {
            Some(v) => {
                grid[i] = v;
            },
            None => {
                assert(parse_signed_spec(spec_words[i as int], i64::MIN as int, i64::MAX as int) is None);
                return None;
            },
        }
        i += 1;
    }
    assert(grid@ =~= parse_grid_spec(text@)->Some_0);
    Some(grid)
}

/// The grid after the instruction that a line writes, if it writes one that
/// is feasible.
pub open spec fn exec_spec(line: Seq<u8>, grid: Seq<i64>) -> Option<Seq<i64>> {
    match parse_instruction_spec(line) {
        Some(instr) => if feasible(instr) {
            Some(apply_spec(instr, grid))
        } else {
            None
        },
        None => None,
    }
}

/// The grid after the instructions that the first `n` lines write, one
/// after the other, if every one of them can be carried out.
pub open spec fn run_all(rows: Seq<Seq<u8>>, grid: Seq<i64>, n: int) -> Option<Seq<i64>>
    decreases n,
{
    if n <= 0 {
        Some(grid)
    } else {
        match run_all(rows, grid, n - 1) {
            Some(g) => exec_spec(rows[n - 1], g),
            None => None,
        }
    }
}

/// The greatest sum of a row or column of a grid, if every such sum fits 64
/// bits.
pub open spec fn outcome(grid: Option<Seq<i64>>) -> Option<i64> {
    match grid {
        Some(g) => if sums_fit(g) {
            Some(greatest_line(g, 30) as i64)
        } else {
            None
        },
        None => None,
    }
}

/// The greatest sum of a row or column after every instruction of a text,
/// one to a line, has been carried out in turn; `None` where one cannot be.
pub fn solve_part1(instructions: &[u8], grid: [i64; CELLS]) -> (r: Option<i64>)
    ensures
        r == outcome(run_all(lines_spec(instructions@), grid@, lines_spec(instructions@).len() as int)),
{
    let mut work = grid;
    let rows = lines(instructions);
    let ghost spec_rows = lines_spec(instructions@);
    let ghost first = grid@;
    let mut i: usize = 0;
    while i < rows.len()
        invariant
            i <= rows.len(),
            spec_rows == lines_spec(instructions@),
            first == grid@,
            rows.len() == spec_rows.len(),
            forall|k: int| 0 <= k < rows.len() ==> (#[trigger] rows[k])@ == spec_rows[k],
            run_all(spec_rows, first, i as int) == Some(work@),
        decreases rows.len() - i,
    {
        match parse_instruction(rows[i]) {
            Some(instr) => {
                if !apply(&instr, &mut work) {
                    proof {
                        lemma_run_all_fails(spec_rows, first, i + 1, spec_rows.len() as int);
                    }
                    return None;
                }
            },
            None => {
                proof {
                    lemma_run_all_fails(spec_rows, first, i + 1, spec_rows.len() as int);
                }
                return None;
            },
        }
        i += 1;
    }
    checked_max_row_or_col_sum(&work)
}

/// Once an instruction cannot be carried out, no grid comes of the rest.
pub proof fn lemma_run_all_fails(rows: Seq<Seq<u8>>, grid: Seq<i64>, k: int, n: int)
    requires
        0 <= k <= n,
        run_all(rows, grid, k) is None,
    ensures
        run_all(rows, grid, n) is None,
    decreases n - k,
{
    if k < n {
        lemma_run_all_fails(rows, grid, k, n - 1);
    }
}

/// What is done with the instructions: to take the next one from those that
/// wait, to put the oldest one taken back behind those that wait, or to
/// carry out the oldest one taken.
#[derive(Clone, Copy, Debug, PartialEq, Eq, Structural)]
pub enum Action {
    Take,
    Cycle,
    Act,
}

/// The action that a line names.
pub open spec fn action_spec(line: Seq<u8>) -> Option<Action> {
    if line == "TAKE".spec_bytes() {
        Some(Action::Take)
    } else if line == "CYCLE".spec_bytes() {
        Some(Action::Cycle)
    } else if line == "ACT".spec_bytes() {
        Some(Action::Act)
    } else {
        None
    }
}

/// Reads the name of an action.
pub fn parse_action(line: &[u8]) -> (r: Option<Action>)
    ensures
        r == action_spec(line@),
{
    if same_bytes(line, "TAKE".as_bytes()) {
        Some(Action::Take)
    } else if same_bytes(line, "CYCLE".as_bytes()) {
        Some(Action::Cycle)
    } else if same_bytes(line, "ACT".as_bytes()) {
        Some(Action::Act)
    } else {
        None
    }
}

/// The instructions that wait and those taken, each by the number of its
/// line and oldest first, and the grid.
pub struct Flow {
    pub pending: Seq<usize>,
    pub taken: Seq<usize>,
    pub grid: Seq<i64>,
}

/// The state after one action, if the action can be done: there is an
/// instruction to take, to put back or to carry out, and the one to carry
/// out can be.
pub open spec fn flow_step(rows: Seq<Seq<u8>>, s: Flow, action: Seq<u8>) -> Option<Flow> {
    match action_spec(action) {
        Some(Action::Take) => if s.pending.len() > 0 {
            Some(Flow { pending: s.pending.drop_first(), taken: s.taken.push(s.pending[0]), grid: s.grid })
        } else {
            None
        },
        Some(Action::Cycle) => if s.taken.len() > 0 {
            Some(Flow { pending: s.pending.push(s.taken[0]), taken: s.taken.drop_first(), grid: s.grid })
        } else {
            None
        },
        Some(Action::Act) => if s.taken.len() > 0 {
            match exec_spec(rows[s.taken[0] as int], s.grid) {
                Some(g) => Some(Flow { pending: s.pending, taken: s.taken.drop_first(), grid: g }),
                None => None,
            }
        } else {
            None
        },
        None => None,
    }
}

/// The state after the first `n` actions, if each can be done.
pub open spec fn run_flow(rows: Seq<Seq<u8>>, s: Flow, actions: Seq<Seq<u8>>, n: int) -> Option<Flow>
    decreases n,
{
    if n <= 0 {
        Some(s)
    } else {
        match run_flow(rows, s, actions, n - 1) {
            Some(m) => flow_step(rows, m, actions[n - 1]),
            None => None,
        }
    }
}

/// Once an action cannot be done, no state comes of the rest.
pub proof fn lemma_run_flow_fails(rows: Seq<Seq<u8>>, s: Flow, actions: Seq<Seq<u8>>, k: int, n: int)
    requires
        0 <= k <= n,
        run_flow(rows, s, actions, k) is None,
    ensures
        run_flow(rows, s, actions, n) is None,
    decreases n - k,
{
    if k < n {
        lemma_run_flow_fails(rows, s, actions, k, n - 1);
    }
}

/// The state in which every instruction waits, in the order of the lines.
pub open spec fn all_waiting(n: nat, grid: Seq<i64>) -> Flow {
    Flow { pending: Seq::new(n, |i: int| i as usize), taken: Seq::empty(), grid }
}

/// Whether every instruction that waits or is taken is a line of the text.
pub open spec fn in_text(pending: Seq<usize>, taken: Seq<usize>, n: int) -> bool {
    &&& forall|i: int| 0 <= i < pending.len() ==> (#[trigger] pending[i]) < n
    &&& forall|i: int| 0 <= i < taken.len() ==> (#[trigger] taken[i]) < n
}

/// Does one action, and says whether it could be done.
fn do_action(
    rows: &Vec<&[u8]>,
    pending: &mut VecDeque<usize>,
    taken: &mut VecDeque<usize>,
    grid: &mut [i64; CELLS],
    action: &[u8],
) -> (r: bool)
    requires
        in_text(old(pending)@, old(taken)@, rows.len() as int),
    ensures
        match flow_step(
            Seq::new(rows.len() as nat, |i: int| rows[i]@),
            (Flow { pending: old(pending)@, taken: old(taken)@, grid: old(grid)@ }),
            action@,
        ) {
            Some(next) => r && next == (Flow { pending: final(pending)@, taken: final(taken)@, grid: final(grid)@ })
                && in_text(final(pending)@, final(taken)@, rows.len() as int),
            None => !r,
        },
{
    let ghost spec_rows = Seq::new(rows.len() as nat, |i: int| rows[i]@);
    match parse_action(action) {
        Some(Action::Take) => match pending.pop_front() {
            Some(line) => {
                taken.push_back(line);
                assert(pending@ =~= old(pending)@.drop_first());
                true
            },
            None => false,
        },
        Some(Action::Cycle) => match taken.pop_front() {
            Some(line) => {
                pending.push_back(line);
                assert(taken@ =~= old(taken)@.drop_first());
                true
            },
            None => false,
        },
        Some(Action::Act) => match taken.pop_front() {
            Some(line) => {
                assert(taken@ =~= old(taken)@.drop_first());
                assert(line == old(taken)@[0]);
                assert(spec_rows[line as int] == rows[line as int]@);
                match parse_instruction(rows[line]) {
                    Some(instr) => apply(&instr, grid),
                    None => false,
                }
            },
            None => false,
        },
        None => false,
    }
}

/// A queue of the numbers below `n`, in their order.
fn line_numbers(n: usize) -> (r: VecDeque<usize>)
    ensures
        r@ == Seq::new(n as nat, |i: int| i as usize),
{
    let mut queue: VecDeque<usize> = VecDeque::new();
    let mut i: usize = 0;
    while i < n
        invariant
            i <= n,
            queue@ == Seq::new(i as nat, |k: int| k as usize),
        decreases n - i,
    {
        queue.push_back(i);
        assert(queue@ =~= Seq::new((i + 1) as nat, |k: int| k as usize));
        i += 1;
    }
    queue
}

/// The greatest sum of a row or column after the actions of a flow, one to
/// a line, have been done on the instructions of a text; `None` where one
/// cannot be done.
pub fn solve_part2(instructions: &[u8], flow: &[u8], grid: [i64; CELLS]) -> (r: Option<i64>)
    ensures
        r == outcome(
            match run_flow(
                lines_spec(instructions@),
                all_waiting(lines_spec(instructions@).len(), grid@),
                lines_spec(flow@),
                lines_spec(flow@).len() as int,
            ) {
                Some(end) => Some(end.grid),
                None => None,
            },
        ),
{
    let mut work = grid;
    let rows = lines(instructions);
    let actions = lines(flow);
    let ghost spec_rows = lines_spec(instructions@);
    let ghost spec_actions = lines_spec(flow@);
    let ghost first = all_waiting(spec_rows.len(), grid@);
    let mut pending = line_numbers(rows.len());
    let mut taken: VecDeque<usize> = VecDeque::new();
    assert(Seq::new(rows.len() as nat, |i: int| rows[i]@) =~= spec_rows);
    let mut i: usize = 0;
    while i < actions.len()
        invariant
            i <= actions.len(),
            rows.len() == spec_rows.len(),
            Seq::new(rows.len() as nat, |i: int| rows[i]@) == spec_rows,
            actions.len() == spec_actions.len(),
            forall|k: int| 0 <= k < actions.len() ==> (#[trigger] actions[k])@ == spec_actions[k],
            spec_rows == lines_spec(instructions@),
            spec_actions == lines_spec(flow@),
            first == all_waiting(spec_rows.len(), grid@),
            in_text(pending@, taken@, rows.len() as int),
            run_flow(spec_rows, first, spec_actions, i as int) == Some(
                Flow { pending: pending@, taken: taken@, grid: work@ },
            ),
        decreases actions.len() - i,
    {
        if !do_action(&rows, &mut pending, &mut taken, &mut work, actions[i]) {
            proof {
                lemma_run_flow_fails(spec_rows, first, spec_actions, i + 1, spec_actions.len() as int);
            }
            return None;
        }
        i += 1;
    }
    checked_max_row_or_col_sum(&work)
}

/// How one pass through the actions of a flow ends: with every instruction
/// carried out, with an action that cannot be done, or in a state from which
/// the next pass goes on.
pub enum Pass {
    Done(Seq<i64>),
    Failed,
    Going(Flow),
}

/// The first `n` actions of one pass. Before each action the pass ends if no
/// instruction waits or is taken any more.
pub open spec fn pass(rows: Seq<Seq<u8>>, s: Flow, actions: Seq<Seq<u8>>, n: int) -> Pass
    decreases n,
{
    if n <= 0 {
        Pass::Going(s)
    } else {
        match pass(rows, s, actions, n - 1) {
            Pass::Going(m) => if m.pending.len() == 0 && m.taken.len() == 0 {
                Pass::Done(m.grid)
            } else {
                match flow_step(rows, m, actions[n - 1]) {
                    Some(next) => Pass::Going(next),
                    None => Pass::Failed,
                }
            },
            other => other,
        }
    }
}

/// The grid after at most `fuel` passes through the flow, if one of them
/// ends with every instruction carried out.
pub open spec fn rounds(rows: Seq<Seq<u8>>, s: Flow, actions: Seq<Seq<u8>>, fuel: nat) -> Option<Seq<i64>>
    decreases fuel,
{
    if fuel == 0 {
        None
    } else {
        match pass(rows, s, actions, actions.len() as int) {
            Pass::Done(g) => Some(g),
            Pass::Failed => None,
            Pass::Going(next) => rounds(rows, next, actions, (fuel - 1) as nat),
        }
    }
}

/// What has ended stays ended for the rest of the pass.
pub proof fn lemma_pass_settled(rows: Seq<Seq<u8>>, s: Flow, actions: Seq<Seq<u8>>, k: int, n: int)
    requires
        0 <= k <= n,
        !(pass(rows, s, actions, k) is Going),
    ensures
        pass(rows, s, actions, n) == pass(rows, s, actions, k),
    decreases n - k,
{
    if k < n {
        lemma_pass_settled(rows, s, actions, k, n - 1);
    }
}

/// The greatest sum of a row or column after the flow has been passed
/// through again and again until every instruction is carried out. `None`
/// where an action cannot be done, and where the instructions are not all
/// carried out after one pass more than there are instructions: a flow that
/// carries out one instruction at least in every pass needs no more.
pub fn solve_part3(instructions: &[u8], flow: &[u8], grid: [i64; CELLS]) -> (r: Option<i64>)
    ensures
        r == outcome(
            rounds(
                lines_spec(instructions@),
                all_waiting(lines_spec(instructions@).len(), grid@),
                lines_spec(flow@),
                lines_spec(instructions@).len() + 1,
            ),
        ),
{
    let mut work = grid;
    let rows = lines(instructions);
    let actions = lines(flow);
    let ghost spec_rows = lines_spec(instructions@);
    let ghost spec_actions = lines_spec(flow@);
    let mut pending = line_numbers(rows.len());
    let mut taken: VecDeque<usize> = VecDeque::new();
    assert(Seq::new(rows.len() as nat, |i: int| rows[i]@) =~= spec_rows);
    let ghost goal = rounds(spec_rows, all_waiting(spec_rows.len(), grid@), spec_actions, spec_rows.len() + 1);
    let mut round: usize = 0;
    loop
        invariant
            round <= rows.len(),
            rows.len() == spec_rows.len(),
            Seq::new(rows.len() as nat, |i: int| rows[i]@) == spec_rows,
            actions.len() == spec_actions.len(),
            forall|k: int| 0 <= k < actions.len() ==> (#[trigger] actions[k])@ == spec_actions[k],
            in_text(pending@, taken@, rows.len() as int),
            spec_rows == lines_spec(instructions@),
            spec_actions == lines_spec(flow@),
            goal == rounds(spec_rows, all_waiting(spec_rows.len(), grid@), spec_actions, spec_rows.len() + 1),
            goal == rounds(
                spec_rows,
                (Flow { pending: pending@, taken: taken@, grid: work@ }),
                spec_actions,
                (spec_rows.len() + 1 - round) as nat,
            ),
        decreases rows.len() - round,
    {
        let ghost begin = Flow { pending: pending@, taken: taken@, grid: work@ };
        let mut i: usize = 0;
        while i < actions.len()
            invariant
                i <= actions.len(),
                rows.len() == spec_rows.len(),
                Seq::new(rows.len() as nat, |i: int| rows[i]@) == spec_rows,
                actions.len() == spec_actions.len(),
                forall|k: int| 0 <= k < actions.len() ==> (#[trigger] actions[k])@ == spec_actions[k],
                in_text(pending@, taken@, rows.len() as int),
                round <= rows.len(),
                spec_rows == lines_spec(instructions@),
                spec_actions == lines_spec(flow@),
                goal == rounds(spec_rows, all_waiting(spec_rows.len(), grid@), spec_actions, spec_rows.len() + 1),
                goal == rounds(spec_rows, begin, spec_actions, (spec_rows.len() + 1 - round) as nat),
                pass(spec_rows, begin, spec_actions, i as int) == Pass::Going(
                    Flow { pending: pending@, taken: taken@, grid: work@ },
                ),
            decreases actions.len() - i,
        {
            if pending.len() == 0 && taken.len() == 0 {
                proof {
                    lemma_pass_settled(spec_rows, begin, spec_actions, i + 1, spec_actions.len() as int);
                }
                return checked_max_row_or_col_sum(&work);
            }
            if !do_action(&rows, &mut pending, &mut taken, &mut work, actions[i]) {
                proof {
                    lemma_pass_settled(spec_rows, begin, spec_actions, i + 1, spec_actions.len() as int);
                }
                return None;
            }
            i += 1;
        }
        proof {
            let state = Flow { pending: pending@, taken: taken@, grid: work@ };
            assert(pass(spec_rows, begin, spec_actions, spec_actions.len() as int) == Pass::Going(state));
            assert(goal == rounds(spec_rows, state, spec_actions, (spec_rows.len() - round) as nat));
        }
        if round == rows.len() {
            return None;
        }
        round += 1;
    }
}

/// The three parts of an input, parted by empty lines: the grid, the
/// instructions, and the flow, which may hold empty lines itself.
pub open spec fn parts_spec(input: Seq<u8>) -> Option<(Seq<u8>, Seq<u8>, Seq<u8>)> {
    match split_once_spec(input, seq![0x0au8, 0x0au8]) {
        Some((cells, rest)) => match split_once_spec(rest, seq![0x0au8, 0x0au8]) {
            Some((instructions, flow)) => Some((cells, instructions, flow)),
            None => None,
        },
        None => None,
    }
}

/// Parts an input into the grid, the instructions and the flow.
pub fn parse_input<'a>(input: &'a str) -> (r: Option<(&'a [u8], &'a [u8], &'a [u8])>)
    ensures
        match r {
            Some((cells, instructions, flow)) => parts_spec(input.spec_bytes()) == Some(
                (cells@, instructions@, flow@),
            ),
            None => parts_spec(input.spec_bytes()) is None,
        },
{
    let gap: [u8; 2] = [0x0a, 0x0a];
    assert(gap@ =~= seq![0x0au8, 0x0au8]);
    match split_once(input.as_bytes(), gap.as_slice()) {
        Some((cells, rest)) => match split_once(rest, gap.as_slice()) {
            Some((instructions, flow)) => Some((cells, instructions, flow)),
            None => None,
        },
        None => None,
    }
}

} // verus!
