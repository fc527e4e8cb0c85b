//! A square grid of dangers, and the least danger on a way across it.

use vstd::prelude::*;
use vstd::string::StringSliceAdditionalSpecFns;
use crate::text::{parse_unsigned, parse_unsigned_spec, tokens, tokens_spec};

verus! {

/// The side of the grid.
pub const SIDE: usize = 50;

/// The number of cells of the grid.
pub const CELLS: usize = 2500;

/// The grid that a text of numbers writes: its words, read as unsigned
/// decimal numbers below 256, fill the cells row by row. Cells without a
/// word hold zero, and words beyond the last cell are not read.
pub open spec fn parse_spec(text: Seq<u8>) -> Option<Seq<u8>> {
    let words = tokens_spec(text);
    if forall|i: int| 0 <= i < words.len() && i < 2500 ==> parse_unsigned_spec(#[trigger] words[i], 255) is Some {
        Some(
            Seq::new(
                2500,
                |i: int|
                    if i < words.len() {
                        parse_unsigned_spec(words[i], 255)->Some_0 as u8
                    } else {
                        0u8
                    },
            ),
        )
    } else {
        None
    }
}

/// Reads a grid of dangers.
pub fn parse(input: &str) -> (r: Option<[u8; CELLS]>)
    ensures
        match r {
            Some(grid) => parse_spec(input.spec_bytes()) == Some(grid@),
            None => parse_spec(input.spec_bytes()) is None,
        },
{
    let words = tokens(input.as_bytes());
    let ghost spec_words = tokens_spec(input.spec_bytes());
    let mut grid: [u8; CELLS] = [0; CELLS];
    let mut i: usize = 0;
    while i < CELLS && i < words.len()
        invariant
            i <= CELLS,
            i <= words.len(),
            spec_words == tokens_spec(input.spec_bytes()),
            words.len() == spec_words.len(),
            forall|k: int| 0 <= k < words.len() ==> (#[trigger] words[k])@ == spec_words[k],
            forall|k: int| 0 <= k < i ==> parse_unsigned_spec(#[trigger] spec_words[k], 255) == Some(grid[k] as nat),
            forall|k: int| i <= k < 2500 ==> grid[k] == 0,
        decreases CELLS - i,
    {
        match parse_unsigned(words[i], 255) {
            Some(v) => {
                grid[i] = v as u8;
            },
            None => {
                assert(parse_unsigned_spec(spec_words[i as int], 255) is None);
                return None;
            },
        }
        i += 1;
    }
    assert(grid@ =~= parse_spec(input.spec_bytes())->Some_0);
    Some(grid)
}

/// The sum of the first `n` cells of row `i`.
pub open spec fn row_danger(grid: Seq<u8>, i: int, n: int) -> int
    decreases n,
{
    if n <= 0 {
        0
    } else {
        row_danger(grid, i, n - 1) + grid[i * 50 + (n - 1)]
    }
}

/// The sum of the first `n` cells of column `i`.
pub open spec fn col_danger(grid: Seq<u8>, i: int, n: int) -> int
    decreases n,
{
    if n <= 0 {
        0
    } else {
        col_danger(grid, i, n - 1) + grid[(n - 1) * 50 + i]
    }
}

/// The lesser of two numbers.
pub open spec fn lesser(a: int, b: int) -> int {
    if a <= b {
        a
    } else {
        b
    }
}

/// The least sum of a whole row or column among the first `k` rows and
/// columns; without any, the greatest 64-bit number.
pub open spec fn least_line(grid: Seq<u8>, k: int) -> int
    decreases k,
{
    if k <= 0 {
        u64::MAX as int
    } else {
        lesser(lesser(least_line(grid, k - 1), row_danger(grid, k - 1, 50)), col_danger(grid, k - 1, 50))
    }
}

/// The least sum of a row or of a column of a grid.
pub fn least_danger(grid: &[u8; CELLS]) -> (r: u64)
    ensures
        r == least_line(grid@, 50),
{
    let mut result: u64 = u64::MAX;
    let mut i: usize = 0;
    while i < SIDE
        invariant
            i <= SIDE,
            result == least_line(grid@, i as int),
        decreases SIDE - i,
    {
        let mut row: u64 = 0;
        let mut col: u64 = 0;
        let mut j: usize = 0;
        while j < SIDE
            invariant
                i < SIDE,
                j <= SIDE,
                row == row_danger(grid@, i as int, j as int),
                col == col_danger(grid@, i as int, j as int),
                row <= 255 * j,
                col <= 255 * j,
            decreases SIDE - j,
        {
            row = row + grid[i * SIDE + j] as u64;
            col = col + grid[j * SIDE + i] as u64;
            j += 1;
        }
        if row < result {
            result = row;
        }
        if col < result {
            result = col;
        }
        i += 1;
    }
    result
}

/// The least sum of a row or of a column of the grid that a text writes.
pub fn solve_part1(input: &str) -> (r: Option<u64>)
    ensures
        r == match parse_spec(input.spec_bytes()) {
            Some(grid) => Some(least_line(grid, 50) as u64),
            None => None,
        },
{
    match parse(input) {
        Some(grid) => {
            let least = least_danger(&grid);
            Some(least)
        },
        None => None,
    }
}

/// Whether one step leads from a cell to another inside the square of the
/// given side at the grid's corner: one row down or one column on.
pub open spec fn step(side: int, a: (usize, usize), b: (usize, usize)) -> bool {
    &&& a.0 < side
    &&& a.1 < side
    &&& ((b.0 == a.0 + 1 && b.1 == a.1 && b.0 < side) || (b.0 == a.0 && b.1 == a.1 + 1 && b.1 < side))
}

/// A way: it begins at the corner, and each cell is one step from the one
/// before.
pub open spec fn is_way(side: int, way: Seq<(usize, usize)>) -> bool {
    &&& way.len() > 0
    &&& way[0] == (0usize, 0usize)
    &&& forall|i: int| 0 <= i < way.len() - 1 ==> step(side, #[trigger] way[i], way[i + 1])
}

/// A way across: a way that ends at the far corner of the square.
pub open spec fn is_way_across(side: int, way: Seq<(usize, usize)>) -> bool {
    is_way(side, way) && way.last() == ((side - 1) as usize, (side - 1) as usize)
}

/// The danger of a way: that of every cell it enters, the first not counted.
pub open spec fn way_danger(grid: Seq<u8>, way: Seq<(usize, usize)>) -> int
    decreases way.len(),
{
    if way.len() <= 1 {
        0
    } else {
        way_danger(grid, way.drop_last()) + grid[way.last().0 * 50 + way.last().1]
    }
}

/// Whether `c` is the least danger of a way across.
pub open spec fn least_across(grid: Seq<u8>, side: int, c: int) -> bool {
    &&& exists|way: Seq<(usize, usize)>| #[trigger] is_way_across(side, way) && way_danger(grid, way) == c
    &&& forall|way: Seq<(usize, usize)>| #[trigger] is_way_across(side, way) ==> way_danger(grid, way) >= c
}

/// Whether a node is among the listed steps.
pub open spec fn listed(list: Seq<((usize, usize), u64)>, to: (usize, usize)) -> bool {
    exists|i: int| 0 <= i < list.len() && (#[trigger] list[i]).0 == to
}

/// The cells one step from a cell, each with its danger.
pub fn steps(grid: &[u8; CELLS], side: usize, at: (usize, usize)) -> (r: Vec<((usize, usize), u64)>)
    requires
        side <= SIDE,
    ensures
        forall|i: int|
            0 <= i < r.len() ==> step(side as int, at, (#[trigger] r[i]).0) && r[i].1 == grid[r[i].0.0 * 50
                + r[i].0.1],
        forall|to: (usize, usize)| step(side as int, at, to) ==> listed(r@, to),
{
    let mut out: Vec<((usize, usize), u64)> = Vec::new();
    let (x, y) = at;
    if x < side && y < side {
        if x + 1 < side {
            out.push(((x + 1, y), grid[(x + 1) * SIDE + y] as u64));
        }
        if y + 1 < side {
            out.push(((x, y + 1), grid[x * SIDE + y + 1] as u64));
        }
    }
    proof {
        assert forall|to: (usize, usize)| step(side as int, at, to) implies listed(out@, to) by {
            if to.0 == at.0 + 1 {
                assert(out[0].0 == to);
            } else {
                assert(out[out.len() - 1].0 == to);
            }
        }
    }
    out
}

/// Whether a cell is the far corner of the square.
pub fn at_goal(side: usize, at: (usize, usize)) -> (r: bool)
    requires
        side >= 1,
    ensures
        r == (at == ((side - 1) as usize, (side - 1) as usize)),
{
    at.0 == side - 1 && at.1 == side - 1
}

/// `pathfinding`'s `dijkstra`, from the near corner over `steps`, with
/// `at_goal` as the test for success: the cost of a cheapest path to a node
/// that passes the test, or `None` where there is no such path.
#[verifier::external_body]
fn dijkstra_cost(grid: &[u8; CELLS], side: usize, from: &(usize, usize)) -> (r: Option<u64>)
    requires
        1 <= side <= SIDE,
        *from == (0usize, 0usize),
    ensures
        match r {
            Some(c) => least_across(grid@, side as int, c as int),
            None => forall|way: Seq<(usize, usize)>| !#[trigger] is_way_across(side as int, way),
        },
{
    pathfinding::directed::dijkstra::dijkstra(
        from,
        |at| steps(grid, side, *at),
        |at| at_goal(side, *at),
    ).map(|found| found.1)
}

/// The way that first goes down `x` rows and then on `y` columns.
pub open spec fn corner_way(x: nat, y: nat) -> Seq<(usize, usize)>
    decreases x + y,
{
    if y > 0 {
        corner_way(x, (y - 1) as nat).push((x as usize, y as usize))
    } else if x > 0 {
        corner_way((x - 1) as nat, 0).push((x as usize, 0usize))
    } else {
        seq![(0usize, 0usize)]
    }
}

/// The corner way is a way, and ends where it should.
proof fn lemma_corner_way(side: int, x: nat, y: nat)
    requires
        x < side <= 50,
        y < side,
    ensures
        is_way(side, corner_way(x, y)),
        corner_way(x, y).last() == (x as usize, y as usize),
        corner_way(x, y).len() == x + y + 1,
    decreases x + y,
{
    if x > 0 || y > 0 {
        let shorter = if y > 0 {
            corner_way(x, (y - 1) as nat)
        } else {
            corner_way((x - 1) as nat, 0)
        };
        if y > 0 {
            lemma_corner_way(side, x, (y - 1) as nat);
        } else {
            lemma_corner_way(side, (x - 1) as nat, 0);
        }
        let way = corner_way(x, y);
        assert(way == shorter.push((x as usize, y as usize)));
        assert forall|i: int| 0 <= i < way.len() - 1 implies step(side, #[trigger] way[i], way[i + 1]) by {
            if i < shorter.len() - 1 {
                assert(step(side, shorter[i], shorter[i + 1]));
            }
        }
    }
}

/// A way of `n` steps ends `n` steps from the corner, inside the square,
/// and its danger is at most 255 a step.
proof fn lemma_way_bounds(grid: Seq<u8>, side: int, way: Seq<(usize, usize)>)
    requires
        1 <= side <= 50,
        is_way(side, way),
    ensures
        way.last().0 + way.last().1 == way.len() - 1,
        way.last().0 < side,
        way.last().1 < side,
        0 <= way_danger(grid, way) <= 255 * (way.len() - 1),
    decreases way.len(),
{
    if way.len() > 1 {
        let shorter = way.drop_last();
        assert forall|i: int| 0 <= i < shorter.len() - 1 implies step(side, #[trigger] shorter[i], shorter[i + 1]) by {
            assert(step(side, way[i], way[i + 1]));
        }
        lemma_way_bounds(grid, side, shorter);
        assert(step(side, way[way.len() - 2], way[way.len() - 1]));
    }
}

/// The least danger of a way from the corner of the grid to the far corner
/// of the square of side `TARGET_SIDE`, which goes one row down or one
/// column on with every step; the danger of the corner itself counts too.
/// `None` where the text writes no grid, and where the square is empty or
/// larger than the grid.
pub fn solve_part23<const TARGET_SIDE: usize>(input: &str) -> (r: Option<u64>)
    ensures
        match r {
            Some(total) => {
                &&& 1 <= TARGET_SIDE <= SIDE
                &&& parse_spec(input.spec_bytes()) is Some
                &&& least_across(
                    parse_spec(input.spec_bytes())->Some_0,
                    TARGET_SIDE as int,
                    total - parse_spec(input.spec_bytes())->Some_0[0],
                )
            },
            None => parse_spec(input.spec_bytes()) is None || TARGET_SIDE < 1 || TARGET_SIDE > SIDE,
        },
{
    if TARGET_SIDE < 1 || TARGET_SIDE > SIDE {
        return None;
    }
    let grid = match parse(input) {
        Some(grid) => grid,
        None => { return None; },
    };
    proof {
        lemma_corner_way(TARGET_SIDE as int, (TARGET_SIDE - 1) as nat, (TARGET_SIDE - 1) as nat);
        assert(is_way_across(
            TARGET_SIDE as int,
            corner_way((TARGET_SIDE - 1) as nat, (TARGET_SIDE - 1) as nat),
        ));
    }
    let corner: (usize, usize) = (0, 0);
    match dijkstra_cost(&grid, TARGET_SIDE, &corner) {
        Some(c) => {
            proof {
                let way = choose|way: Seq<(usize, usize)>| #[trigger]
                    is_way_across(TARGET_SIDE as int, way) && way_danger(grid@, way) == c;
                lemma_way_bounds(grid@, TARGET_SIDE as int, way);
            }
            Some(grid[0] as u64 + c)
        },
        None => None,
    }
}

} // verus!
