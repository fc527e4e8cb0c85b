//! A row of tracks, and the swaps that reorder it.

use vstd::prelude::*;
use vstd::string::StringSliceAdditionalSpecFns;
use crate::text::{
    lines, lines_spec, parse_unsigned, parse_unsigned_spec, split, split_once, split_once_spec, split_spec, trim,
    trim_spec,
};

verus! {

/// A row with the entries at two places swapped.
pub open spec fn swapped<T>(row: Seq<T>, i: int, j: int) -> Seq<T> {
    row.update(i, row[j]).update(j, row[i])
}

/// A row after the first `n` pairs of places are swapped, one pair after
/// the other, if every place lies in the row.
pub open spec fn pairs_swapped<T>(row: Seq<T>, swaps: Seq<usize>, n: int) -> Option<Seq<T>>
    decreases n,
{
    if n <= 0 {
        Some(row)
    } else {
        match pairs_swapped(row, swaps, n - 1) {
            Some(r) => if swaps[2 * n - 2] < r.len() && swaps[2 * n - 1] < r.len() {
                Some(swapped(r, swaps[2 * n - 2] as int, swaps[2 * n - 1] as int))
            } else {
                None
            },
            None => None,
        }
    }
}

/// Swaps the entries at two places.
fn swap_at<T: Copy>(row: &mut Vec<T>, i: usize, j: usize)
    requires
        i < old(row).len(),
        j < old(row).len(),
    ensures
        final(row)@ == swapped(old(row)@, i as int, j as int),
{
    let a = row[i];
    let b = row[j];
    row.set(i, b);
    row.set(j, a);
}

/// Swaps the entries at each pair of places, one pair after the other; a
/// place without a partner is left out. Says whether every place lay in the
/// row; where one did not, the row is left half reordered.
pub fn swap_pairs<T: Copy>(row: &mut Vec<T>, swaps: &[usize]) -> (r: bool)
    ensures
        match pairs_swapped(old(row)@, swaps@, swaps.len() as int / 2) {
            Some(after) => r && final(row)@ == after,
            None => !r,
        },
{
    let pairs = swaps.len() / 2;
    let mut n: usize = 0;
    while n < pairs
        invariant
            n <= pairs,
            pairs == swaps.len() / 2,
            pairs_swapped(old(row)@, swaps@, n as int) == Some(row@),
        decreases pairs - n,
    {
        let a = swaps[2 * n];
        let b = swaps[2 * n + 1];
        if a >= row.len() || b >= row.len() {
            proof {
                lemma_pairs_fail(old(row)@, swaps@, n + 1, pairs as int);
            }
            return false;
        }
        swap_at(row, a, b);
        n += 1;
    }
    true
}

/// Once a place lies outside the row, no row comes of the rest.
proof fn lemma_pairs_fail<T>(row: Seq<T>, swaps: Seq<usize>, k: int, n: int)
    requires
        0 <= k <= n,
        pairs_swapped(row, swaps, k) is None,
    ensures
        pairs_swapped(row, swaps, n) is None,
    decreases n - k,
{
    if k < n {
        lemma_pairs_fail(row, swaps, k, n - 1);
    }
}

/// A row with the entries at three places moved round: the third to the
/// first place, the first to the second, the second to the third.
pub open spec fn moved_round<T>(row: Seq<T>, x: int, y: int, z: int) -> Seq<T> {
    row.update(x, row[z]).update(y, row[x]).update(z, row[y])
}

/// A row after the first `n` moves round three places: those of a pair and
/// the first of the next pair, which after the last pair is the first of
/// all. `None` where a place lies outside the row or has no partner.
pub open spec fn triples_moved<T>(row: Seq<T>, swaps: Seq<usize>, n: int) -> Option<Seq<T>>
    decreases n,
{
    if n <= 0 {
        Some(row)
    } else {
        match triples_moved(row, swaps, n - 1) {
            Some(r) => {
                let i = 2 * n - 2;
                if i + 1 < swaps.len() && swaps[i] < r.len() && swaps[i + 1] < r.len() && swaps[(i + 2) % (
                swaps.len() as int)] < r.len() {
                    Some(
                        moved_round(
                            r,
                            swaps[i] as int,
                            swaps[i + 1] as int,
                            swaps[(i + 2) % (swaps.len() as int)] as int,
                        ),
                    )
                } else {
                    None
                }
            },
            None => None,
        }
    }
}

/// Once a move fails, no row comes of the rest.
proof fn lemma_triples_fail<T>(row: Seq<T>, swaps: Seq<usize>, k: int, n: int)
    requires
        0 <= k <= n,
        triples_moved(row, swaps, k) is None,
    ensures
        triples_moved(row, swaps, n) is None,
    decreases n - k,
{
    if k < n {
        lemma_triples_fail(row, swaps, k, n - 1);
    }
}

/// Moves the entries round at each pair of places and the place that
/// follows it, and says whether it could; an odd number of places cannot be
/// paired.
pub fn move_triples<T: Copy>(row: &mut Vec<T>, swaps: &[usize]) -> (r: bool)
    ensures
        match triples_moved(old(row)@, swaps@, (swaps.len() + 1) / 2) {
            Some(after) => r && final(row)@ == after,
            None => !r,
        },
{
    let len = swaps.len();
    let steps = (len - len / 2);
    assert(steps == (len + 1) / 2);
    let mut n: usize = 0;
    while n < steps
        invariant
            n <= steps,
            len == swaps.len(),
            steps == (len + 1) / 2,
            triples_moved(old(row)@, swaps@, n as int) == Some(row@),
        decreases steps - n,
    {
        let i = 2 * n;
        if i + 1 >= len {
            proof {
                lemma_triples_fail(old(row)@, swaps@, n + 1, steps as int);
            }
            return false;
        }
        let x = swaps[i];
        let y = swaps[i + 1];
        let z = swaps[(i + 2) % len];
        if x >= row.len() || y >= row.len() || z >= row.len() {
            proof {
                lemma_triples_fail(old(row)@, swaps@, n + 1, steps as int);
            }
            return false;
        }
        let x_val = row[x];
        let y_val = row[y];
        let z_val = row[z];
        row.set(x, z_val);
        row.set(y, x_val);
        row.set(z, y_val);
        n += 1;
    }
    true
}

/// The lesser of two numbers.
pub open spec fn least(a: int, b: int) -> int {
    if a <= b {
        a
    } else {
        b
    }
}

/// A row with two blocks swapped that begin at places `lo` and `hi`: each
/// as long as the room from `hi` to the end of the row allows, and no longer
/// than the distance between them.
pub open spec fn blocks_swapped<T>(row: Seq<T>, lo: int, hi: int) -> Seq<T> {
    let l = least(row.len() - hi, hi - lo);
    Seq::new(
        row.len(),
        |k: int|
            if lo <= k < lo + l {
                row[k - lo + hi]
            } else if hi <= k < hi + l {
                row[k - hi + lo]
            } else {
                row[k]
            },
    )
}

/// A row after the blocks at the first `n` pairs of places are swapped.
/// `None` where a place lies beyond the end of the row.
pub open spec fn blocks_moved<T>(row: Seq<T>, swaps: Seq<usize>, n: int) -> Option<Seq<T>>
    decreases n,
{
    if n <= 0 {
        Some(row)
    } else {
        match blocks_moved(row, swaps, n - 1) {
            Some(r) => {
                let a = swaps[2 * n - 2] as int;
                let b = swaps[2 * n - 1] as int;
                let lo = least(a, b);
                let hi = a + b - lo;
                if hi <= r.len() {
                    Some(blocks_swapped(r, lo, hi))
                } else {
                    None
                }
            },
            None => None,
        }
    }
}

/// Once a place lies beyond the row, no row comes of the rest.
proof fn lemma_blocks_fail<T>(row: Seq<T>, swaps: Seq<usize>, k: int, n: int)
    requires
        0 <= k <= n,
        blocks_moved(row, swaps, k) is None,
    ensures
        blocks_moved(row, swaps, n) is None,
    decreases n - k,
{
    if k < n {
        lemma_blocks_fail(row, swaps, k, n - 1);
    }
}

/// Swaps the blocks at each pair of places, and says whether it could.
pub fn swap_blocks<T: Copy>(row: &mut Vec<T>, swaps: &[usize]) -> (r: bool)
    ensures
        match blocks_moved(old(row)@, swaps@, swaps.len() as int / 2) {
            Some(after) => r && final(row)@ == after,
            None => !r,
        },
{
    let pairs = swaps.len() / 2;
    let mut n: usize = 0;
    while n < pairs
        invariant
            n <= pairs,
            pairs == swaps.len() / 2,
            blocks_moved(old(row)@, swaps@, n as int) == Some(row@),
        decreases pairs - n,
    {
        let a = swaps[2 * n];
        let b = swaps[2 * n + 1];
        let (lo, hi) = if a <= b {
            (a, b)
        } else {
            (b, a)
        };
        if hi > row.len() {
            proof {
                lemma_blocks_fail(old(row)@, swaps@, n + 1, pairs as int);
            }
            return false;
        }
        let l = if row.len() - hi < hi - lo {
            row.len() - hi
        } else {
            hi - lo
        };
        let ghost before = row@;
        let mut k: usize = 0;
        while k < l
            invariant
                k <= l,
                lo <= hi,
                l == least(before.len() - hi, hi - lo),
                row.len() == before.len(),
                hi <= before.len(),
                forall|m: int|
                    0 <= m < row.len() ==> #[trigger] row[m] == if lo <= m < lo + k {
                        before[m - lo + hi]
                    } else if hi <= m < hi + k {
                        before[m - hi + lo]
                    } else {
                        before[m]
                    },
            decreases l - k,
        {
            swap_at(row, lo + k, hi + k);
            k += 1;
        }
        assert(row@ =~= blocks_swapped(before, lo as int, hi as int));
        n += 1;
    }
    true
}

/// What a plan writes: the tracks, one to a line; the places to swap, two
/// to a line with a hyphen between them and counted from one; and the place
/// of the track that is asked for, counted from one. The three parts are
/// parted by empty lines.
pub struct Plan<'a> {
    pub tracks: Vec<&'a [u8]>,
    pub swaps: Vec<usize>,
    pub test_index: usize,
}

/// A place counted from zero, as a word writes it counted from one.
pub open spec fn place_spec(word: Seq<u8>) -> Option<usize> {
    match parse_unsigned_spec(word, usize::MAX as nat) {
        Some(n) => if n >= 1 {
            Some((n - 1) as usize)
        } else {
            None
        },
        None => None,
    }
}

/// The two places that a line writes.
pub open spec fn swap_spec(line: Seq<u8>) -> Option<(usize, usize)> {
    match split_once_spec(line, seq![0x2du8]) {
        Some((a, b)) => match (place_spec(a), place_spec(b)) {
            (Some(x), Some(y)) => Some((x, y)),
            _ => None,
        },
        None => None,
    }
}

/// The places that the lines of a text write, two to a line.
pub open spec fn swaps_spec(rows: Seq<Seq<u8>>) -> Option<Seq<usize>> {
    if forall|i: int| 0 <= i < rows.len() ==> swap_spec(#[trigger] rows[i]) is Some {
        Some(
            Seq::new(
                2 * rows.len(),
                |k: int|
                    if k % 2 == 0 {
                        swap_spec(rows[k / 2])->Some_0.0
                    } else {
                        swap_spec(rows[k / 2])->Some_0.1
                    },
            ),
        )
    } else {
        None
    }
}

/// Reads a place.
fn place(word: &[u8]) -> (r: Option<usize>)
    ensures
        r == place_spec(word@),
{
    match parse_unsigned(word, usize::MAX as u64) {
        Some(n) => if n >= 1 {
            Some((n - 1) as usize)
        } else {
            None
        },
        None => None,
    }
}

/// Reads a plan.
pub fn parse<'a>(input: &'a str) -> (r: Option<Plan<'a>>)
    ensures
        match r {
            Some(plan) => {
                let parts = split_spec(input.spec_bytes(), seq![0x0au8, 0x0au8]);
                &&& parts.len() == 3
                &&& plan.tracks.len() == lines_spec(parts[0]).len()
                &&& forall|i: int| 0 <= i < plan.tracks.len() ==> (#[trigger] plan.tracks[i])@ == lines_spec(parts[0])[i]
                &&& swaps_spec(lines_spec(parts[1])) == Some(plan.swaps@)
                &&& parse_unsigned_spec(trim_spec(parts[2]), usize::MAX as nat) == Some(plan.test_index as nat)
            },
            None => {
                let parts = split_spec(input.spec_bytes(), seq![0x0au8, 0x0au8]);
                ||| parts.len() != 3
                ||| swaps_spec(lines_spec(parts[1])) is None
                ||| parse_unsigned_spec(trim_spec(parts[2]), usize::MAX as nat) is None
            },
        },
{
    let gap: [u8; 2] = [0x0a, 0x0a];
    assert(gap@ =~= seq![0x0au8, 0x0au8]);
    let hyphen: [u8; 1] = [0x2d];
    assert(hyphen@ =~= seq![0x2du8]);
    let parts = split(input.as_bytes(), gap.as_slice());
    if parts.len() != 3 {
        return None;
    }
    let tracks = lines(parts[0]);
    let rows = lines(parts[1]);
    let ghost spec_rows = lines_spec(parts[1]@);
    let mut swaps: Vec<usize> = Vec::new();
    let mut i: usize = 0;
    while i < rows.len()
        invariant
            i <= rows.len(),
            hyphen@ == seq![0x2du8],
            parts.len() == 3,
            parts.len() == split_spec(input.spec_bytes(), seq![0x0au8, 0x0au8]).len(),
            parts[1]@ == split_spec(input.spec_bytes(), seq![0x0au8, 0x0au8])[1],
            spec_rows == lines_spec(parts[1]@),
            rows.len() == spec_rows.len(),
            forall|k: int| 0 <= k < rows.len() ==> (#[trigger] rows[k])@ == spec_rows[k],
            swaps.len() == 2 * i,
            forall|k: int| 0 <= k < i ==> swap_spec(#[trigger] spec_rows[k]) == Some((swaps[2 * k], swaps[2 * k + 1])),
        decreases rows.len() - i,
    {
        let (a, b) = match split_once(rows[i], hyphen.as_slice()) {
            Some(ends) => ends,
            None => {
                assert(swap_spec(spec_rows[i as int]) is None);
                return None;
            },
        };
        match (place(a), place(b)) {
            (Some(x), Some(y)) => {
                swaps.push(x);
                swaps.push(y);
            },
            _ => {
                assert(swap_spec(spec_rows[i as int]) is None);
                return None;
            },
        }
        i += 1;
    }
    proof {
        let goal = Seq::new(
            2 * spec_rows.len(),
            |k: int|
                if k % 2 == 0 {
                    swap_spec(spec_rows[k / 2])->Some_0.0
                } else {
                    swap_spec(spec_rows[k / 2])->Some_0.1
                },
        );
        assert forall|k: int| 0 <= k < swaps.len() implies swaps@[k] == goal[k] by {
            let row = k / 2;
            assert(swap_spec(spec_rows[row]) == Some((swaps[2 * row], swaps[2 * row + 1])));
        }
        assert(swaps@ =~= goal);
    }
    let test_index = match parse_unsigned(trim(parts[2]), usize::MAX as u64) {
        Some(n) => n as usize,
        None => { return None; },
    };
    Some(Plan { tracks, swaps, test_index })
}

/// The entry at a place of a row, counted from one.
pub fn track_at<T: Copy>(row: &Vec<T>, test_index: usize) -> (r: Option<T>)
    ensures
        r == if 1 <= test_index <= row.len() {
            Some(row[test_index - 1])
        } else {
            None
        },
{
    if test_index >= 1 && test_index <= row.len() {
        Some(row[test_index - 1])
    } else {
        None
    }
}

} // verus!
