//! Texts in which a digit and a letter that stand side by side cancel.

use vstd::prelude::*;
use vstd::string::StringSliceAdditionalSpecFns;
use vstd::slice::slice_to_vec;
use crate::text::{is_digit, lines, lines_spec};

verus! {

/// Whether a byte cancels against a digit: a small letter, and with
/// `hyphens` also a hyphen.
pub open spec fn is_partner(b: u8, hyphens: bool) -> bool {
    (0x61 <= b <= 0x7a) || (hyphens && b == 0x2d)
}

/// Whether two neighbours cancel: a digit and a partner, in either order.
pub open spec fn cancels(a: u8, b: u8, hyphens: bool) -> bool {
    (is_digit(a) && is_partner(b, hyphens)) || (is_partner(a, hyphens) && is_digit(b))
}

/// The offset of the first pair of neighbours at or after `from` that
/// cancel.
pub open spec fn first_pair_from(s: Seq<u8>, hyphens: bool, from: int) -> Option<int>
    decreases s.len() - from,
{
    if from < 0 || from + 2 > s.len() {
        None
    } else if cancels(s[from], s[from + 1], hyphens) {
        Some(from)
    } else {
        first_pair_from(s, hyphens, from + 1)
    }
}

/// What is left of a text when, as long as there is a pair that cancels, the
/// first such pair is taken out.
pub open spec fn reduced(s: Seq<u8>, hyphens: bool) -> Seq<u8>
    decreases s.len(),
{
    match first_pair_from(s, hyphens, 0) {
        Some(i) => if 0 <= i && i + 2 <= s.len() {
            reduced(s.take(i) + s.skip(i + 2), hyphens)
        } else {
            s
        },
        None => s,
    }
}

/// The first pair at or after `from` lies inside the text.
proof fn lemma_first_pair_inside(s: Seq<u8>, hyphens: bool, from: int)
    requires
        0 <= from,
    ensures
        match first_pair_from(s, hyphens, from) {
            Some(i) => from <= i && i + 2 <= s.len(),
            None => true,
        },
    decreases s.len() - from,
{
    if from + 2 <= s.len() && !cancels(s[from], s[from + 1], hyphens) {
        lemma_first_pair_inside(s, hyphens, from + 1);
    }
}

/// Whether two neighbours cancel.
fn cancel(a: u8, b: u8, hyphens: bool) -> (r: bool)
    ensures
        r == cancels(a, b, hyphens),
{
    let a_digit = 0x30 <= a && a <= 0x39;
    let b_digit = 0x30 <= b && b <= 0x39;
    let a_partner = (0x61 <= a && a <= 0x7a) || (hyphens && a == 0x2d);
    let b_partner = (0x61 <= b && b <= 0x7a) || (hyphens && b == 0x2d);
    (a_digit && b_partner) || (a_partner && b_digit)
}

/// The offset of the first pair of neighbours that cancel.
fn first_pair(s: &Vec<u8>, hyphens: bool) -> (r: Option<usize>)
    ensures
        match r {
            Some(i) => first_pair_from(s@, hyphens, 0) == Some(i as int) && i + 2 <= s.len(),
            None => first_pair_from(s@, hyphens, 0) is None,
        },
{
    if s.len() < 2 {
        return None;
    }
    let mut i: usize = 0;
    while i < s.len() - 1
        invariant
            s.len() >= 2,
            i <= s.len() - 1,
            first_pair_from(s@, hyphens, 0) == first_pair_from(s@, hyphens, i as int),
        decreases s.len() - i,
    {
        if cancel(s[i], s[i + 1], hyphens) {
            return Some(i);
        }
        i += 1;
    }
    None
}

/// The length of what is left of a text after all cancelling.
pub fn reduce(line: &[u8], hyphens: bool) -> (r: usize)
    ensures
        r == reduced(line@, hyphens).len(),
{
    let mut bs: Vec<u8> = slice_to_vec(line);
    loop
        invariant
            reduced(line@, hyphens) == reduced(bs@, hyphens),
        decreases bs.len(),
    {
        match first_pair(&bs, hyphens) {
            Some(i) => {
                let ghost before = bs@;
                bs.remove(i);
                bs.remove(i);
                assert(bs@ =~= before.take(i as int) + before.skip(i + 2));
            },
            None => {
                return bs.len();
            },
        }
    }
}

/// The length of what is left of a line when digits cancel against small
/// letters and hyphens.
pub fn reduce_part2(line: &str) -> (r: usize)
    ensures
        r == reduced(line.spec_bytes(), true).len(),
{
    reduce(line.as_bytes(), true)
}

/// The length of what is left of a line when digits cancel against small
/// letters only.
pub fn reduce_part3(line: &str) -> (r: usize)
    ensures
        r == reduced(line.spec_bytes(), false).len(),
{
    reduce(line.as_bytes(), false)
}

/// What is left of the first `n` lines after all cancelling, in bytes.
pub open spec fn left_upto(rows: Seq<Seq<u8>>, hyphens: bool, n: int) -> nat
    decreases n,
{
    if n <= 0 {
        0
    } else {
        left_upto(rows, hyphens, n - 1) + reduced(rows[n - 1], hyphens).len()
    }
}

/// Of more lines no less is left.
proof fn lemma_left_grows(rows: Seq<Seq<u8>>, hyphens: bool, k: int, n: int)
    requires
        0 <= k <= n,
    ensures
        left_upto(rows, hyphens, k) <= left_upto(rows, hyphens, n),
    decreases n - k,
{
    if k < n {
        lemma_left_grows(rows, hyphens, k, n - 1);
    }
}

/// What is left of the lines of a text after all cancelling, in bytes;
/// `None` where that is more than can be counted.
pub fn reduce_lines(input: &str, hyphens: bool) -> (r: Option<usize>)
    ensures
        r == if left_upto(lines_spec(input.spec_bytes()), hyphens, lines_spec(input.spec_bytes()).len() as int)
            <= usize::MAX {
            Some(
                left_upto(lines_spec(input.spec_bytes()), hyphens, lines_spec(input.spec_bytes()).len() as int)
                    as usize,
            )
        } else {
            None
        },
{
    let rows = lines(input.as_bytes());
    let ghost spec_rows = lines_spec(input.spec_bytes());
    let mut sum: usize = 0;
    let mut i: usize = 0;
    while i < rows.len()
        invariant
            i <= rows.len(),
            spec_rows == lines_spec(input.spec_bytes()),
            rows.len() == spec_rows.len(),
            forall|k: int| 0 <= k < rows.len() ==> (#[trigger] rows[k])@ == spec_rows[k],
            sum == left_upto(spec_rows, hyphens, i as int),
        decreases rows.len() - i,
    {
        sum = match sum.checked_add(reduce(rows[i], hyphens)) {
            Some(v) => v,
            None => {
                proof {
                    lemma_left_grows(spec_rows, hyphens, i + 1, spec_rows.len() as int);
                }
                return None;
            },
        };
        i += 1;
    }
    Some(sum)
}

} // verus!
