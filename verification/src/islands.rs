//! Islands on a plane, and the distances between them along the axes.

use vstd::prelude::*;
use vstd::string::StringSliceAdditionalSpecFns;
use vstd::slice::slice_subrange;
use itertools::Itertools;
use crate::text::{lines, lines_spec, parse_signed, parse_signed_spec, split_once, split_once_spec};

verus! {

/// The distance between two points in steps along the axes.
pub open spec fn dist_spec(a: (i64, i64), b: (i64, i64)) -> nat {
    vstd::math::abs(a.0 - b.0) + vstd::math::abs(a.1 - b.1)
}

/// The distance between two coordinates.
fn span(a: i64, b: i64) -> (r: u64)
    ensures
        r == vstd::math::abs(a - b),
{
    if a >= b {
        (a as i128 - b as i128) as u64
    } else {
        (b as i128 - a as i128) as u64
    }
}

/// The distance between two points in steps along the axes, where it fits
/// 64 bits.
pub fn dist(a: (i64, i64), b: (i64, i64)) -> (r: u64)
    requires
        dist_spec(a, b) <= u64::MAX,
    ensures
        r == dist_spec(a, b),
{
    span(a.0, b.0) + span(a.1, b.1)
}

/// The point that a text of the form `(x, y)` writes: whatever its first and
/// last bytes are, two signed decimal numbers between them, parted by a
/// comma and a blank.
pub open spec fn parse_tuple_spec(s: Seq<u8>) -> Option<(int, int)> {
    if s.len() < 2 {
        None
    } else {
        match split_once_spec(s.subrange(1, s.len() - 1), seq![0x2cu8, 0x20u8]) {
            Some((x, y)) => match (
                parse_signed_spec(x, i64::MIN as int, i64::MAX as int),
                parse_signed_spec(y, i64::MIN as int, i64::MAX as int),
            ) {
                (Some(a), Some(b)) => Some((a, b)),
                _ => None,
            },
            None => None,
        }
    }
}

/// Reads a point of the form `(x, y)`.
pub fn parse_tuple(s: &str) -> (r: Option<(i64, i64)>)
    ensures
        match r {
            Some(p) => parse_tuple_spec(s.spec_bytes()) == Some((p.0 as int, p.1 as int)),
            None => parse_tuple_spec(s.spec_bytes()) is None,
        },
{
    point_of(s.as_bytes())
}

/// Reads the bytes of a point of the form `(x, y)`.
pub fn point_of(bytes: &[u8]) -> (r: Option<(i64, i64)>)
    ensures
        match r {
            Some(p) => parse_tuple_spec(bytes@) == Some((p.0 as int, p.1 as int)),
            None => parse_tuple_spec(bytes@) is None,
        },
{
    if bytes.len() < 2 {
        return None;
    }
    let inner = slice_subrange(bytes, 1, bytes.len() - 1);
    let comma: [u8; 2] = [0x2c, 0x20];
    assert(comma@ =~= seq![0x2cu8, 0x20u8]);
    match split_once(inner, comma.as_slice()) {
        Some((x, y)) => match parse_signed(x, i64::MIN, i64::MAX) {
            Some(a) => match parse_signed(y, i64::MIN, i64::MAX) {
                Some(b) => Some((a, b)),
                None => None,
            },
            None => None,
        },
        None => None,
    }
}

/// The distance between two points, or `None` where it does not fit 64
/// bits.
pub fn checked_dist(a: (i64, i64), b: (i64, i64)) -> (r: Option<u64>)
    ensures
        r == if dist_spec(a, b) <= u64::MAX {
            Some(dist_spec(a, b) as u64)
        } else {
            None
        },
{
    span(a.0, b.0).checked_add(span(a.1, b.1))
}

/// The islands of a text, one to a line; `None` where a line writes no
/// point.
pub fn parse_islands(input: &str) -> (r: Option<Vec<(i64, i64)>>)
    ensures
        match r {
            Some(islands) => islands.len() == lines_spec(input.spec_bytes()).len() && forall|i: int|
                0 <= i < islands.len() ==> parse_tuple_spec(lines_spec(input.spec_bytes())[i]) == Some(
                    ((#[trigger] islands[i]).0 as int, islands[i].1 as int),
                ),
            None => exists|i: int|
                0 <= i < lines_spec(input.spec_bytes()).len() && parse_tuple_spec(
                    #[trigger] lines_spec(input.spec_bytes())[i],
                ) is None,
        },
{
    let rows = lines(input.as_bytes());
    let ghost spec_rows = lines_spec(input.spec_bytes());
    let mut islands: Vec<(i64, i64)> = Vec::new();
    let mut i: usize = 0;
    while i < rows.len()
        invariant
            i <= rows.len(),
            spec_rows == lines_spec(input.spec_bytes()),
            rows.len() == spec_rows.len(),
            forall|k: int| 0 <= k < rows.len() ==> (#[trigger] rows[k])@ == spec_rows[k],
            islands.len() == i,
            forall|k: int|
                0 <= k < i ==> parse_tuple_spec(spec_rows[k]) == Some(
                    ((#[trigger] islands[k]).0 as int, islands[k].1 as int),
                ),
        decreases rows.len() - i,
    {
        match point_of(rows[i]) {
            Some(p) => {
                islands.push(p);
            },
            None => {
                assert(parse_tuple_spec(spec_rows[i as int]) is None);
                return None;
            },
        }
        i += 1;
    }
    Some(islands)
}

/// The distances of islands from a point, if each fits 64 bits.
pub open spec fn distances_spec(from: (i64, i64), islands: Seq<(i64, i64)>) -> Option<Seq<u64>> {
    if forall|i: int| 0 <= i < islands.len() ==> dist_spec(from, #[trigger] islands[i]) <= u64::MAX {
        Some(Seq::new(islands.len(), |i: int| dist_spec(from, islands[i]) as u64))
    } else {
        None
    }
}

/// The distances of islands from a point.
pub fn distances(from: (i64, i64), islands: &Vec<(i64, i64)>) -> (r: Option<Vec<u64>>)
    ensures
        match r {
            Some(list) => distances_spec(from, islands@) == Some(list@),
            None => distances_spec(from, islands@) is None,
        },
{
    let mut list: Vec<u64> = Vec::new();
    let mut i: usize = 0;
    while i < islands.len()
        invariant
            i <= islands.len(),
            list.len() == i,
            forall|k: int| 0 <= k < i ==> #[trigger] list[k] == dist_spec(from, islands[k]),
        decreases islands.len() - i,
    {
        match checked_dist(from, islands[i]) {
            Some(d) => {
                list.push(d);
            },
            None => {
                assert(dist_spec(from, islands[i as int]) > u64::MAX);
                return None;
            },
        }
        i += 1;
    }
    proof {
        assert forall|k: int| 0 <= k < islands.len() implies dist_spec(from, #[trigger] islands[k]) <= u64::MAX by {
            assert(list[k] == dist_spec(from, islands[k]));
        }
        assert(list@ =~= Seq::new(islands.len() as nat, |k: int| dist_spec(from, islands[k]) as u64));
    }
    Some(list)
}

/// Whether `lo` and `hi` are the least and the greatest of the numbers.
pub open spec fn is_minmax(list: Seq<u64>, lo: u64, hi: u64) -> bool {
    &&& list.contains(lo)
    &&& list.contains(hi)
    &&& forall|i: int| 0 <= i < list.len() ==> lo <= #[trigger] list[i] <= hi
}

/// Whether `at` is the place of the first of the least numbers.
pub open spec fn is_first_least(list: Seq<u64>, at: int) -> bool {
    &&& 0 <= at < list.len()
    &&& forall|i: int| 0 <= i < list.len() ==> list[at] <= #[trigger] list[i]
    &&& forall|i: int| 0 <= i < at ==> list[at] < #[trigger] list[i]
}

/// What `minmax` should find in a list.
pub open spec fn minmax_found(list: Seq<u64>, found: Option<(u64, u64)>) -> bool {
    match found {
        Some((lo, hi)) => is_minmax(list, lo, hi),
        None => list.len() == 0,
    }
}

/// What `position_min_by_key` should find in a list.
pub open spec fn least_found(list: Seq<u64>, found: Option<usize>) -> bool {
    match found {
        Some(at) => is_first_least(list, at as int),
        None => list.len() == 0,
    }
}

/// `Itertools::minmax` with `MinMaxResult::into_option`: the least and the
/// greatest of the numbers, or `None` where there is none.
#[verifier::external_body]
fn minmax_of(list: &Vec<u64>) -> (r: Option<(u64, u64)>)
    ensures
        minmax_found(list@, r),
{
    list.iter().copied().minmax().into_option()
}

/// The number itself, as the key to order numbers by.
pub fn itself(d: &u64) -> (r: u64)
    ensures
        r == *d,
{
    *d
}

/// `Itertools::position_min_by_key`: the place of the first of the least
/// numbers, or `None` where there is none.
#[verifier::external_body]
fn position_of_least(list: &Vec<u64>) -> (r: Option<usize>)
    ensures
        least_found(list@, r),
{
    list.iter().position_min_by_key(|d| itself(*d))
}

/// Whether the greatest of the numbers is `d` more than the least.
pub open spec fn has_spread(list: Seq<u64>, d: u64) -> bool {
    exists|lo: u64, hi: u64| #[trigger] is_minmax(list, lo, hi) && d == hi - lo
}

/// How much farther from the origin the farthest island lies than the
/// nearest; `None` where there is no island, and where a distance does not
/// fit 64 bits.
pub fn spread(islands: &Vec<(i64, i64)>) -> (r: Option<u64>)
    ensures
        match r {
            Some(d) => distances_spec((0i64, 0i64), islands@) is Some && has_spread(
                distances_spec((0i64, 0i64), islands@)->Some_0,
                d,
            ),
            None => islands.len() == 0 || distances_spec((0i64, 0i64), islands@) is None,
        },
{
    let list = match distances((0, 0), islands) {
        Some(list) => list,
        None => { return None; },
    };
    match minmax_of(&list) {
        Some((lo, hi)) => {
            proof {
                assert(is_minmax(list@, lo, hi));
                let k = choose|k: int| 0 <= k < list@.len() && list@[k] == lo;
                assert(lo <= list@[k] <= hi);
            }
            let d = hi - lo;
            assert(is_minmax(list@, lo, hi) && d == hi - lo);
            Some(d)
        },
        None => None,
    }
}

/// The place of the island nearest to a point, the first of several;
/// `None` where there is no island, and where a distance does not fit 64
/// bits.
pub fn nearest(from: (i64, i64), islands: &Vec<(i64, i64)>) -> (r: Option<usize>)
    ensures
        match r {
            Some(at) => distances_spec(from, islands@) is Some && is_first_least(
                distances_spec(from, islands@)->Some_0,
                at as int,
            ),
            None => islands.len() == 0 || distances_spec(from, islands@) is None,
        },
{
    let list = match distances(from, islands) {
        Some(list) => list,
        None => { return None; },
    };
    position_of_least(&list)
}

/// Whether `d` is the least distance from a point to an island that lies
/// elsewhere.
pub open spec fn is_nearest_other(islands: Seq<(i64, i64)>, home: (i64, i64), d: u64) -> bool {
    &&& exists|i: int| 0 <= i < islands.len() && #[trigger] islands[i] != home && dist_spec(home, islands[i]) == d
    &&& forall|i: int| 0 <= i < islands.len() && #[trigger] islands[i] != home ==> dist_spec(home, islands[i]) >= d
}

/// Whether an island lies elsewhere than a point, at a distance that fits
/// 64 bits or not.
pub open spec fn has_other(islands: Seq<(i64, i64)>, home: (i64, i64), fitting: bool) -> bool {
    exists|i: int|
        0 <= i < islands.len() && #[trigger] islands[i] != home && (dist_spec(home, islands[i]) <= u64::MAX)
            == fitting
}

/// The least distance from the island at place `at` to an island that lies
/// elsewhere; `None` where there is no such island, and where the distance
/// to one does not fit 64 bits.
pub fn nearest_neighbour(islands: &Vec<(i64, i64)>, at: usize) -> (r: Option<u64>)
    requires
        at < islands.len(),
    ensures
        match r {
            Some(d) => is_nearest_other(islands@, islands[at as int], d) && !has_other(
                islands@,
                islands[at as int],
                false,
            ),
            None => has_other(islands@, islands[at as int], false) || !has_other(
                islands@,
                islands[at as int],
                true,
            ),
        },
{
    let home = islands[at];
    let mut best: Option<u64> = None;
    let ghost mut witness: int = 0;
    let mut i: usize = 0;
    while i < islands.len()
        invariant
            i <= islands.len(),
            at < islands.len(),
            home == islands[at as int],
            match best {
                Some(d) => 0 <= witness < i && islands[witness] != home && dist_spec(home, islands[witness]) == d,
                None => true,
            },
            forall|k: int|
                0 <= k < i && #[trigger] islands[k] != home ==> best is Some && best->Some_0 <= dist_spec(
                    home,
                    islands[k],
                ) <= u64::MAX,
        decreases islands.len() - i,
    {
        let p = islands[i];
        if p.0 != home.0 || p.1 != home.1 {
            let d = match checked_dist(home, p) {
                Some(d) => d,
                None => {
                    assert(islands[i as int] != home && dist_spec(home, islands[i as int]) > u64::MAX);
                    return None;
                },
            };
            let closer = match best {
                Some(b) => d < b,
                None => true,
            };
            if closer {
                best = Some(d);
                proof {
                    witness = i as int;
                }
            }
        }
        i += 1;
    }
    match best {
        Some(d) => {
            assert(islands[witness] != islands[at as int]);
            Some(d)
        },
        None => None,
    }
}

/// The length of the tour over islands that begins at the origin and goes
/// each time to the nearest island not yet seen, the first of several.
pub open spec fn tour_spec(from: (i64, i64), islands: Seq<(i64, i64)>) -> Option<nat>
    decreases islands.len(),
{
    if islands.len() == 0 {
        Some(0nat)
    } else {
        match distances_spec(from, islands) {
            Some(list) => {
                let at = choose|at: int| is_first_least(list, at);
                if is_first_least(list, at) {
                    match tour_spec(islands[at], islands.remove(at)) {
                        Some(rest) => Some(list[at] as nat + rest),
                        None => None,
                    }
                } else {
                    None
                }
            },
            None => None,
        }
    }
}

/// The first of the least numbers stands at one place.
proof fn lemma_first_least_is_one(list: Seq<u64>, a: int, b: int)
    requires
        is_first_least(list, a),
        is_first_least(list, b),
    ensures
        a == b,
{
    if a < b {
        assert(list[b] < list[a]);
    }
    if b < a {
        assert(list[a] < list[b]);
    }
}

/// The length of the tour over the islands that begins at the origin and
/// goes each time to the nearest island not yet seen; `None` where a
/// distance or the length does not fit 64 bits.
pub fn tour(islands: Vec<(i64, i64)>) -> (r: Option<u64>)
    ensures
        r == match tour_spec((0i64, 0i64), islands@) {
            Some(len) => if len <= u64::MAX {
                Some(len as u64)
            } else {
                None
            },
            None => None,
        },
{
    let mut left = islands;
    let mut island: (i64, i64) = (0, 0);
    let mut walked: u64 = 0;
    loop
        invariant
            tour_spec((0i64, 0i64), islands@) == match tour_spec(island, left@) {
                Some(rest) => Some(walked as nat + rest),
                None => None,
            },
        decreases left.len(),
    {
        if left.len() == 0 {
            assert(tour_spec(island, left@) == Some(0nat));
            return Some(walked);
        }
        let ghost before = left@;
        let ghost here = island;
        let next = match nearest(island, &left) {
            Some(next) => next,
            None => {
                assert(tour_spec(here, before) is None);
                return None;
            },
        };
        proof {
            let list = distances_spec(here, before)->Some_0;
            let at = choose|at: int| is_first_least(list, at);
            lemma_first_least_is_one(list, at, next as int);
            assert(dist_spec(here, before[next as int]) <= u64::MAX);
            assert(list[next as int] == dist_spec(here, before[next as int]));
            assert(tour_spec(here, before) == match tour_spec(before[next as int], before.remove(next as int)) {
                Some(rest) => Some(list[next as int] as nat + rest),
                None => None,
            });
        }
        let step = match checked_dist(island, left[next]) {
            Some(d) => d,
            None => { return None; },
        };
        island = left.remove(next);
        walked = match walked.checked_add(step) {
            Some(v) => v,
            None => {
                return None;
            },
        };
    }
}

} // verus!
