//! Ranges of box numbers, written `first-last`.

use vstd::prelude::*;
use vstd::string::StringSliceAdditionalSpecFns;
use crate::text::{
    lines, lines_spec, parse_unsigned, parse_unsigned_spec, split_once, split_once_spec, tokens, tokens_spec,
};

verus! {

/// The range that a text of the form `first-last` writes: two unsigned
/// decimal numbers, parted by the first hyphen.
pub open spec fn parse_range_spec(s: Seq<u8>) -> Option<(nat, nat)> {
    match split_once_spec(s, seq![0x2du8]) {
        Some((first, last)) => match (
            parse_unsigned_spec(first, usize::MAX as nat),
            parse_unsigned_spec(last, usize::MAX as nat),
        ) {
            (Some(a), Some(b)) => Some((a, b)),
            _ => None,
        },
        None => None,
    }
}

/// Reads a range of the form `first-last`.
pub fn parse_range(s: &str) -> (r: Option<(usize, usize)>)
    ensures
        match r {
            Some(p) => parse_range_spec(s.spec_bytes()) == Some((p.0 as nat, p.1 as nat)),
            None => parse_range_spec(s.spec_bytes()) is None,
        },
{
    let hyphen: [u8; 1] = [0x2d];
    assert(hyphen@ =~= seq![0x2du8]);
    match split_once(s.as_bytes(), hyphen.as_slice()) {
        Some((first, last)) => match parse_unsigned(first, usize::MAX as u64) {
            Some(a) => match parse_unsigned(last, usize::MAX as u64) {
                Some(b) => Some((a as usize, b as usize)),
                None => None,
            },
            None => None,
        },
        None => None,
    }
}

/// The number of boxes in a range, both ends counted; none where the first
/// lies after the last.
pub open spec fn range_len(r: (nat, nat)) -> nat {
    if r.0 <= r.1 {
        (r.1 - r.0 + 1) as nat
    } else {
        0
    }
}

/// The number of boxes in a range, where it fits.
pub fn range_count(first: usize, last: usize) -> (r: Option<usize>)
    ensures
        r == if range_len((first as nat, last as nat)) <= usize::MAX {
            Some(range_len((first as nat, last as nat)) as usize)
        } else {
            None
        },
{
    if first > last {
        Some(0)
    } else {
        (last - first).checked_add(1)
    }
}

/// The numbers of boxes in the ranges that the first `n` words write,
/// together, if each word writes a range.
pub open spec fn boxes_upto(words: Seq<Seq<u8>>, n: int) -> Option<nat>
    decreases n,
{
    if n <= 0 {
        Some(0nat)
    } else {
        match (boxes_upto(words, n - 1), parse_range_spec(words[n - 1])) {
            (Some(sum), Some(range)) => Some(sum + range_len(range)),
            _ => None,
        }
    }
}

/// Once a word writes no range, there is no sum.
proof fn lemma_boxes_fail(words: Seq<Seq<u8>>, k: int, n: int)
    requires
        0 <= k <= n,
        boxes_upto(words, k) is None,
    ensures
        boxes_upto(words, n) is None,
    decreases n - k,
{
    if k < n {
        lemma_boxes_fail(words, k, n - 1);
    }
}

/// A sum over more words is no less.
proof fn lemma_boxes_grow(words: Seq<Seq<u8>>, k: int, n: int)
    requires
        0 <= k <= n,
        boxes_upto(words, n) is Some,
    ensures
        boxes_upto(words, k) is Some,
        boxes_upto(words, k)->Some_0 <= boxes_upto(words, n)->Some_0,
    decreases n - k,
{
    if k < n {
        lemma_boxes_grow(words, k, n - 1);
    }
}

/// The number of boxes in all the ranges of a text, each range a word;
/// `None` where a word writes no range, and where the number does not fit.
pub fn count_boxes(input: &str) -> (r: Option<usize>)
    ensures
        r == match boxes_upto(tokens_spec(input.spec_bytes()), tokens_spec(input.spec_bytes()).len() as int) {
            Some(sum) => if sum <= usize::MAX {
                Some(sum as usize)
            } else {
                None
            },
            None => None,
        },
{
    let words = tokens(input.as_bytes());
    let ghost spec_words = tokens_spec(input.spec_bytes());
    let mut sum: usize = 0;
    let mut i: usize = 0;
    while i < words.len()
        invariant
            i <= words.len(),
            spec_words == tokens_spec(input.spec_bytes()),
            words.len() == spec_words.len(),
            forall|k: int| 0 <= k < words.len() ==> (#[trigger] words[k])@ == spec_words[k],
            boxes_upto(spec_words, i as int) == Some(sum as nat),
        decreases words.len() - i,
    {
        let range = match range_of(words[i]) {
            Some(range) => range,
            None => {
                proof {
                    lemma_boxes_fail(spec_words, i + 1, spec_words.len() as int);
                }
                return None;
            },
        };
        let next = match range_count(range.0, range.1) {
            Some(n) => sum.checked_add(n),
            None => None,
        };
        sum = match next {
            Some(v) => v,
            None => {
                proof {
                    if boxes_upto(spec_words, spec_words.len() as int) is Some {
                        lemma_boxes_grow(spec_words, i + 1, spec_words.len() as int);
                    }
                }
                return None;
            },
        };
        i += 1;
    }
    Some(sum)
}

/// Reads the bytes of a range of the form `first-last`.
pub fn range_of(s: &[u8]) -> (r: Option<(usize, usize)>)
    ensures
        match r {
            Some(p) => parse_range_spec(s@) == Some((p.0 as nat, p.1 as nat)),
            None => parse_range_spec(s@) is None,
        },
{
    let hyphen: [u8; 1] = [0x2d];
    assert(hyphen@ =~= seq![0x2du8]);
    match split_once(s, hyphen.as_slice()) {
        Some((first, last)) => match parse_unsigned(first, usize::MAX as u64) {
            Some(a) => match parse_unsigned(last, usize::MAX as u64) {
                Some(b) => Some((a as usize, b as usize)),
                None => None,
            },
            None => None,
        },
        None => None,
    }
}

/// Whether a box lies in a range.
pub open spec fn in_range(r: (usize, usize), x: int) -> bool {
    r.0 <= x <= r.1
}

/// The number of boxes from `lo` up to but not `hi` that lie in one of the
/// ranges.
pub open spec fn covered(ranges: Seq<(usize, usize)>, lo: int, hi: int) -> nat
    decreases hi - lo,
{
    if hi <= lo {
        0
    } else {
        covered(ranges, lo, hi - 1) + if exists|k: int| 0 <= k < ranges.len() && in_range(#[trigger] ranges[k], hi - 1) {
            1nat
        } else {
            0nat
        }
    }
}

/// Whether a box lies in one of the ranges.
fn is_covered(ranges: &[(usize, usize)], x: usize) -> (r: bool)
    ensures
        r == exists|k: int| 0 <= k < ranges.len() && in_range(#[trigger] ranges[k], x as int),
{
    let mut k: usize = 0;
    while k < ranges.len()
        invariant
            k <= ranges.len(),
            forall|j: int| 0 <= j < k ==> !in_range(#[trigger] ranges[j], x as int),
        decreases ranges.len() - k,
    {
        if ranges[k].0 <= x && x <= ranges[k].1 {
            return true;
        }
        k += 1;
    }
    false
}

/// Whether a range of the list reaches the greatest number there is.
pub open spec fn reaches_end(ranges: Seq<(usize, usize)>) -> bool {
    exists|k: int| 0 <= k < ranges.len() && (#[trigger] ranges[k]).1 == usize::MAX
}

/// The number of boxes that lie in one of the ranges, each box counted
/// once; `None` where a range reaches the greatest number there is.
pub fn count_covered(ranges: &[(usize, usize)]) -> (r: Option<usize>)
    ensures
        match r {
            Some(n) => n == covered(ranges@, 0, usize::MAX as int) && !reaches_end(ranges@),
            None => reaches_end(ranges@),
        },
{
    let mut hi: usize = 0;
    let mut k: usize = 0;
    while k < ranges.len()
        invariant
            k <= ranges.len(),
            hi <= usize::MAX,
            forall|j: int| 0 <= j < k ==> (#[trigger] ranges[j]).1 < hi,
        decreases ranges.len() - k,
    {
        if ranges[k].1 == usize::MAX {
            return None;
        }
        if ranges[k].1 >= hi {
            hi = ranges[k].1 + 1;
        }
        k += 1;
    }
    let mut lo: usize = hi;
    let mut k: usize = 0;
    while k < ranges.len()
        invariant
            k <= ranges.len(),
            lo <= hi,
            forall|j: int| 0 <= j < k ==> (#[trigger] ranges[j]).0 >= lo || ranges[j].0 > ranges[j].1,
        decreases ranges.len() - k,
    {
        if ranges[k].0 <= ranges[k].1 && ranges[k].0 < lo {
            lo = ranges[k].0;
        }
        k += 1;
    }
    proof {
        lemma_covered_before(ranges@, lo as int, lo as int);
    }
    let mut count: usize = 0;
    let mut x: usize = lo;
    while x < hi
        invariant
            lo <= x <= hi,
            count <= x - lo,
            count == covered(ranges@, 0, x as int),
        decreases hi - x,
    {
        if is_covered(ranges, x) {
            count += 1;
        }
        x += 1;
    }
    proof {
        lemma_covered_beyond(ranges@, hi as int, usize::MAX as int);
    }
    Some(count)
}

/// Before the beginning of every range no box is covered.
proof fn lemma_covered_before(ranges: Seq<(usize, usize)>, lo: int, x: int)
    requires
        0 <= x <= lo,
        forall|j: int| 0 <= j < ranges.len() ==> (#[trigger] ranges[j]).0 >= lo || ranges[j].0 > ranges[j].1,
    ensures
        covered(ranges, 0, x) == 0,
    decreases x,
{
    if x > 0 {
        lemma_covered_before(ranges, lo, x - 1);
    }
}

/// Beyond the end of every range no box is covered.
proof fn lemma_covered_beyond(ranges: Seq<(usize, usize)>, hi: int, far: int)
    requires
        0 <= hi <= far,
        forall|j: int| 0 <= j < ranges.len() ==> (#[trigger] ranges[j]).1 < hi,
    ensures
        covered(ranges, 0, far) == covered(ranges, 0, hi),
    decreases far - hi,
{
    if hi < far {
        lemma_covered_beyond(ranges, hi, far - 1);
    }
}

/// The two ranges that a line writes, with one blank between them.
pub open spec fn parse_pair_spec(line: Seq<u8>) -> Option<Seq<(usize, usize)>> {
    match split_once_spec(line, seq![0x20u8]) {
        Some((a, b)) => match (parse_range_spec(a), parse_range_spec(b)) {
            (Some(x), Some(y)) => Some(seq![(x.0 as usize, x.1 as usize), (y.0 as usize, y.1 as usize)]),
            _ => None,
        },
        None => None,
    }
}

/// Reads the two ranges of a line.
pub fn parse_pair(line: &[u8]) -> (r: Option<Vec<(usize, usize)>>)
    ensures
        match r {
            Some(pair) => parse_pair_spec(line@) == Some(pair@),
            None => parse_pair_spec(line@) is None,
        },
{
    let blank: [u8; 1] = [0x20];
    assert(blank@ =~= seq![0x20u8]);
    match split_once(line, blank.as_slice()) {
        Some((a, b)) => match (range_of(a), range_of(b)) {
            (Some(x), Some(y)) => {
                let mut pair: Vec<(usize, usize)> = Vec::new();
                pair.push(x);
                pair.push(y);
                assert(pair@ =~= seq![x, y]);
                Some(pair)
            },
            _ => None,
        },
        None => None,
    }
}

/// The piles of a text: one to a line, each the two ranges of the line.
/// `None` where a line does not write two ranges.
pub fn parse_piles(input: &str) -> (r: Option<Vec<Vec<(usize, usize)>>>)
    ensures
        match r {
            Some(piles) => piles.len() == lines_spec(input.spec_bytes()).len() && forall|i: int|
                0 <= i < piles.len() ==> parse_pair_spec(lines_spec(input.spec_bytes())[i]) == Some(
                    (#[trigger] piles[i])@,
                ),
            None => exists|i: int|
                0 <= i < lines_spec(input.spec_bytes()).len() && parse_pair_spec(
                    #[trigger] lines_spec(input.spec_bytes())[i],
                ) is None,
        },
{
    let rows = lines(input.as_bytes());
    let ghost spec_rows = lines_spec(input.spec_bytes());
    let mut piles: Vec<Vec<(usize, usize)>> = Vec::new();
    let mut i: usize = 0;
    while i < rows.len()
        invariant
            i <= rows.len(),
            spec_rows == lines_spec(input.spec_bytes()),
            rows.len() == spec_rows.len(),
            forall|k: int| 0 <= k < rows.len() ==> (#[trigger] rows[k])@ == spec_rows[k],
            piles.len() == i,
            forall|k: int| 0 <= k < i ==> parse_pair_spec(spec_rows[k]) == Some((#[trigger] piles[k])@),
        decreases rows.len() - i,
    {
        match parse_pair(rows[i]) {
            Some(pair) => {
                piles.push(pair);
            },
            None => {
                assert(parse_pair_spec(spec_rows[i as int]) is None);
                return None;
            },
        }
        i += 1;
    }
    Some(piles)
}

/// The numbers of boxes of the first `n` piles, together; a box that lies
/// in both ranges of a pile counts once.
pub open spec fn piles_total(piles: Seq<Seq<(usize, usize)>>, n: int) -> nat
    decreases n,
{
    if n <= 0 {
        0
    } else {
        piles_total(piles, n - 1) + covered(piles[n - 1], 0, usize::MAX as int)
    }
}

/// A total of more piles is no less.
proof fn lemma_piles_total_grows(piles: Seq<Seq<(usize, usize)>>, k: int, n: int)
    requires
        0 <= k <= n,
    ensures
        piles_total(piles, k) <= piles_total(piles, n),
    decreases n - k,
{
    if k < n {
        lemma_piles_total_grows(piles, k, n - 1);
    }
}

/// The piles as their ranges.
pub open spec fn piles_view(piles: Seq<Vec<(usize, usize)>>) -> Seq<Seq<(usize, usize)>> {
    Seq::new(piles.len(), |i: int| piles[i]@)
}

/// Whether none of the first `n` piles has a range that reaches the greatest
/// number there is.
pub open spec fn countable(piles: Seq<Seq<(usize, usize)>>, n: int) -> bool {
    forall|i: int| 0 <= i < n ==> !reaches_end(#[trigger] piles[i])
}

/// The number of boxes of all piles together; `None` where a range reaches
/// the greatest number there is, and where the total does not fit.
pub fn count_piles(piles: &Vec<Vec<(usize, usize)>>) -> (r: Option<usize>)
    ensures
        r == if countable(piles_view(piles@), piles.len() as int) && piles_total(
            piles_view(piles@),
            piles.len() as int,
        ) <= usize::MAX {
            Some(piles_total(piles_view(piles@), piles.len() as int) as usize)
        } else {
            None
        },
{
    let ghost all = piles_view(piles@);
    let mut sum: usize = 0;
    let mut i: usize = 0;
    while i < piles.len()
        invariant
            i <= piles.len(),
            all == piles_view(piles@),
            countable(all, i as int),
            sum == piles_total(all, i as int),
        decreases piles.len() - i,
    {
        assert(all[i as int] == piles[i as int]@);
        let n = match count_covered(piles[i].as_slice()) {
            Some(n) => n,
            None => {
                assert(reaches_end(all[i as int]));
                return None;
            },
        };
        sum = match sum.checked_add(n) {
            Some(v) => v,
            None => {
                proof {
                    lemma_piles_total_grows(all, i + 1, piles.len() as int);
                }
                return None;
            },
        };
        i += 1;
    }
    Some(sum)
}

/// The number of boxes of two piles together, each box counted once.
pub open spec fn two_piles(a: Seq<(usize, usize)>, b: Seq<(usize, usize)>) -> nat {
    covered(a + b, 0, usize::MAX as int)
}

/// The greatest number of boxes of two piles next to each other among the
/// first `n` such pairs.
pub open spec fn greatest_neighbours(piles: Seq<Seq<(usize, usize)>>, n: int) -> nat
    decreases n,
{
    if n <= 0 {
        0
    } else {
        let before = greatest_neighbours(piles, n - 1);
        let here = two_piles(piles[n - 1], piles[n]);
        if here > before {
            here
        } else {
            before
        }
    }
}

/// Two piles together reach the end where one of them does.
proof fn lemma_reaches_end_add(a: Seq<(usize, usize)>, b: Seq<(usize, usize)>)
    ensures
        reaches_end(a + b) <==> reaches_end(a) || reaches_end(b),
{
    let both = a + b;
    if reaches_end(both) {
        let k = choose|k: int| 0 <= k < both.len() && (#[trigger] both[k]).1 == usize::MAX;
        if k < a.len() {
            assert(a[k].1 == usize::MAX);
        } else {
            assert(b[k - a.len()].1 == usize::MAX);
        }
    }
    if reaches_end(a) {
        let k = choose|k: int| 0 <= k < a.len() && (#[trigger] a[k]).1 == usize::MAX;
        assert(both[k].1 == usize::MAX);
    }
    if reaches_end(b) {
        let k = choose|k: int| 0 <= k < b.len() && (#[trigger] b[k]).1 == usize::MAX;
        assert(both[k + a.len()].1 == usize::MAX);
    }
}

/// The greatest number of boxes of two piles next to each other; `None`
/// where there are fewer than two piles, and where a range reaches the
/// greatest number there is.
pub fn largest_neighbours(piles: &Vec<Vec<(usize, usize)>>) -> (r: Option<usize>)
    ensures
        r == if piles.len() >= 2 && countable(piles_view(piles@), piles.len() as int) {
            Some(greatest_neighbours(piles_view(piles@), piles.len() - 1) as usize)
        } else {
            None
        },
{
    if piles.len() < 2 {
        return None;
    }
    let ghost all = piles_view(piles@);
    let mut best: usize = 0;
    let mut i: usize = 0;
    while i < piles.len() - 1
        invariant
            piles.len() >= 2,
            i <= piles.len() - 1,
            all == piles_view(piles@),
            countable(all, i as int),
            i > 0 ==> countable(all, i + 1),
            best == greatest_neighbours(all, i as int),
        decreases piles.len() - i,
    {
        let mut both: Vec<(usize, usize)> = Vec::new();
        let mut k: usize = 0;
        while k < piles[i].len()
            invariant
                i < piles.len() - 1,
                k <= piles[i as int].len(),
                both@ == piles[i as int]@.take(k as int),
            decreases piles[i as int].len() - k,
        {
            both.push(piles[i][k]);
            assert(both@ =~= piles[i as int]@.take(k + 1));
            k += 1;
        }
        assert(piles[i as int]@.take(piles[i as int].len() as int) =~= piles[i as int]@);
        let mut k: usize = 0;
        while k < piles[i + 1].len()
            invariant
                i < piles.len() - 1,
                k <= piles[i + 1].len(),
                both@ == piles[i as int]@ + piles[i + 1]@.take(k as int),
            decreases piles[i + 1].len() - k,
        {
            both.push(piles[i + 1][k]);
            assert(both@ =~= piles[i as int]@ + piles[i + 1]@.take(k + 1));
            k += 1;
        }
        assert(piles[i + 1]@.take(piles[i + 1].len() as int) =~= piles[i + 1]@);
        proof {
            assert(all[i as int] == piles[i as int]@);
            assert(all[i + 1] == piles[i + 1]@);
            lemma_reaches_end_add(all[i as int], all[i + 1]);
        }
        let here = match count_covered(both.as_slice()) {
            Some(n) => n,
            None => {
                assert(reaches_end(all[i as int]) || reaches_end(all[i + 1]));
                return None;
            },
        };
        if here > best {
            best = here;
        }
        i += 1;
    }
    Some(best)
}

} // verus!
