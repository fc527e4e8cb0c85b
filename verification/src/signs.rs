//! Numbers joined by a row of signs.

use vstd::prelude::*;
use vstd::string::StringSliceAdditionalSpecFns;
use crate::text::{lines, lines_spec, parse_signed, parse_signed_spec};

verus! {

/// Whether a number fits 64 bits.
pub open spec fn fits(v: int) -> bool {
    i64::MIN <= v <= i64::MAX
}

/// A number with another added or taken off, as the sign says, if the sign
/// is `+` or `-` and the outcome fits 64 bits.
pub open spec fn signed_step(acc: int, sign: u8, n: int) -> Option<int> {
    if sign == 0x2b && fits(acc + n) {
        Some(acc + n)
    } else if sign == 0x2d && fits(acc - n) {
        Some(acc - n)
    } else {
        None
    }
}

/// The outcome of the first `k` steps of a chain: each step takes the next
/// sign and the next term, and fails where there is no term. The signs are
/// read forwards, or backwards from the last one.
pub open spec fn chain(first: int, terms: Seq<Option<i64>>, signs: Seq<u8>, backwards: bool, k: int) -> Option<
    int,
>
    decreases k,
{
    if k <= 0 {
        Some(first)
    } else {
        let sign = if backwards {
            signs[signs.len() - k]
        } else {
            signs[k - 1]
        };
        match (chain(first, terms, signs, backwards, k - 1), terms[k - 1]) {
            (Some(acc), Some(n)) => signed_step(acc, sign, n as int),
            _ => None,
        }
    }
}

/// The lesser of two numbers.
pub open spec fn least(a: int, b: int) -> int {
    if a <= b {
        a
    } else {
        b
    }
}

/// The whole chain: as many steps as there are signs and terms for.
pub open spec fn whole_chain(first: int, terms: Seq<Option<i64>>, signs: Seq<u8>, backwards: bool) -> Option<int> {
    chain(first, terms, signs, backwards, least(signs.len() as int, terms.len() as int))
}

/// Once a step fails, the chain has failed.
proof fn lemma_chain_fails(first: int, terms: Seq<Option<i64>>, signs: Seq<u8>, backwards: bool, k: int, n: int)
    requires
        0 <= k <= n,
        chain(first, terms, signs, backwards, k) is None,
    ensures
        chain(first, terms, signs, backwards, n) is None,
    decreases n - k,
{
    if k < n {
        lemma_chain_fails(first, terms, signs, backwards, k, n - 1);
    }
}

/// Carries out a chain.
pub fn run_chain(first: i64, terms: &Vec<Option<i64>>, signs: &[u8], backwards: bool) -> (r: Option<i64>)
    ensures
        r == match whole_chain(first as int, terms@, signs@, backwards) {
            Some(v) => Some(v as i64),
            None => None,
        },
{
    let steps: usize = if signs.len() < terms.len() {
        signs.len()
    } else {
        terms.len()
    };
    let mut acc: i64 = first;
    let mut k: usize = 0;
    while k < steps
        invariant
            k <= steps,
            steps == least(signs.len() as int, terms.len() as int),
            chain(first as int, terms@, signs@, backwards, k as int) == Some(acc as int),
        decreases steps - k,
    {
        let sign = if backwards {
            signs[signs.len() - 1 - k]
        } else {
            signs[k]
        };
        let next = match terms[k] {
            Some(n) => if sign == 0x2b {
                acc.checked_add(n)
            } else if sign == 0x2d {
                acc.checked_sub(n)
            } else {
                None
            },
            None => None,
        };
        match next {
            Some(v) => {
                acc = v;
            },
            None => {
                proof {
                    lemma_chain_fails(first as int, terms@, signs@, backwards, k + 1, steps as int);
                }
                return None;
            },
        }
        k += 1;
    }
    Some(acc)
}

/// The numbers from the second on, as the terms of a chain.
pub open spec fn singles(numbers: Seq<i64>) -> Seq<Option<i64>> {
    Seq::new((numbers.len() - 1) as nat, |i: int| Some(numbers[i + 1]))
}

/// The first number with the following numbers added or taken off, each as
/// its sign says; signs or numbers that have no partner are left out. The
/// signs are read forwards, or backwards from the last one. `None` where
/// there is no number, where a sign is neither `+` nor `-`, and where a sum
/// does not fit 64 bits.
pub fn apply_signs(numbers: &[i64], signs: &[u8], backwards: bool) -> (r: Option<i64>)
    ensures
        r == if numbers.len() == 0 {
            None
        } else {
            match whole_chain(numbers[0] as int, singles(numbers@), signs@, backwards) {
                Some(v) => Some(v as i64),
                None => None,
            }
        },
{
    if numbers.len() == 0 {
        return None;
    }
    let mut terms: Vec<Option<i64>> = Vec::new();
    let mut i: usize = 1;
    while i < numbers.len()
        invariant
            1 <= i <= numbers.len(),
            terms@ == Seq::new((i - 1) as nat, |k: int| Some(numbers[k + 1])),
        decreases numbers.len() - i,
    {
        terms.push(Some(numbers[i]));
        assert(terms@ =~= Seq::new(i as nat, |k: int| Some(numbers[k + 1])));
        i += 1;
    }
    run_chain(numbers[0], &terms, signs, backwards)
}

/// The number that the `i`-th pair of numbers writes, ten times its first
/// and its second, if the pair is whole and that fits 64 bits.
pub open spec fn pair_spec(numbers: Seq<i64>, i: int) -> Option<i64> {
    if 2 * i + 1 < numbers.len() && fits(numbers[2 * i] * 10 + numbers[2 * i + 1]) {
        Some((numbers[2 * i] * 10 + numbers[2 * i + 1]) as i64)
    } else {
        None
    }
}

/// The pairs of numbers from the second pair on, as the terms of a chain; a
/// last number without a partner counts as a pair that is not whole.
pub open spec fn pairs(numbers: Seq<i64>) -> Seq<Option<i64>> {
    Seq::new(((numbers.len() + 1) / 2 - 1) as nat, |i: int| pair_spec(numbers, i + 1))
}

/// The number that the `i`-th pair writes.
fn pair_at(numbers: &[i64], i: usize) -> (r: Option<i64>)
    requires
        i <= numbers.len(),
    ensures
        r == pair_spec(numbers@, i as int),
{
    if i >= numbers.len() / 2 {
        return None;
    }
    let wide: i128 = (numbers[2 * i] as i128) * 10 + numbers[2 * i + 1] as i128;
    if wide < i64::MIN as i128 || wide > i64::MAX as i128 {
        None
    } else {
        Some(wide as i64)
    }
}

/// The same with pairs of numbers: each two numbers in a row write one, ten
/// times the first and the second, and the signs are read backwards. `None`
/// also where a pair that is needed is not whole or does not fit 64 bits.
pub fn apply_signs_paired(numbers: &[i64], signs: &[u8]) -> (r: Option<i64>)
    ensures
        r == match pair_spec(numbers@, 0) {
            Some(first) => match whole_chain(first as int, pairs(numbers@), signs@, true) {
                Some(v) => Some(v as i64),
                None => None,
            },
            None => None,
        },
{
    let first = match pair_at(numbers, 0) {
        Some(v) => v,
        None => { return None; },
    };
    let chunks: usize = (numbers.len() - 1) / 2 + 1;
    let mut terms: Vec<Option<i64>> = Vec::new();
    let mut i: usize = 1;
    while i < chunks
        invariant
            1 <= i <= chunks,
            chunks == (numbers.len() + 1) / 2,
            terms@ == Seq::new((i - 1) as nat, |k: int| pair_spec(numbers@, k + 1)),
        decreases chunks - i,
    {
        terms.push(pair_at(numbers, i));
        assert(terms@ =~= Seq::new(i as nat, |k: int| pair_spec(numbers@, k + 1)));
        i += 1;
    }
    run_chain(first, &terms, signs, true)
}

/// What a text writes: its last line is a row of signs, and each line
/// before it a number.
pub open spec fn parse_spec(input: Seq<u8>) -> Option<(Seq<i64>, Seq<u8>)> {
    let rows = lines_spec(input);
    if rows.len() == 0 {
        None
    } else if forall|i: int|
        0 <= i < rows.len() - 1 ==> parse_signed_spec(#[trigger] rows[i], i64::MIN as int, i64::MAX as int) is Some {
        Some(
            (
                Seq::new(
                    (rows.len() - 1) as nat,
                    |i: int| parse_signed_spec(rows[i], i64::MIN as int, i64::MAX as int)->Some_0 as i64,
                ),
                rows.last(),
            ),
        )
    } else {
        None
    }
}

/// Reads the numbers and the row of signs of a text.
pub fn parse<'a>(input: &'a str) -> (r: Option<(Vec<i64>, &'a [u8])>)
    ensures
        match r {
            Some((numbers, signs)) => parse_spec(input.spec_bytes()) == Some((numbers@, signs@)),
            None => parse_spec(input.spec_bytes()) is None,
        },
{
    let rows = lines(input.as_bytes());
    let ghost spec_rows = lines_spec(input.spec_bytes());
    if rows.len() == 0 {
        return None;
    }
    let mut numbers: Vec<i64> = Vec::new();
    let mut i: usize = 0;
    while i < rows.len() - 1
        invariant
            rows.len() > 0,
            i <= rows.len() - 1,
            spec_rows == lines_spec(input.spec_bytes()),
            rows.len() == spec_rows.len(),
            forall|k: int| 0 <= k < rows.len() ==> (#[trigger] rows[k])@ == spec_rows[k],
            numbers.len() == i,
            forall|k: int|
                0 <= k < i ==> parse_signed_spec(#[trigger] spec_rows[k], i64::MIN as int, i64::MAX as int) == Some(
                    numbers[k] as int,
                ),
        decreases rows.len() - i,
    {
        match parse_signed(rows[i], i64::MIN, i64::MAX) {
            Some(n) => {
                numbers.push(n);
            },
            None => {
                assert(parse_signed_spec(spec_rows[i as int], i64::MIN as int, i64::MAX as int) is None);
                return None;
            },
        }
        i += 1;
    }
    assert(numbers@ =~= Seq::new(
        (spec_rows.len() - 1) as nat,
        |k: int| parse_signed_spec(spec_rows[k], i64::MIN as int, i64::MAX as int)->Some_0 as i64,
    ));
    Some((numbers, rows[rows.len() - 1]))
}

} // verus!
