//! The price of a ware by its quality.

use vstd::prelude::*;
use vstd::string::StringSliceAdditionalSpecFns;
use crate::text::{lines, lines_spec, parse_unsigned, parse_unsigned_spec, split_once, split_once_spec};

verus! {

/// The price of a ware of the given quality: 69 times the cube of the
/// quality, and 510.
pub open spec fn price_spec(quality: nat) -> nat {
    quality * quality * quality * 69 + 510
}

/// The price of a ware of the given quality, where it fits 64 bits.
pub fn price(quality: u64) -> (r: u64)
    requires
        price_spec(quality as nat) <= u64::MAX,
    ensures
        r == price_spec(quality as nat),
{
    assert(quality * quality <= quality * quality * quality * 69 && quality * quality * quality
        <= quality * quality * quality * 69) by (nonlinear_arith);
    quality * quality * quality * 69 + 510
}

/// The price of a ware of the given quality, or `None` where it does not
/// fit 64 bits.
pub fn checked_price(quality: u64) -> (r: Option<u64>)
    ensures
        r == if price_spec(quality as nat) <= u64::MAX {
            Some(price_spec(quality as nat) as u64)
        } else {
            None
        },
{
    if quality > 2_642_245 {
        assert(price_spec(quality as nat) > u64::MAX) by (nonlinear_arith)
            requires
                quality > 2_642_245,
                price_spec(quality as nat) == quality * quality * quality * 69 + 510,
        ;
        return None;
    }
    assert(quality * quality * quality <= 2_642_245 * 2_642_245 * 2_642_245 && quality * quality <= 2_642_245
        * 2_642_245) by (nonlinear_arith)
        requires
            0 <= quality <= 2_642_245,
    ;
    let cube: u128 = (quality as u128) * (quality as u128) * (quality as u128);
    let wide: u128 = cube * 69 + 510;
    if wide > u64::MAX as u128 {
        None
    } else {
        Some(wide as u64)
    }
}

/// The qualities that a text writes: one to a line, after the first empty
/// line.
pub open spec fn parse_spec(input: Seq<u8>) -> Option<Seq<u64>> {
    match split_once_spec(input, seq![0x0au8, 0x0au8]) {
        Some((head, tail)) => {
            let rows = lines_spec(tail);
            if forall|i: int| 0 <= i < rows.len() ==> parse_unsigned_spec(#[trigger] rows[i], u64::MAX as nat) is Some {
                Some(Seq::new(rows.len(), |i: int| parse_unsigned_spec(rows[i], u64::MAX as nat)->Some_0 as u64))
            } else {
                None
            }
        },
        None => None,
    }
}

/// Reads the qualities of a text.
pub fn parse(input: &str) -> (r: Option<Vec<u64>>)
    ensures
        match r {
            Some(numbers) => parse_spec(input.spec_bytes()) == Some(numbers@),
            None => parse_spec(input.spec_bytes()) is None,
        },
{
    let gap: [u8; 2] = [0x0a, 0x0a];
    assert(gap@ =~= seq![0x0au8, 0x0au8]);
    let tail = match split_once(input.as_bytes(), gap.as_slice()) {
        Some((head, tail)) => tail,
        None => { return None; },
    };
    let rows = lines(tail);
    let ghost spec_rows = lines_spec(tail@);
    let mut numbers: Vec<u64> = Vec::new();
    let mut i: usize = 0;
    while i < rows.len()
        invariant
            i <= rows.len(),
            spec_rows == lines_spec(tail@),
            split_once_spec(input.spec_bytes(), seq![0x0au8, 0x0au8]) is Some,
            split_once_spec(input.spec_bytes(), seq![0x0au8, 0x0au8])->Some_0.1 == tail@,
            rows.len() == spec_rows.len(),
            forall|k: int| 0 <= k < rows.len() ==> (#[trigger] rows[k])@ == spec_rows[k],
            numbers.len() == i,
            forall|k: int|
                0 <= k < i ==> parse_unsigned_spec(#[trigger] spec_rows[k], u64::MAX as nat) == Some(numbers[k] as nat),
        decreases rows.len() - i,
    {
        match parse_unsigned(rows[i], u64::MAX) {
            Some(n) => {
                numbers.push(n);
            },
            None => {
                assert(parse_unsigned_spec(spec_rows[i as int], u64::MAX as nat) is None);
                return None;
            },
        }
        i += 1;
    }
    assert(numbers@ =~= Seq::new(
        spec_rows.len(),
        |k: int| parse_unsigned_spec(spec_rows[k], u64::MAX as nat)->Some_0 as u64,
    ));
    Some(numbers)
}

/// The price of the ware in the middle of the row.
pub fn middle_price(numbers: &[u64]) -> (r: Option<u64>)
    ensures
        r == if numbers.len() > 0 && price_spec(numbers[numbers.len() as int / 2] as nat) <= u64::MAX {
            Some(price_spec(numbers[numbers.len() as int / 2] as nat) as u64)
        } else {
            None
        },
{
    if numbers.len() == 0 {
        return None;
    }
    checked_price(numbers[numbers.len() / 2])
}

/// The even ones among the first `n` qualities, together.
pub open spec fn even_sum(numbers: Seq<u64>, n: int) -> nat
    decreases n,
{
    if n <= 0 {
        0
    } else {
        even_sum(numbers, n - 1) + if numbers[n - 1] % 2 == 0 {
            numbers[n - 1] as nat
        } else {
            0
        }
    }
}

/// A sum of more numbers is no less.
proof fn lemma_even_sum_grows(numbers: Seq<u64>, k: int, n: int)
    requires
        0 <= k <= n,
    ensures
        even_sum(numbers, k) <= even_sum(numbers, n),
    decreases n - k,
{
    if k < n {
        lemma_even_sum_grows(numbers, k, n - 1);
    }
}

/// The price of a ware whose quality is that of all wares of even quality
/// together; `None` where the sum or the price does not fit 64 bits.
pub fn even_price(numbers: &[u64]) -> (r: Option<u64>)
    ensures
        r == if even_sum(numbers@, numbers.len() as int) <= u64::MAX && price_spec(
            even_sum(numbers@, numbers.len() as int),
        ) <= u64::MAX {
            Some(price_spec(even_sum(numbers@, numbers.len() as int)) as u64)
        } else {
            None
        },
{
    let mut sum: u64 = 0;
    let mut i: usize = 0;
    while i < numbers.len()
        invariant
            i <= numbers.len(),
            sum == even_sum(numbers@, i as int),
        decreases numbers.len() - i,
    {
        if numbers[i] % 2 == 0 {
            sum = match sum.checked_add(numbers[i]) {
                Some(v) => v,
                None => {
                    proof {
                        lemma_even_sum_grows(numbers@, i + 1, numbers.len() as int);
                    }
                    return None;
                },
            };
        }
        i += 1;
    }
    checked_price(sum)
}

/// Whether a ware of the given quality costs less than the limit.
pub open spec fn affordable(quality: u64, limit: u64) -> bool {
    price_spec(quality as nat) < limit
}

/// The greatest among the first `n` qualities whose ware costs less than
/// the limit.
pub open spec fn best_upto(numbers: Seq<u64>, limit: u64, n: int) -> Option<u64>
    decreases n,
{
    if n <= 0 {
        None
    } else {
        let before = best_upto(numbers, limit, n - 1);
        let q = numbers[n - 1];
        if affordable(q, limit) && (before is None || q >= before->Some_0) {
            Some(q)
        } else {
            before
        }
    }
}

/// The greatest quality whose ware costs less than the limit; `None` where
/// there is none.
pub fn best_affordable(numbers: &[u64], limit: u64) -> (r: Option<u64>)
    ensures
        r == best_upto(numbers@, limit, numbers.len() as int),
{
    let mut best: Option<u64> = None;
    let mut i: usize = 0;
    while i < numbers.len()
        invariant
            i <= numbers.len(),
            best == best_upto(numbers@, limit, i as int),
        decreases numbers.len() - i,
    {
        let q = numbers[i];
        let cheap = match checked_price(q) {
            Some(p) => p < limit,
            None => false,
        };
        let better = match best {
            Some(b) => q >= b,
            None => true,
        };
        if cheap && better {
            best = Some(q);
        }
        i += 1;
    }
    best
}

} // verus!
