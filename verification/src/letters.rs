//! The worth of letters.

use vstd::prelude::*;

verus! {

/// The worth of a byte: a small letter its place in the alphabet, a capital
/// letter 26 more than that, anything else nothing.
pub open spec fn value_spec(b: u8) -> nat {
    if 0x61 <= b <= 0x7a {
        (b - 0x61 + 1) as nat
    } else if 0x41 <= b <= 0x5a {
        (b - 0x41 + 27) as nat
    } else {
        0
    }
}

/// The worth of a byte.
pub fn value(b: u8) -> (r: u64)
    ensures
        r == value_spec(b),
{
    if 0x61 <= b && b <= 0x7a {
        (b - 0x61 + 1) as u64
    } else if 0x41 <= b && b <= 0x5a {
        (b - 0x41 + 27) as u64
    } else {
        0
    }
}

/// Whether a byte is a letter.
pub open spec fn is_letter(b: u8) -> bool {
    (0x41 <= b <= 0x5a) || (0x61 <= b <= 0x7a)
}

/// The number of letters among the first `n` bytes of a text.
pub open spec fn letters_upto(text: Seq<u8>, n: int) -> nat
    decreases n,
{
    if n <= 0 {
        0
    } else {
        letters_upto(text, n - 1) + if is_letter(text[n - 1]) {
            1nat
        } else {
            0nat
        }
    }
}

/// The number of letters of a text.
pub fn count_letters(text: &[u8]) -> (r: usize)
    ensures
        r == letters_upto(text@, text.len() as int),
{
    let mut count: usize = 0;
    let mut i: usize = 0;
    while i < text.len()
        invariant
            i <= text.len(),
            count <= i,
            count == letters_upto(text@, i as int),
        decreases text.len() - i,
    {
        let b = text[i];
        if (0x41 <= b && b <= 0x5a) || (0x61 <= b && b <= 0x7a) {
            count += 1;
        }
        i += 1;
    }
    count
}

/// The worth of the first `n` bytes of a text, together.
pub open spec fn worth_upto(text: Seq<u8>, n: int) -> nat
    decreases n,
{
    if n <= 0 {
        0
    } else {
        worth_upto(text, n - 1) + value_spec(text[n - 1])
    }
}

/// The worth of more of a text is no less.
proof fn lemma_worth_grows(text: Seq<u8>, k: int, n: int)
    requires
        0 <= k <= n,
    ensures
        worth_upto(text, k) <= worth_upto(text, n),
    decreases n - k,
{
    if k < n {
        lemma_worth_grows(text, k, n - 1);
    }
}

/// The worth of a text: that of its bytes together; `None` where it does
/// not fit 64 bits.
pub fn worth(text: &[u8]) -> (r: Option<u64>)
    ensures
        r == if worth_upto(text@, text.len() as int) <= u64::MAX {
            Some(worth_upto(text@, text.len() as int) as u64)
        } else {
            None
        },
{
    let mut sum: u64 = 0;
    let mut i: usize = 0;
    while i < text.len()
        invariant
            i <= text.len(),
            sum == worth_upto(text@, i as int),
        decreases text.len() - i,
    {
        sum = match sum.checked_add(value(text[i])) {
            Some(v) => v,
            None => {
                proof {
                    lemma_worth_grows(text@, i + 1, text.len() as int);
                }
                return None;
            },
        };
        i += 1;
    }
    Some(sum)
}

/// The worth that a byte mends to after a byte of the given worth: a letter
/// has its own worth; any other byte twice the worth before it less five,
/// brought into `1..=52`.
pub open spec fn mended(before: nat, b: u8) -> nat {
    if is_letter(b) {
        value_spec(b)
    } else {
        ((2 * before - 5 - 1) % 52 + 1) as nat
    }
}

/// The worth that the `n`-th byte of a text mends to; before the first byte
/// it is nothing.
pub open spec fn mended_at(text: Seq<u8>, n: int) -> nat
    decreases n,
{
    if n <= 0 {
        0
    } else {
        mended(mended_at(text, n - 1), text[n - 1])
    }
}

/// The worths that the first `n` bytes of a text mend to, together.
pub open spec fn mended_upto(text: Seq<u8>, n: int) -> nat
    decreases n,
{
    if n <= 0 {
        0
    } else {
        mended_upto(text, n - 1) + mended_at(text, n)
    }
}

/// The mended worth of more of a text is no less.
proof fn lemma_mended_grows(text: Seq<u8>, k: int, n: int)
    requires
        0 <= k <= n,
    ensures
        mended_upto(text, k) <= mended_upto(text, n),
    decreases n - k,
{
    if k < n {
        lemma_mended_grows(text, k, n - 1);
    }
}

/// A mended worth is at most 52.
proof fn lemma_mended_small(text: Seq<u8>, n: int)
    ensures
        mended_at(text, n) <= 52,
    decreases n,
{
    if n > 0 {
        lemma_mended_small(text, n - 1);
    }
}

/// The worth of a text in which every byte that is no letter is mended from
/// the byte before it; `None` where it does not fit 64 bits.
pub fn mended_worth(text: &[u8]) -> (r: Option<u64>)
    ensures
        r == if mended_upto(text@, text.len() as int) <= u64::MAX {
            Some(mended_upto(text@, text.len() as int) as u64)
        } else {
            None
        },
{
    let mut sum: u64 = 0;
    let mut prev: u64 = 0;
    let mut i: usize = 0;
    while i < text.len()
        invariant
            i <= text.len(),
            prev == mended_at(text@, i as int),
            prev <= 52,
            sum == mended_upto(text@, i as int),
        decreases text.len() - i,
    {
        let b = text[i];
        proof {
            lemma_mended_small(text@, i + 1);
        }
        if (0x41 <= b && b <= 0x5a) || (0x61 <= b && b <= 0x7a) {
            prev = value(b);
        } else {
            let a: i64 = 2 * (prev as i64) - 5;
            let low: i64 = (a - 1) % 52;
            let wrapped: i64 = if low < 0 {
                low + 52
            } else {
                low
            };
            assert(wrapped == (2 * prev - 5 - 1) % 52) by {
                let x: int = 2 * prev - 6;
                assert(-6 <= x <= 98);
                if x < 0 {
                    assert(low == x);
                    assert(x % 52 == x + 52) by {
                        vstd::arithmetic::div_mod::lemma_fundamental_div_mod_converse(x, 52, -1, x + 52);
                    }
                }
            }
            prev = (wrapped + 1) as u64;
        }
        sum = match sum.checked_add(prev) {
            Some(v) => v,
            None => {
                proof {
                    lemma_mended_grows(text@, i + 1, text.len() as int);
                }
                return None;
            },
        };
        i += 1;
    }
    Some(sum)
}

} // verus!
