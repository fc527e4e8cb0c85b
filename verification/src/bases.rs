//! Numbers written in bases up to 68.

use vstd::prelude::*;
use vstd::string::StringSliceAdditionalSpecFns;
use crate::text::{as_chars, lines, lines_spec, parse_unsigned, parse_unsigned_spec, split_once, split_once_spec};

verus! {

/// Whether a byte is a digit or a letter, the symbols that `value` reads.
pub open spec fn is_alnum(c: u8) -> bool {
    (0x30 <= c <= 0x39) || (0x41 <= c <= 0x5a) || (0x61 <= c <= 0x7a)
}

/// What a symbol stands for: a digit its value, a capital letter from 10, a
/// small letter from 36.
pub open spec fn value_spec(c: u8) -> nat {
    if 0x30 <= c <= 0x39 {
        (c - 0x30) as nat
    } else if 0x41 <= c <= 0x5a {
        (c - 0x41 + 10) as nat
    } else {
        (c - 0x61 + 36) as nat
    }
}

/// What a digit or letter stands for.
pub fn value(c: u8) -> (r: u64)
    requires
        is_alnum(c),
    ensures
        r == value_spec(c),
        r < 62,
{
    if 0x30 <= c && c <= 0x39 {
        (c - 0x30) as u64
    } else if 0x41 <= c && c <= 0x5a {
        (c - 0x41 + 10) as u64
    } else {
        (c - 0x61 + 36) as u64
    }
}

/// The symbol of a digit below 68: the digits, the capital letters, the
/// small letters, then `!@#$%^`.
pub open spec fn char_spec(c: u8) -> u8 {
    if c <= 9 {
        (c + 0x30) as u8
    } else if c <= 35 {
        (c - 10 + 0x41) as u8
    } else if c <= 61 {
        (c - 36 + 0x61) as u8
    } else if c == 62 {
        0x21
    } else if c == 63 {
        0x40
    } else if c == 64 {
        0x23
    } else if c == 65 {
        0x24
    } else if c == 66 {
        0x25
    } else {
        0x5e
    }
}

/// The symbol of a digit below 68.
pub fn char(c: u8) -> (r: u8)
    requires
        c <= 67,
    ensures
        r == char_spec(c),
        r < 0x80,
{
    if c <= 9 {
        c + 0x30
    } else if c <= 35 {
        c - 10 + 0x41
    } else if c <= 61 {
        c - 36 + 0x61
    } else if c == 62 {
        0x21
    } else if c == 63 {
        0x40
    } else if c == 64 {
        0x23
    } else if c == 65 {
        0x24
    } else if c == 66 {
        0x25
    } else {
        0x5e
    }
}

/// The symbol of a digit below 62 stands for that digit.
pub proof fn lemma_symbol_reads_back(d: u8)
    requires
        d < 62,
    ensures
        is_alnum(char_spec(d)),
        value_spec(char_spec(d)) == d,
{
}

/// Whether every byte is a digit or a letter.
pub open spec fn all_alnum(s: Seq<u8>) -> bool {
    forall|i: int| 0 <= i < s.len() ==> is_alnum(#[trigger] s[i])
}

/// The number that symbols write in a base, the first symbol counting most.
pub open spec fn number_in_base(symbols: Seq<u8>, base: nat) -> nat
    decreases symbols.len(),
{
    if symbols.len() == 0 {
        0
    } else {
        number_in_base(symbols.drop_last(), base) * base + value_spec(symbols.last())
    }
}

/// What a line of the form `symbols base` writes, if it is of that form and
/// the number fits 64 bits: the symbols, digits and letters only, read in
/// the decimal base that follows the first blank.
pub open spec fn parse_line_spec(line: Seq<u8>) -> Option<nat> {
    match split_once_spec(line, seq![0x20u8]) {
        Some((symbols, base)) => match parse_unsigned_spec(base, u64::MAX as nat) {
            Some(b) => if all_alnum(symbols) && number_in_base(symbols, b) <= u64::MAX {
                Some(number_in_base(symbols, b))
            } else {
                None
            },
            None => None,
        },
        None => None,
    }
}

/// With a base of one or more, a longer text writes no smaller a number than
/// its beginning.
proof fn lemma_number_grows(symbols: Seq<u8>, base: nat, k: int)
    requires
        base >= 1,
        0 <= k <= symbols.len(),
    ensures
        number_in_base(symbols.take(k), base) <= number_in_base(symbols, base),
    decreases symbols.len() - k,
{
    if k < symbols.len() {
        lemma_number_grows(symbols, base, k + 1);
        assert(symbols.take(k + 1).drop_last() =~= symbols.take(k));
        let a = number_in_base(symbols.take(k), base);
        assert(a <= a * base) by (nonlinear_arith)
            requires
                base >= 1,
                a >= 0,
        ;
    } else {
        assert(symbols.take(k) =~= symbols);
    }
}

/// Reads a line of the form `symbols base`.
pub fn parse_line(line: &str) -> (r: Option<u64>)
    ensures
        match r {
            Some(n) => parse_line_spec(line.spec_bytes()) == Some(n as nat),
            None => parse_line_spec(line.spec_bytes()) is None,
        },
{
    number_of(line.as_bytes())
}

/// Reads the bytes of a line of the form `symbols base`.
pub fn number_of(line: &[u8]) -> (r: Option<u64>)
    ensures
        match r {
            Some(n) => parse_line_spec(line@) == Some(n as nat),
            None => parse_line_spec(line@) is None,
        },
{
    let blank: [u8; 1] = [0x20];
    assert(blank@ =~= seq![0x20u8]);
    let (symbols, base_text) = match split_once(line, blank.as_slice()) {
        Some(parts) => parts,
        None => { return None; },
    };
    let base: u64 = match parse_unsigned(base_text, u64::MAX) {
        Some(b) => b,
        None => { return None; },
    };
    let mut acc: u64 = 0;
    let mut i: usize = 0;
    while i < symbols.len()
        invariant
            i <= symbols.len(),
            all_alnum(symbols@.take(i as int)),
            acc == number_in_base(symbols@.take(i as int), base as nat),
            parse_line_spec(line@) == if all_alnum(symbols@) && number_in_base(
                symbols@,
                base as nat,
            ) <= u64::MAX {
                Some(number_in_base(symbols@, base as nat))
            } else {
                None
            },
        decreases symbols.len() - i,
    {
        let c = symbols[i];
        let known = (0x30 <= c && c <= 0x39) || (0x41 <= c && c <= 0x5a) || (0x61 <= c && c <= 0x7a);
        if !known {
            assert(!is_alnum(symbols@[i as int]));
            return None;
        }
        let v = value(c);
        proof {
            assert(symbols@.take(i + 1).drop_last() =~= symbols@.take(i as int));
            assert(symbols@.take(i + 1).last() == c);
            assert forall|j: int| 0 <= j < i + 1 implies is_alnum(#[trigger] symbols@.take(i + 1)[j]) by {
                if j < i {
                    assert(symbols@.take(i as int)[j] == symbols@[j]);
                }
            }
            if base >= 1 {
                lemma_number_grows(symbols@, base as nat, i + 1);
            }
        }
        let next: Option<u64> = match acc.checked_mul(base) {
            Some(scaled) => scaled.checked_add(v),
            None => None,
        };
        match next {
            Some(n) => {
                acc = n;
            },
            None => {
                proof {
                    if base == 0 {
                        assert(acc * base == 0) by (nonlinear_arith)
                            requires
                                base == 0,
                        ;
                    }
                }
                return None;
            },
        }
        i += 1;
    }
    assert(symbols@.take(symbols.len() as int) =~= symbols@);
    Some(acc)
}

/// The symbols of a number in base 68, the first counting most; zero has
/// none.
pub open spec fn base68(n: nat) -> Seq<u8>
    decreases n,
{
    if n == 0 {
        Seq::empty()
    } else {
        base68(n / 68).push(char_spec((n % 68) as u8))
    }
}

/// Appends the symbols of a number in base 68.
fn unparse_into(n: u64, out: &mut String)
    ensures
        final(out)@ == old(out)@ + as_chars(base68(n as nat)),
    decreases n,
{
    if n > 0 {
        unparse_into(n / 68, out);
        let symbol = char((n % 68) as u8);
        out.push(symbol as char);
        assert(as_chars(base68(n as nat)) =~= as_chars(base68((n / 68) as nat)).push(symbol as char));
    } else {
        assert(as_chars(base68(0)) =~= Seq::<char>::empty());
    }
}

/// A number in base 68; zero is the empty text.
pub fn unparse(n: u64) -> (r: String)
    ensures
        r@ == as_chars(base68(n as nat)),
{
    let mut out = String::new();
    unparse_into(n, &mut out);
    out
}

/// The sum and the greatest of the numbers that the first `n` lines write,
/// if each writes one and the sum fits 64 bits.
pub open spec fn tally_upto(rows: Seq<Seq<u8>>, n: int) -> Option<(nat, nat)>
    decreases n,
{
    if n <= 0 {
        Some((0nat, 0nat))
    } else {
        match (tally_upto(rows, n - 1), parse_line_spec(rows[n - 1])) {
            (Some((sum, most)), Some(v)) => if sum + v <= u64::MAX {
                Some((sum + v, if v > most {
                    v
                } else {
                    most
                }))
            } else {
                None
            },
            _ => None,
        }
    }
}

/// Once a line fails, there is no tally.
proof fn lemma_tally_fails(rows: Seq<Seq<u8>>, k: int, n: int)
    requires
        0 <= k <= n,
        tally_upto(rows, k) is None,
    ensures
        tally_upto(rows, n) is None,
    decreases n - k,
{
    if k < n {
        lemma_tally_fails(rows, k, n - 1);
    }
}

/// The sum and the greatest of the numbers that the lines of a text write;
/// `None` where there is no line, where a line writes no number, and where
/// the sum does not fit 64 bits.
pub fn tally(input: &str) -> (r: Option<(u64, u64)>)
    ensures
        r == if lines_spec(input.spec_bytes()).len() == 0 {
            None
        } else {
            match tally_upto(lines_spec(input.spec_bytes()), lines_spec(input.spec_bytes()).len() as int) {
                Some((sum, most)) => Some((sum as u64, most as u64)),
                None => None,
            }
        },
{
    let rows = lines(input.as_bytes());
    let ghost spec_rows = lines_spec(input.spec_bytes());
    if rows.len() == 0 {
        return None;
    }
    let mut sum: u64 = 0;
    let mut most: u64 = 0;
    let mut i: usize = 0;
    while i < rows.len()
        invariant
            i <= rows.len(),
            spec_rows == lines_spec(input.spec_bytes()),
            rows.len() == spec_rows.len(),
            forall|k: int| 0 <= k < rows.len() ==> (#[trigger] rows[k])@ == spec_rows[k],
            tally_upto(spec_rows, i as int) == Some((sum as nat, most as nat)),
        decreases rows.len() - i,
    {
        let next = match number_of(rows[i]) {
            Some(v) => match sum.checked_add(v) {
                Some(total) => Some((total, v)),
                None => None,
            },
            None => None,
        };
        match next {
            Some((total, v)) => {
                sum = total;
                if v > most {
                    most = v;
                }
            },
            None => {
                proof {
                    lemma_tally_fails(spec_rows, i + 1, spec_rows.len() as int);
                }
                return None;
            },
        }
        i += 1;
    }
    Some((sum, most))
}

} // verus!
