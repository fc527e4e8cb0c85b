//! The memory that a text takes, and its run-length encoding.

use vstd::prelude::*;
use vstd::string::StringSliceAdditionalSpecFns;
use crate::text::{as_chars, decimal, lines, lines_spec, push_bytes, to_decimal};

verus! {

/// The units of memory that one byte of text takes: a capital letter its
/// place in the alphabet, a digit its value, anything else nothing.
pub open spec fn memory_spec(c: u8) -> nat {
    if 0x41 <= c <= 0x5a {
        (c - 0x41 + 1) as nat
    } else if 0x30 <= c <= 0x39 {
        (c - 0x30) as nat
    } else {
        0
    }
}

/// The units of memory that one byte of text takes.
pub fn memory(c: u8) -> (r: usize)
    ensures
        r == memory_spec(c),
{
    if 0x41 <= c && c <= 0x5a {
        (c - 0x41 + 1) as usize
    } else if 0x30 <= c && c <= 0x39 {
        (c - 0x30) as usize
    } else {
        0
    }
}

/// The maximal runs of equal bytes in a text, each with its length.
pub open spec fn runs(s: Seq<u8>) -> Seq<(u8, nat)>
    decreases s.len(),
{
    if s.len() == 0 {
        Seq::empty()
    } else {
        let before = runs(s.drop_last());
        if before.len() > 0 && before.last().0 == s.last() {
            before.update(before.len() - 1, (s.last(), before.last().1 + 1))
        } else {
            before.push((s.last(), 1nat))
        }
    }
}

/// One run as text: its length in decimal, then its byte as a character.
pub open spec fn encode_run(run: (u8, nat)) -> Seq<char> {
    as_chars(decimal(run.1)).push(run.0 as char)
}

/// Runs as text, one after the other.
pub open spec fn encode_runs(rs: Seq<(u8, nat)>) -> Seq<char>
    decreases rs.len(),
{
    if rs.len() == 0 {
        Seq::empty()
    } else {
        encode_runs(rs.drop_last()) + encode_run(rs.last())
    }
}

/// The run-length encoding of a text: its runs as text. A text that begins
/// with any byte but zero is encoded with a leading character zero, which
/// takes no memory.
pub open spec fn rle_spec(s: Seq<u8>) -> Seq<char> {
    if s.len() > 0 && s[0] != 0 {
        seq!['\0'] + encode_runs(runs(s))
    } else {
        encode_runs(runs(s))
    }
}

/// The characters of the run-length encoding of a text.
pub fn rle_chars(bytes: &[u8]) -> (result: Vec<char>)
    ensures
        result@ == rle_spec(bytes@),
{
    let mut result: Vec<char> = Vec::new();
    let mut n: usize = 0;
    let mut last: u8 = 0;
    let ghost mut closed: Seq<(u8, nat)> = Seq::empty();
    let ghost lead: Seq<char> = if bytes.len() > 0 && bytes[0] != 0 {
        seq!['\0']
    } else {
        Seq::empty()
    };
    let mut i: usize = 0;
    while i < bytes.len()
        invariant
            i <= bytes.len(),
            n <= i,
            i == 0 ==> n == 0 && last == 0 && result@ == Seq::<char>::empty() && closed == Seq::<(u8, nat)>::empty(),
            i > 0 ==> n > 0 && runs(bytes@.take(i as int)) == closed.push((last, n as nat)) && result@ == lead
                + encode_runs(closed),
            lead == if bytes.len() > 0 && bytes[0] != 0 {
                seq!['\0']
            } else {
                Seq::<char>::empty()
            },
        decreases bytes.len() - i,
    {
        let c = bytes[i];
        proof {
            assert(bytes@.take(i + 1).drop_last() =~= bytes@.take(i as int));
            assert(bytes@.take(i + 1).last() == c);
            if i == 0 {
                assert(runs(bytes@.take(0)) =~= Seq::<(u8, nat)>::empty());
            }
        }
        if c == last {
            n += 1;
            proof {
                if i > 0 {
                    assert(closed.push((last, (n - 1) as nat)).update(closed.len() as int, (last, n as nat))
                        =~= closed.push((last, n as nat)));
                } else {
                    assert(Seq::<(u8, nat)>::empty().push((c, 1nat)) =~= closed.push((last, n as nat)));
                    assert(encode_runs(closed) =~= Seq::<char>::empty());
                    assert(lead + encode_runs(closed) =~= Seq::<char>::empty());
                }
            }
        } else {
            if n > 0 {
                let digits = to_decimal(n as u64);
                push_chars(&mut result, digits.as_slice());
            }
            result.push(last as char);
            proof {
                if i > 0 {
                    let grown = closed.push((last, n as nat));
                    assert(grown.drop_last() =~= closed);
                    assert(result@ =~= lead + encode_runs(grown));
                    closed = grown;
                } else {
                    assert(encode_runs(closed) =~= Seq::<char>::empty());
                    assert(result@ =~= lead + encode_runs(closed));
                }
            }
            last = c;
            n = 1;
        }
        i += 1;
    }
    assert(bytes@.take(bytes.len() as int) =~= bytes@);
    if n > 0 {
        let digits = to_decimal(n as u64);
        push_chars(&mut result, digits.as_slice());
        result.push(last as char);
        proof {
            let grown = closed.push((last, n as nat));
            assert(grown.drop_last() =~= closed);
            assert(result@ =~= lead + encode_runs(grown));
        }
    } else {
        assert(runs(bytes@) =~= Seq::<(u8, nat)>::empty());
    }
    result
}

/// Appends the characters of the given bytes, each taken as the code point
/// of its value.
fn push_chars(out: &mut Vec<char>, bytes: &[u8])
    ensures
        final(out)@ == old(out)@ + as_chars(bytes@),
{
    let mut i: usize = 0;
    while i < bytes.len()
        invariant
            i <= bytes.len(),
            out@ == old(out)@ + as_chars(bytes@.take(i as int)),
        decreases bytes.len() - i,
    {
        out.push(bytes[i] as char);
        assert(as_chars(bytes@.take(i + 1)) =~= as_chars(bytes@.take(i as int)).push(bytes[i as int] as char));
        i += 1;
    }
    assert(bytes@.take(bytes.len() as int) =~= bytes@);
}

/// The run-length encoding of a text.
pub fn rle(s: &str) -> (r: String)
    ensures
        r@ == rle_spec(s.spec_bytes()),
{
    let chars = rle_chars(s.as_bytes());
    let mut out = String::new();
    let mut i: usize = 0;
    while i < chars.len()
        invariant
            i <= chars.len(),
            out@ == chars@.take(i as int),
        decreases chars.len() - i,
    {
        out.push(chars[i]);
        assert(chars@.take(i + 1) =~= chars@.take(i as int).push(chars[i as int]));
        i += 1;
    }
    assert(chars@.take(chars.len() as int) =~= chars@);
    out
}

/// The units of memory that one character takes: what its byte takes, and
/// nothing beyond the bytes.
pub open spec fn char_memory(c: char) -> nat {
    if (c as u32) < 256 {
        memory_spec(c as u8)
    } else {
        0
    }
}

/// The units of memory that the first `n` characters of a text take.
pub open spec fn chars_memory(text: Seq<char>, n: int) -> nat
    decreases n,
{
    if n <= 0 {
        0
    } else {
        chars_memory(text, n - 1) + char_memory(text[n - 1])
    }
}

/// The units of memory that the first `n` bytes of a text take.
pub open spec fn bytes_memory(text: Seq<u8>, n: int) -> nat
    decreases n,
{
    if n <= 0 {
        0
    } else {
        bytes_memory(text, n - 1) + memory_spec(text[n - 1])
    }
}

/// The memory of more of a text is no less.
proof fn lemma_bytes_memory_grows(text: Seq<u8>, k: int, n: int)
    requires
        0 <= k <= n,
    ensures
        bytes_memory(text, k) <= bytes_memory(text, n),
    decreases n - k,
{
    if k < n {
        lemma_bytes_memory_grows(text, k, n - 1);
    }
}

/// The memory of more of a text is no less.
proof fn lemma_chars_memory_grows(text: Seq<char>, k: int, n: int)
    requires
        0 <= k <= n,
    ensures
        chars_memory(text, k) <= chars_memory(text, n),
    decreases n - k,
{
    if k < n {
        lemma_chars_memory_grows(text, k, n - 1);
    }
}

/// The units of memory that a text takes; `None` where they are more than
/// can be counted.
pub fn memory_of(text: &[u8]) -> (r: Option<usize>)
    ensures
        r == if bytes_memory(text@, text.len() as int) <= usize::MAX {
            Some(bytes_memory(text@, text.len() as int) as usize)
        } else {
            None
        },
{
    let mut sum: usize = 0;
    let mut i: usize = 0;
    while i < text.len()
        invariant
            i <= text.len(),
            sum == bytes_memory(text@, i as int),
        decreases text.len() - i,
    {
        sum = match sum.checked_add(memory(text[i])) {
            Some(v) => v,
            None => {
                proof {
                    lemma_bytes_memory_grows(text@, i + 1, text.len() as int);
                }
                return None;
            },
        };
        i += 1;
    }
    Some(sum)
}

/// The units of memory that one character takes.
pub fn memory_of_char(c: char) -> (r: usize)
    ensures
        r == char_memory(c),
{
    let code = c as u32;
    if code < 256 {
        memory(code as u8)
    } else {
        0
    }
}

/// The units of memory that the run-length encoding of a text takes.
pub fn rle_memory(text: &[u8]) -> (r: Option<usize>)
    ensures
        r == if chars_memory(rle_spec(text@), rle_spec(text@).len() as int) <= usize::MAX {
            Some(chars_memory(rle_spec(text@), rle_spec(text@).len() as int) as usize)
        } else {
            None
        },
{
    let chars = rle_chars(text);
    let mut sum: usize = 0;
    let mut i: usize = 0;
    while i < chars.len()
        invariant
            i <= chars.len(),
            chars@ == rle_spec(text@),
            sum == chars_memory(chars@, i as int),
        decreases chars.len() - i,
    {
        sum = match sum.checked_add(memory_of_char(chars[i])) {
            Some(v) => v,
            None => {
                proof {
                    lemma_chars_memory_grows(chars@, i + 1, chars.len() as int);
                }
                return None;
            },
        };
        i += 1;
    }
    Some(sum)
}

/// A line with its middle replaced by the number of bytes left out: a
/// tenth of the line is kept at either end.
pub open spec fn shortened(line: Seq<u8>) -> Seq<u8> {
    let keep = line.len() / 10;
    line.take(keep as int) + decimal((line.len() - 2 * keep) as nat) + line.skip(line.len() - keep)
}

/// A line with its middle replaced by the number of bytes left out.
pub fn shorten(line: &[u8]) -> (r: Vec<u8>)
    ensures
        r@ == shortened(line@),
{
    let keep = line.len() / 10;
    let mut out: Vec<u8> = Vec::new();
    let mut i: usize = 0;
    while i < keep
        invariant
            i <= keep,
            keep == line.len() / 10,
            out@ == line@.take(i as int),
        decreases keep - i,
    {
        out.push(line[i]);
        assert(out@ =~= line@.take(i + 1));
        i += 1;
    }
    let digits = to_decimal((line.len() - 2 * keep) as u64);
    let mut k: usize = 0;
    while k < digits.len()
        invariant
            k <= digits.len(),
            out@ == line@.take(keep as int) + digits@.take(k as int),
        decreases digits.len() - k,
    {
        out.push(digits[k]);
        assert(out@ =~= line@.take(keep as int) + digits@.take(k + 1));
        k += 1;
    }
    assert(digits@.take(digits.len() as int) =~= digits@);
    let start = line.len() - keep;
    let mut j: usize = start;
    while j < line.len()
        invariant
            start <= j <= line.len(),
            start == line.len() - keep,
            out@ == line@.take(keep as int) + digits@ + line@.subrange(start as int, j as int),
        decreases line.len() - j,
    {
        out.push(line[j]);
        assert(out@ =~= line@.take(keep as int) + digits@ + line@.subrange(start as int, j + 1));
        j += 1;
    }
    assert(line@.subrange(start as int, line.len() as int) =~= line@.skip(start as int));
    out
}

/// How a line is counted.
#[derive(Clone, Copy, Debug, PartialEq, Eq, Structural)]
pub enum Form {
    /// Shortened in the middle.
    Shortened,
    /// Run-length encoded.
    Encoded,
}

/// The units of memory that a line takes in a form.
pub open spec fn line_memory(line: Seq<u8>, form: Form) -> nat {
    match form {
        Form::Shortened => bytes_memory(shortened(line), shortened(line).len() as int),
        Form::Encoded => chars_memory(rle_spec(line), rle_spec(line).len() as int),
    }
}

/// The units of memory that the first `n` lines take in a form.
pub open spec fn lines_memory(rows: Seq<Seq<u8>>, form: Form, n: int) -> nat
    decreases n,
{
    if n <= 0 {
        0
    } else {
        lines_memory(rows, form, n - 1) + line_memory(rows[n - 1], form)
    }
}

/// The memory of more lines is no less.
proof fn lemma_lines_memory_grows(rows: Seq<Seq<u8>>, form: Form, k: int, n: int)
    requires
        0 <= k <= n,
    ensures
        lines_memory(rows, form, k) <= lines_memory(rows, form, n),
    decreases n - k,
{
    if k < n {
        lemma_lines_memory_grows(rows, form, k, n - 1);
    }
}

/// The units of memory that the lines of a text take in a form; `None`
/// where they are more than can be counted.
pub fn memory_of_lines(input: &str, form: Form) -> (r: Option<usize>)
    ensures
        r == if lines_memory(lines_spec(input.spec_bytes()), form, lines_spec(input.spec_bytes()).len() as int)
            <= usize::MAX {
            Some(
                lines_memory(lines_spec(input.spec_bytes()), form, lines_spec(input.spec_bytes()).len() as int)
                    as usize,
            )
        } else {
            None
        },
{
    let rows = lines(input.as_bytes());
    let ghost spec_rows = lines_spec(input.spec_bytes());
    let mut sum: usize = 0;
    let mut i: usize = 0;
    while i < rows.len()
        invariant
            i <= rows.len(),
            spec_rows == lines_spec(input.spec_bytes()),
            rows.len() == spec_rows.len(),
            forall|k: int| 0 <= k < rows.len() ==> (#[trigger] rows[k])@ == spec_rows[k],
            sum == lines_memory(spec_rows, form, i as int),
        decreases rows.len() - i,
    {
        let here = match form {
            Form::Shortened => {
                let short = shorten(rows[i]);
                memory_of(short.as_slice())
            },
            Form::Encoded => rle_memory(rows[i]),
        };
        let next = match here {
            Some(n) => sum.checked_add(n),
            None => None,
        };
        sum = match next {
            Some(v) => v,
            None => {
                proof {
                    lemma_lines_memory_grows(spec_rows, form, i + 1, spec_rows.len() as int);
                }
                return None;
            },
        };
        i += 1;
    }
    Some(sum)
}

} // verus!
