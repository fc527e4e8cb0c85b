//! Text as bytes: finding and splitting, and decimal numbers.

use vstd::prelude::*;
use vstd::slice::slice_subrange;

verus! {

/// Whether `needle` stands in `hay` at offset `i`.
pub open spec fn matches_at(hay: Seq<u8>, needle: Seq<u8>, i: int) -> bool {
    &&& 0 <= i
    &&& i + needle.len() <= hay.len()
    &&& hay.subrange(i, i + needle.len()) == needle
}

/// The first offset at or after `from` at which `needle` stands in `hay`.
pub open spec fn first_match_from(hay: Seq<u8>, needle: Seq<u8>, from: int) -> Option<int>
    decreases hay.len() - from,
{
    if from < 0 || from + needle.len() > hay.len() {
        None
    } else if matches_at(hay, needle, from) {
        Some(from)
    } else if from >= hay.len() {
        None
    } else {
        first_match_from(hay, needle, from + 1)
    }
}

/// The first offset at which `needle` stands in `hay`.
pub open spec fn first_match(hay: Seq<u8>, needle: Seq<u8>) -> Option<int> {
    first_match_from(hay, needle, 0)
}

/// `first_match_from` gives the least match at or after `from`, and `None`
/// only where there is none.
pub proof fn lemma_first_match_from(hay: Seq<u8>, needle: Seq<u8>, from: int)
    requires
        0 <= from,
    ensures
        match first_match_from(hay, needle, from) {
            Some(i) => {
                &&& from <= i
                &&& matches_at(hay, needle, i)
                &&& forall|j: int| from <= j < i ==> !matches_at(hay, needle, j)
            },
            None => forall|j: int| from <= j ==> !matches_at(hay, needle, j),
        },
    decreases hay.len() - from,
{
    if from + needle.len() <= hay.len() && !matches_at(hay, needle, from) {
        if from < hay.len() {
            lemma_first_match_from(hay, needle, from + 1);
        } else {
            assert(hay.subrange(from, from + needle.len()) =~= needle);
        }
    }
}

/// Whether `needle` stands in `hay` at offset `i`.
fn matches_here(hay: &[u8], needle: &[u8], i: usize) -> (r: bool)
    requires
        i + needle.len() <= hay.len(),
    ensures
        r == matches_at(hay@, needle@, i as int),
{
    let mut k: usize = 0;
    while k < needle.len()
        invariant
            i + needle.len() <= hay.len(),
            k <= needle.len(),
            forall|j: int| 0 <= j < k ==> hay[i + j] == needle[j],
        decreases needle.len() - k,
    {
        if hay[i + k] != needle[k] {
            assert(hay@.subrange(i as int, i + needle.len())[k as int] == hay[i + k]);
            return false;
        }
        k += 1;
    }
    assert(hay@.subrange(i as int, i + needle.len()) =~= needle@);
    true
}

/// The first offset at which `needle` stands in `hay`.
pub fn find(hay: &[u8], needle: &[u8]) -> (r: Option<usize>)
    ensures
        match r {
            Some(i) => first_match(hay@, needle@) == Some(i as int),
            None => first_match(hay@, needle@) is None,
        },
{
    if needle.len() > hay.len() {
        return None;
    }
    let last: usize = hay.len() - needle.len();
    let mut i: usize = 0;
    loop
        invariant
            last == hay.len() - needle.len(),
            i <= last,
            first_match(hay@, needle@) == first_match_from(hay@, needle@, i as int),
        decreases last - i,
    {
        if matches_here(hay, needle, i) {
            return Some(i);
        }
        if i == last {
            proof {
                lemma_first_match_from(hay@, needle@, i as int);
                lemma_first_match_from(hay@, needle@, i + 1);
            }
            return None;
        }
        i += 1;
    }
}

/// The parts of `hay` before and after the first `needle` in it.
pub open spec fn split_once_spec(hay: Seq<u8>, needle: Seq<u8>) -> Option<(Seq<u8>, Seq<u8>)> {
    match first_match(hay, needle) {
        Some(i) => Some((hay.take(i), hay.skip(i + needle.len()))),
        None => None,
    }
}

/// The parts of `hay` before and after the first `needle` in it, or `None`
/// where `needle` is not in it.
pub fn split_once<'a>(hay: &'a [u8], needle: &[u8]) -> (r: Option<(&'a [u8], &'a [u8])>)
    ensures
        match r {
            Some((a, b)) => split_once_spec(hay@, needle@) == Some((a@, b@)),
            None => split_once_spec(hay@, needle@) is None,
        },
{
    match find(hay, needle) {
        Some(i) => {
            proof {
                lemma_first_match_from(hay@, needle@, 0);
                assert(matches_at(hay@, needle@, i as int));
            }
            let end: usize = hay.len();
            let a = slice_subrange(hay, 0, i);
            let b = slice_subrange(hay, i + needle.len(), end);
            Some((a, b))
        },
        None => None,
    }
}

/// The pieces of `hay` between the occurrences of `needle`, which is not
/// empty. With no occurrence the one piece is `hay` itself.
pub open spec fn split_spec(hay: Seq<u8>, needle: Seq<u8>) -> Seq<Seq<u8>>
    decreases hay.len(),
{
    match split_once_spec(hay, needle) {
        Some((a, b)) => if b.len() < hay.len() {
            seq![a] + split_spec(b, needle)
        } else {
            seq![hay]
        },
        None => seq![hay],
    }
}

/// A text has one piece at least.
pub proof fn lemma_split_not_empty(hay: Seq<u8>, needle: Seq<u8>)
    ensures
        split_spec(hay, needle).len() >= 1,
{
}

/// The pieces of `hay` between the occurrences of `needle`.
pub fn split<'a>(hay: &'a [u8], needle: &[u8]) -> (r: Vec<&'a [u8]>)
    requires
        needle.len() > 0,
    ensures
        r.len() == split_spec(hay@, needle@).len(),
        forall|i: int| 0 <= i < r.len() ==> (#[trigger] r[i])@ == split_spec(hay@, needle@)[i],
{
    let mut out: Vec<&'a [u8]> = Vec::new();
    let mut rest: &'a [u8] = hay;
    let ghost mut done: Seq<Seq<u8>> = Seq::empty();
    loop
        invariant_except_break
            needle.len() > 0,
            out.len() == done.len(),
            forall|i: int| 0 <= i < out.len() ==> (#[trigger] out[i])@ == done[i],
            split_spec(hay@, needle@) == done + split_spec(rest@, needle@),
        ensures
            out.len() == split_spec(hay@, needle@).len(),
            forall|i: int| 0 <= i < out.len() ==> (#[trigger] out[i])@ == split_spec(hay@, needle@)[i],
        decreases rest.len(),
    {
        proof {
            lemma_first_match_from(rest@, needle@, 0);
        }
        match split_once(rest, needle) {
            Some((a, b)) => {
                out.push(a);
                proof {
                    assert(done + (seq![a@] + split_spec(b@, needle@)) =~= done.push(a@) + split_spec(
                        b@,
                        needle@,
                    ));
                    done = done.push(a@);
                }
                rest = b;
            },
            None => {
                out.push(rest);
                proof {
                    assert(done + seq![rest@] =~= done.push(rest@));
                }
                break ;
            },
        }
    }
    out
}

/// At most `n` pieces of `hay` between the first occurrences of `needle`:
/// the last piece is all that is left.
pub open spec fn splitn_spec(hay: Seq<u8>, needle: Seq<u8>, n: nat) -> Seq<Seq<u8>>
    decreases n,
{
    if n <= 1 {
        seq![hay]
    } else {
        match split_once_spec(hay, needle) {
            Some((a, b)) => seq![a] + splitn_spec(b, needle, (n - 1) as nat),
            None => seq![hay],
        }
    }
}

/// At most `n` pieces of `hay` between the first occurrences of `needle`.
pub fn splitn<'a>(hay: &'a [u8], needle: &[u8], n: usize) -> (r: Vec<&'a [u8]>)
    ensures
        r.len() == splitn_spec(hay@, needle@, n as nat).len(),
        forall|i: int| 0 <= i < r.len() ==> (#[trigger] r[i])@ == splitn_spec(hay@, needle@, n as nat)[i],
        r.len() >= 1,
{
    let mut out: Vec<&'a [u8]> = Vec::new();
    let mut rest: &'a [u8] = hay;
    let mut left: usize = n;
    let ghost mut done: Seq<Seq<u8>> = Seq::empty();
    loop
        invariant_except_break
            out.len() == done.len(),
            forall|i: int| 0 <= i < out.len() ==> (#[trigger] out[i])@ == done[i],
            splitn_spec(hay@, needle@, n as nat) == done + splitn_spec(rest@, needle@, left as nat),
        ensures
            out.len() == splitn_spec(hay@, needle@, n as nat).len(),
            forall|i: int| 0 <= i < out.len() ==> (#[trigger] out[i])@ == splitn_spec(hay@, needle@, n as nat)[i],
            out.len() >= 1,
        decreases left,
    {
        if left <= 1 {
            out.push(rest);
            proof {
                assert(done + seq![rest@] =~= done.push(rest@));
            }
            break ;
        }
        match split_once(rest, needle) {
            Some((a, b)) => {
                out.push(a);
                proof {
                    assert(done + (seq![a@] + splitn_spec(b@, needle@, (left - 1) as nat)) =~= done.push(a@)
                        + splitn_spec(b@, needle@, (left - 1) as nat));
                    done = done.push(a@);
                }
                rest = b;
                left = left - 1;
            },
            None => {
                out.push(rest);
                proof {
                    assert(done + seq![rest@] =~= done.push(rest@));
                }
                break ;
            },
        }
    }
    out
}

/// Whether a byte is ASCII white space.
pub open spec fn is_space(b: u8) -> bool {
    b == 0x20 || b == 0x09 || b == 0x0a || b == 0x0c || b == 0x0d
}

/// Whether a byte is ASCII white space.
pub fn is_space_byte(b: u8) -> (r: bool)
    ensures
        r == is_space(b),
{
    b == 0x20 || b == 0x09 || b == 0x0a || b == 0x0c || b == 0x0d
}

/// The words of a text: its maximal stretches without white space.
pub open spec fn tokens_spec(s: Seq<u8>) -> Seq<Seq<u8>>
    decreases s.len(),
{
    if s.len() == 0 {
        Seq::empty()
    } else {
        let before = tokens_spec(s.drop_last());
        if is_space(s.last()) {
            before
        } else if s.len() >= 2 && !is_space(s[s.len() - 2]) && before.len() > 0 {
            before.update(before.len() - 1, before.last().push(s.last()))
        } else {
            before.push(seq![s.last()])
        }
    }
}

/// The words of a text.
pub fn tokens<'a>(s: &'a [u8]) -> (r: Vec<&'a [u8]>)
    ensures
        r.len() == tokens_spec(s@).len(),
        forall|i: int| 0 <= i < r.len() ==> (#[trigger] r[i])@ == tokens_spec(s@)[i],
{
    let mut out: Vec<&'a [u8]> = Vec::new();
    let ghost mut done: Seq<Seq<u8>> = Seq::empty();
    let mut start: usize = 0;
    let mut inside: bool = false;
    let mut i: usize = 0;
    while i < s.len()
        invariant
            i <= s.len(),
            out.len() == done.len(),
            forall|k: int| 0 <= k < out.len() ==> (#[trigger] out[k])@ == done[k],
            inside <==> (i > 0 && !is_space(s[i - 1])),
            inside ==> start < i && tokens_spec(s@.take(i as int)) == done.push(s@.subrange(start as int, i as int)),
            !inside ==> tokens_spec(s@.take(i as int)) == done,
        decreases s.len() - i,
    {
        let b = s[i];
        proof {
            assert(s@.take(i + 1).drop_last() =~= s@.take(i as int));
            assert(s@.take(i + 1).last() == b);
            if i > 0 {
                assert(s@.take(i + 1)[i - 1] == s[i - 1]);
            }
        }
        if is_space_byte(b) {
            if inside {
                out.push(slice_subrange(s, start, i));
                proof {
                    done = done.push(s@.subrange(start as int, i as int));
                }
                inside = false;
            }
        } else {
            if !inside {
                start = i;
                inside = true;
                assert(s@.subrange(i as int, i + 1) =~= seq![b]);
            } else {
                assert(s@.subrange(start as int, i as int).push(b) =~= s@.subrange(start as int, i + 1));
                assert(done.push(s@.subrange(start as int, i as int)).update(
                    done.len() as int,
                    s@.subrange(start as int, i + 1),
                ) =~= done.push(s@.subrange(start as int, i + 1)));
            }
        }
        i += 1;
    }
    assert(s@.take(s.len() as int) =~= s@);
    if inside {
        out.push(slice_subrange(s, start, s.len()));
    }
    out
}

/// A text without the white space at its beginning.
pub open spec fn trim_start_spec(s: Seq<u8>) -> Seq<u8>
    decreases s.len(),
{
    if s.len() > 0 && is_space(s[0]) {
        trim_start_spec(s.drop_first())
    } else {
        s
    }
}

/// A text without the white space at its end.
pub open spec fn trim_end_spec(s: Seq<u8>) -> Seq<u8>
    decreases s.len(),
{
    if s.len() > 0 && is_space(s.last()) {
        trim_end_spec(s.drop_last())
    } else {
        s
    }
}

/// A text without the white space at its beginning and at its end.
pub open spec fn trim_spec(s: Seq<u8>) -> Seq<u8> {
    trim_end_spec(trim_start_spec(s))
}

/// A text without the white space at its beginning and at its end.
pub fn trim<'a>(s: &'a [u8]) -> (r: &'a [u8])
    ensures
        r@ == trim_spec(s@),
{
    let mut start: usize = 0;
    assert(s@.subrange(0, s.len() as int) =~= s@);
    while start < s.len() && is_space_byte(s[start])
        invariant
            start <= s.len(),
            trim_start_spec(s@) == trim_start_spec(s@.subrange(start as int, s.len() as int)),
        decreases s.len() - start,
    {
        assert(s@.subrange(start as int, s.len() as int).drop_first() =~= s@.subrange(start + 1, s.len() as int));
        start += 1;
    }
    let mut end: usize = s.len();
    while end > start && is_space_byte(s[end - 1])
        invariant
            start <= end <= s.len(),
            trim_start_spec(s@) == s@.subrange(start as int, s.len() as int),
            trim_spec(s@) == trim_end_spec(s@.subrange(start as int, end as int)),
        decreases end,
    {
        assert(s@.subrange(start as int, end as int).drop_last() =~= s@.subrange(start as int, end - 1));
        end -= 1;
    }
    slice_subrange(s, start, end)
}

/// A line without the carriage return at its end, if it has one.
pub open spec fn strip_cr(line: Seq<u8>) -> Seq<u8> {
    if line.len() > 0 && line.last() == 0x0d {
        line.drop_last()
    } else {
        line
    }
}

/// The lines of a text. A line ends with a line feed, or with a carriage
/// return and a line feed; the last line may end with the text.
pub open spec fn lines_spec(s: Seq<u8>) -> Seq<Seq<u8>> {
    if s.len() == 0 {
        Seq::empty()
    } else if s.last() == 0x0a {
        let pieces = split_spec(s.drop_last(), seq![0x0au8]);
        Seq::new(pieces.len(), |i: int| strip_cr(pieces[i]))
    } else {
        let pieces = split_spec(s, seq![0x0au8]);
        Seq::new(
            pieces.len(),
            |i: int|
                if i < pieces.len() - 1 {
                    strip_cr(pieces[i])
                } else {
                    pieces[i]
                },
        )
    }
}

/// The lines of a text.
pub fn lines<'a>(s: &'a [u8]) -> (r: Vec<&'a [u8]>)
    ensures
        r.len() == lines_spec(s@).len(),
        forall|i: int| 0 <= i < r.len() ==> (#[trigger] r[i])@ == lines_spec(s@)[i],
{
    if s.len() == 0 {
        return Vec::new();
    }
    let closed: bool = s[s.len() - 1] == 0x0a;
    let body: &'a [u8] = if closed {
        slice_subrange(s, 0, s.len() - 1)
    } else {
        s
    };
    assert(closed ==> body@ =~= s@.drop_last());
    let feed: [u8; 1] = [0x0a];
    assert(feed@ =~= seq![0x0au8]);
    let pieces = split(body, feed.as_slice());
    let mut out: Vec<&'a [u8]> = Vec::new();
    let mut i: usize = 0;
    while i < pieces.len()
        invariant
            i <= pieces.len(),
            s.len() > 0,
            closed == (s@.last() == 0x0a),
            pieces.len() == lines_spec(s@).len(),
            forall|k: int|
                0 <= k < pieces.len() ==> lines_spec(s@)[k] == if closed || k < pieces.len() - 1 {
                    strip_cr((#[trigger] pieces[k])@)
                } else {
                    pieces[k]@
                },
            out.len() == i,
            forall|k: int| 0 <= k < i ==> (#[trigger] out[k])@ == lines_spec(s@)[k],
        decreases pieces.len() - i,
    {
        let piece: &'a [u8] = pieces[i];
        let strip = (closed || i + 1 < pieces.len()) && piece.len() > 0 && piece[piece.len() - 1] == 0x0d;
        if strip {
            out.push(slice_subrange(piece, 0, piece.len() - 1));
        } else {
            assert(piece@.subrange(0, piece.len() as int) =~= piece@);
            out.push(slice_subrange(piece, 0, piece.len()));
        }
        i += 1;
    }
    out
}

/// The number of lines before the first empty one.
pub open spec fn filled(rows: Seq<Seq<u8>>, from: int) -> int
    decreases rows.len() - from,
{
    if from < 0 || from >= rows.len() || rows[from].len() == 0 {
        from
    } else {
        filled(rows, from + 1)
    }
}

/// `filled` stops at an empty line or at the end.
pub proof fn lemma_filled(rows: Seq<Seq<u8>>, from: int)
    requires
        0 <= from <= rows.len(),
    ensures
        from <= filled(rows, from) <= rows.len(),
        forall|i: int| from <= i < filled(rows, from) ==> (#[trigger] rows[i]).len() > 0,
        filled(rows, from) < rows.len() ==> rows[filled(rows, from)].len() == 0,
    decreases rows.len() - from,
{
    if from < rows.len() && rows[from].len() != 0 {
        lemma_filled(rows, from + 1);
    }
}

/// Whether a byte is a decimal digit.
pub open spec fn is_digit(b: u8) -> bool {
    0x30 <= b <= 0x39
}

/// Whether every byte is a decimal digit.
pub open spec fn all_digits(s: Seq<u8>) -> bool {
    forall|i: int| 0 <= i < s.len() ==> is_digit(#[trigger] s[i])
}

/// The number that a string of decimal digits writes.
pub open spec fn digits_value(s: Seq<u8>) -> nat
    decreases s.len(),
{
    if s.len() == 0 {
        0
    } else {
        (digits_value(s.drop_last()) * 10 + (s.last() - 0x30)) as nat
    }
}

/// The number that `s` writes, if it writes one that is at most `max`: one
/// or more decimal digits, after a `+` or nothing.
pub open spec fn parse_unsigned_spec(s: Seq<u8>, max: nat) -> Option<nat> {
    let digits = if s.len() > 0 && s[0] == 0x2b {
        s.skip(1)
    } else {
        s
    };
    if digits.len() > 0 && all_digits(digits) && digits_value(digits) <= max {
        Some(digits_value(digits))
    } else {
        None
    }
}

/// The number that `s` writes, if it writes one from `min` to `max`: one or
/// more decimal digits, after a `+`, a `-` or nothing.
pub open spec fn parse_signed_spec(s: Seq<u8>, min: int, max: int) -> Option<int> {
    let negative = s.len() > 0 && s[0] == 0x2d;
    let digits = if s.len() > 0 && (s[0] == 0x2b || s[0] == 0x2d) {
        s.skip(1)
    } else {
        s
    };
    let value = if negative {
        -(digits_value(digits) as int)
    } else {
        digits_value(digits) as int
    };
    if digits.len() > 0 && all_digits(digits) && min <= value <= max {
        Some(value)
    } else {
        None
    }
}

/// A longer string of digits writes no smaller a number than its beginning.
pub proof fn lemma_digits_value_grows(s: Seq<u8>, k: int)
    requires
        all_digits(s),
        0 <= k <= s.len(),
    ensures
        digits_value(s.take(k)) <= digits_value(s),
    decreases s.len() - k,
{
    if k < s.len() {
        lemma_digits_value_grows(s, k + 1);
        assert(s.take(k + 1).drop_last() =~= s.take(k));
        assert(is_digit(s[k]));
    } else {
        assert(s.take(k) =~= s);
    }
}

/// The number that a string of digits writes, where it is at most `max`.
fn digits_to_number(s: &[u8], max: u64) -> (r: Option<u64>)
    ensures
        r == if s.len() > 0 && all_digits(s@) && digits_value(s@) <= max {
            Some(digits_value(s@) as u64)
        } else {
            None
        },
{
    if s.len() == 0 {
        return None;
    }
    let mut acc: u64 = 0;
    let mut i: usize = 0;
    while i < s.len()
        invariant
            i <= s.len(),
            all_digits(s@.take(i as int)),
            acc == digits_value(s@.take(i as int)),
            acc <= max,
        decreases s.len() - i,
    {
        let b = s[i];
        if b < 0x30 || b > 0x39 {
            assert(!is_digit(s@[i as int]));
            return None;
        }
        let d: u64 = (b - 0x30) as u64;
        proof {
            assert(s@.take(i + 1).drop_last() =~= s@.take(i as int));
            assert(s@.take(i + 1).last() == b);
            assert forall|j: int| 0 <= j < i + 1 implies is_digit(#[trigger] s@.take(i + 1)[j]) by {
                if j < i {
                    assert(s@.take(i as int)[j] == s@[j]);
                }
            }
            if all_digits(s@) {
                lemma_digits_value_grows(s@, i + 1);
            }
        }
        if d > max {
            return None;
        }
        if acc > (max - d) / 10 {
            assert(acc * 10 + d > max) by (nonlinear_arith)
                requires
                    acc > (max - d) / 10,
                    d <= max,
            ;
            return None;
        }
        assert(acc * 10 + d <= max) by (nonlinear_arith)
            requires
                acc <= (max - d) / 10,
                d <= max,
        ;
        acc = acc * 10 + d;
        i += 1;
    }
    assert(s@.take(s.len() as int) =~= s@);
    Some(acc)
}

/// Reads an unsigned decimal number that is at most `max`.
pub fn parse_unsigned(s: &[u8], max: u64) -> (r: Option<u64>)
    ensures
        match r {
            Some(n) => parse_unsigned_spec(s@, max as nat) == Some(n as nat),
            None => parse_unsigned_spec(s@, max as nat) is None,
        },
{
    if s.len() > 0 && s[0] == 0x2b {
        digits_to_number(slice_subrange(s, 1, s.len()), max)
    } else {
        assert(s@.subrange(0, s.len() as int) =~= s@);
        digits_to_number(slice_subrange(s, 0, s.len()), max)
    }
}

/// Reads a signed decimal number from `min` to `max`.
pub fn parse_signed(s: &[u8], min: i64, max: i64) -> (r: Option<i64>)
    requires
        min <= 0 <= max,
    ensures
        match r {
            Some(n) => parse_signed_spec(s@, min as int, max as int) == Some(n as int),
            None => parse_signed_spec(s@, min as int, max as int) is None,
        },
{
    if s.len() > 0 && s[0] == 0x2d {
        match digits_to_number(slice_subrange(s, 1, s.len()), (-(min as i128)) as u64) {
            Some(n) => Some((-(n as i128)) as i64),
            None => None,
        }
    } else if s.len() > 0 && s[0] == 0x2b {
        match digits_to_number(slice_subrange(s, 1, s.len()), max as u64) {
            Some(n) => Some(n as i64),
            None => None,
        }
    } else {
        assert(s@.subrange(0, s.len() as int) =~= s@);
        match digits_to_number(slice_subrange(s, 0, s.len()), max as u64) {
            Some(n) => Some(n as i64),
            None => None,
        }
    }
}

/// Whether two texts are the same.
pub fn same_bytes(a: &[u8], b: &[u8]) -> (r: bool)
    ensures
        r == (a@ == b@),
{
    if a.len() != b.len() {
        return false;
    }
    let mut i: usize = 0;
    while i < a.len()
        invariant
            a.len() == b.len(),
            i <= a.len(),
            forall|k: int| 0 <= k < i ==> a[k] == b[k],
        decreases a.len() - i,
    {
        if a[i] != b[i] {
            return false;
        }
        i += 1;
    }
    assert(a@ =~= b@);
    true
}

/// The decimal digits of a number, without leading zeros.
pub open spec fn decimal(n: nat) -> Seq<u8>
    decreases n,
{
    if n < 10 {
        seq![(0x30 + n) as u8]
    } else {
        decimal(n / 10).push((0x30 + n % 10) as u8)
    }
}

/// The decimal digits of a number are digits, and write that number.
pub proof fn lemma_decimal_reads_back(n: nat)
    ensures
        decimal(n).len() > 0,
        all_digits(decimal(n)),
        digits_value(decimal(n)) == n,
    decreases n,
{
    if n < 10 {
        assert(decimal(n).drop_last() =~= Seq::<u8>::empty());
        assert(digits_value(decimal(n).drop_last()) == 0);
    } else {
        lemma_decimal_reads_back(n / 10);
        assert(decimal(n).drop_last() =~= decimal(n / 10));
    }
}

/// The decimal digits of a number, without leading zeros.
pub fn to_decimal(n: u64) -> (r: Vec<u8>)
    ensures
        r@ == decimal(n as nat),
    decreases n,
{
    if n < 10 {
        let mut out: Vec<u8> = Vec::new();
        out.push(0x30 + n as u8);
        assert(out@ =~= decimal(n as nat));
        out
    } else {
        let mut out = to_decimal(n / 10);
        out.push(0x30 + (n % 10) as u8);
        out
    }
}

/// The characters of ASCII bytes.
pub open spec fn as_chars(bytes: Seq<u8>) -> Seq<char> {
    Seq::new(bytes.len(), |i: int| bytes[i] as char)
}

/// `String::push`: appends one character.
pub assume_specification[ String::push ](s: &mut String, ch: char)
    ensures
        final(s)@ == old(s)@.push(ch),
;

/// Appends the characters of the given bytes, each taken as the code point
/// of its value.
pub fn push_bytes(out: &mut String, bytes: &[u8])
    ensures
        final(out)@ == old(out)@ + as_chars(bytes@),
{
    let mut i: usize = 0;
    while i < bytes.len()
        invariant
            i <= bytes.len(),
            out@ == old(out)@ + as_chars(bytes@.take(i as int)),
        decreases bytes.len() - i,
    {
        out.push(bytes[i] as char);
        assert(as_chars(bytes@.take(i + 1)) =~= as_chars(bytes@.take(i as int)).push(bytes[i as int] as char));
        i += 1;
    }
    assert(bytes@.take(bytes.len() as int) =~= bytes@);
}

} // verus!
