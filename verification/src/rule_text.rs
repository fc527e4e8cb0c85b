//! Rules as text, one to a line:
//! `RULE 1: 8x+10y+3z+5w DIVIDE 9 HAS REMAINDER 4 | DEBRIS VELOCITY (0, -1, 0, 1)`.

use vstd::prelude::*;
use vstd::string::{StringExecFns, StringSliceAdditionalSpecFns};
use vstd::slice::slice_subrange;
use crate::debris::Rule;
use crate::lattice::Vec4;
use crate::text::{
    as_chars, decimal, lines, lines_spec, parse_signed, parse_signed_spec, push_bytes, split, split_spec,
    splitn, splitn_spec, to_decimal,
};

verus! {

/// The outcome of reading a line that is no rule.
#[derive(Clone, Copy, Debug, PartialEq, Eq, Structural)]
pub struct MalformedRule;

/// The 16-bit number that a text writes in decimal, if it writes one.
pub open spec fn number_spec(s: Seq<u8>) -> Option<int> {
    parse_signed_spec(s, i16::MIN as int, i16::MAX as int)
}

/// The vector that four texts write, if there are four and each writes a
/// 16-bit number.
pub open spec fn quad_spec(parts: Seq<Seq<u8>>) -> Option<Vec4> {
    if parts.len() != 4 {
        None
    } else {
        match (number_spec(parts[0]), number_spec(parts[1]), number_spec(parts[2]), number_spec(parts[3])) {
            (Some(x), Some(y), Some(z), Some(w)) => Some(
                Vec4 { x: x as i16, y: y as i16, z: z as i16, w: w as i16 },
            ),
            _ => None,
        }
    }
}

/// The terms of a sum such as `8x+10y+3z+5w`, each without its last byte,
/// the name of its axis. A term must not be empty.
pub open spec fn terms_spec(sum: Seq<u8>) -> Option<Seq<Seq<u8>>> {
    let terms = split_spec(sum, seq![0x2bu8]);
    if forall|i: int| 0 <= i < terms.len() ==> (#[trigger] terms[i]).len() > 0 {
        Some(Seq::new(terms.len(), |i: int| terms[i].drop_last()))
    } else {
        None
    }
}

/// The components of a vector such as `(0, -1, 0, 1)`: what stands between
/// the brackets, parted by a comma and a blank.
pub open spec fn components_spec(vector: Seq<u8>) -> Option<Seq<Seq<u8>>> {
    if vector.len() >= 2 && vector[0] == 0x28 && vector.last() == 0x29 {
        Some(split_spec(vector.subrange(1, vector.len() - 1), seq![0x2cu8, 0x20u8]))
    } else {
        None
    }
}

/// The rule that a line writes, if it writes one. Blanks part the line into
/// twelve fields, the last of which may hold blanks itself. The third field
/// is the sum of the four coefficients, the fifth the modulus, which is
/// positive, the eighth the remainder, and the twelfth the velocity with its
/// four components. The other fields are not read.
pub open spec fn parse_rule_spec(line: Seq<u8>) -> Option<Rule> {
    let fields = splitn_spec(line, seq![0x20u8], 12);
    if fields.len() != 12 {
        None
    } else {
        match (terms_spec(fields[2]), number_spec(fields[4]), number_spec(fields[7]), components_spec(fields[11])) {
            (Some(terms), Some(modulus), Some(remainder), Some(components)) => match (
                quad_spec(terms),
                quad_spec(components),
            ) {
                (Some(coeffs), Some(velocity)) => if modulus > 0 {
                    Some(
                        Rule {
                            coeffs,
                            modulus: modulus as i16,
                            remainder: remainder as i16,
                            debris_velocity: velocity,
                        },
                    )
                } else {
                    None
                },
                _ => None,
            },
            _ => None,
        }
    }
}

/// Reads a 16-bit number.
fn number(s: &[u8]) -> (r: Option<i16>)
    ensures
        match r {
            Some(n) => number_spec(s@) == Some(n as int),
            None => number_spec(s@) is None,
        },
{
    match parse_signed(s, i16::MIN as i64, i16::MAX as i64) {
        Some(n) => Some(n as i16),
        None => None,
    }
}

/// Reads the terms of a sum of four coefficients.
fn coefficients(sum: &[u8]) -> (r: Option<Vec4>)
    ensures
        r == match terms_spec(sum@) {
            Some(terms) => quad_spec(terms),
            None => None,
        },
{
    let plus: [u8; 1] = [0x2b];
    assert(plus@ =~= seq![0x2bu8]);
    let terms = split(sum, plus.as_slice());
    let ghost spec_terms = split_spec(sum@, seq![0x2bu8]);
    let mut numbers: Vec<Option<i16>> = Vec::new();
    let mut i: usize = 0;
    while i < terms.len()
        invariant
            i <= terms.len(),
            spec_terms == split_spec(sum@, seq![0x2bu8]),
            terms.len() == spec_terms.len(),
            forall|k: int| 0 <= k < terms.len() ==> (#[trigger] terms[k])@ == spec_terms[k],
            forall|k: int| 0 <= k < i ==> (#[trigger] spec_terms[k]).len() > 0,
            numbers.len() == i,
            forall|k: int| 0 <= k < i ==> match #[trigger] numbers[k] {
                Some(n) => number_spec(spec_terms[k].drop_last()) == Some(n as int),
                None => number_spec(spec_terms[k].drop_last()) is None,
            },
        decreases terms.len() - i,
    {
        let term: &[u8] = terms[i];
        if term.len() == 0 {
            assert(spec_terms[i as int].len() == 0);
            return None;
        }
        let body = slice_subrange(term, 0, term.len() - 1);
        assert(body@ =~= spec_terms[i as int].drop_last());
        numbers.push(number(body));
        i += 1;
    }
    let ghost stripped = Seq::new(spec_terms.len(), |k: int| spec_terms[k].drop_last());
    assert(terms_spec(sum@) == Some(stripped));
    if numbers.len() != 4 {
        return None;
    }
    match (numbers[0], numbers[1], numbers[2], numbers[3]) {
        (Some(x), Some(y), Some(z), Some(w)) => Some(Vec4 { x, y, z, w }),
        _ => None,
    }
}

/// Reads a vector of four components between brackets.
fn velocity(vector: &[u8]) -> (r: Option<Vec4>)
    ensures
        r == match components_spec(vector@) {
            Some(components) => quad_spec(components),
            None => None,
        },
{
    if !(vector.len() >= 2 && vector[0] == 0x28 && vector[vector.len() - 1] == 0x29) {
        return None;
    }
    let inner = slice_subrange(vector, 1, vector.len() - 1);
    let comma: [u8; 2] = [0x2c, 0x20];
    assert(comma@ =~= seq![0x2cu8, 0x20u8]);
    let parts = split(inner, comma.as_slice());
    if parts.len() != 4 {
        return None;
    }
    match (number(parts[0]), number(parts[1]), number(parts[2]), number(parts[3])) {
        (Some(x), Some(y), Some(z), Some(w)) => Some(Vec4 { x, y, z, w }),
        _ => None,
    }
}

/// Reads the bytes of one line as a rule.
pub fn parse_rule(line: &[u8]) -> (r: Result<Rule, MalformedRule>)
    ensures
        match r {
            Ok(rule) => parse_rule_spec(line@) == Some(rule) && rule.wf(),
            Err(_) => parse_rule_spec(line@) is None,
        },
{
    let blank: [u8; 1] = [0x20];
    assert(blank@ =~= seq![0x20u8]);
    let fields = splitn(line, blank.as_slice(), 12);
    if fields.len() != 12 {
        return Err(MalformedRule);
    }
    let coeffs = match coefficients(fields[2]) {
        Some(v) => v,
        None => { return Err(MalformedRule); },
    };
    let modulus = match number(fields[4]) {
        Some(n) => n,
        None => { return Err(MalformedRule); },
    };
    let remainder = match number(fields[7]) {
        Some(n) => n,
        None => { return Err(MalformedRule); },
    };
    let debris_velocity = match velocity(fields[11]) {
        Some(v) => v,
        None => { return Err(MalformedRule); },
    };
    if modulus <= 0 {
        return Err(MalformedRule);
    }
    Ok(Rule { coeffs, modulus, remainder, debris_velocity })
}

impl Rule {
    /// Reads one line as a rule.
    pub fn from_str(s: &str) -> (r: Result<Rule, MalformedRule>)
        ensures
            match r {
                Ok(rule) => parse_rule_spec(s.spec_bytes()) == Some(rule) && rule.wf(),
                Err(_) => parse_rule_spec(s.spec_bytes()) is None,
            },
    {
        parse_rule(s.as_bytes())
    }
}

/// A number in decimal, with a minus sign before it where it is negative.
pub open spec fn signed_decimal(v: int) -> Seq<u8> {
    if v < 0 {
        seq![0x2du8] + decimal((-v) as nat)
    } else {
        decimal(v as nat)
    }
}

/// Appends a number in decimal.
fn push_number(out: &mut String, v: i16)
    ensures
        final(out)@ == old(out)@ + as_chars(signed_decimal(v as int)),
{
    if v < 0 {
        out.push('-');
        let digits = to_decimal((-(v as i32)) as u64);
        push_bytes(out, digits.as_slice());
        assert(as_chars(signed_decimal(v as int)) =~= seq!['-'] + as_chars(decimal((-v) as nat)));
        assert(out@ =~= old(out)@ + as_chars(signed_decimal(v as int)));
    } else {
        let digits = to_decimal(v as u64);
        push_bytes(out, digits.as_slice());
    }
}

/// A vector as text: its four components in decimal, each followed by what
/// `after` gives for it.
pub open spec fn quad_text(v: Vec4, after: (Seq<char>, Seq<char>, Seq<char>, Seq<char>)) -> Seq<char> {
    as_chars(signed_decimal(v.x as int)) + after.0 + as_chars(signed_decimal(v.y as int)) + after.1 + as_chars(
        signed_decimal(v.z as int),
    ) + after.2 + as_chars(signed_decimal(v.w as int)) + after.3
}

/// A rule in words: the sum of its terms, its modulus and remainder, and the
/// velocity of its debris.
pub open spec fn describe_spec(rule: Rule) -> Seq<char> {
    quad_text(rule.coeffs, ("x + "@, "y + "@, "z + "@, "w DIVIDE "@)) + as_chars(
        signed_decimal(rule.modulus as int),
    ) + " HAS REMAINDER "@ + as_chars(signed_decimal(rule.remainder as int)) + " | DEBRIS VELOCITY ("@
        + quad_text(rule.debris_velocity, (", "@, ", "@, ", "@, ")"@))
}

/// Appends a vector as text.
fn push_quad(out: &mut String, v: Vec4, after: (&str, &str, &str, &str))
    ensures
        final(out)@ == old(out)@ + quad_text(v, (after.0@, after.1@, after.2@, after.3@)),
{
    push_number(out, v.x);
    out.append(after.0);
    push_number(out, v.y);
    out.append(after.1);
    push_number(out, v.z);
    out.append(after.2);
    push_number(out, v.w);
    out.append(after.3);
    assert(out@ =~= old(out)@ + quad_text(v, (after.0@, after.1@, after.2@, after.3@)));
}

impl Rule {
    /// The rule in words, such as
    /// `8x + 10y + 3z + 5w DIVIDE 9 HAS REMAINDER 4 | DEBRIS VELOCITY (0, -1, 0, 1)`.
    pub fn describe(&self) -> (r: String)
        ensures
            r@ == describe_spec(*self),
    {
        let mut out = String::new();
        push_quad(&mut out, self.coeffs, ("x + ", "y + ", "z + ", "w DIVIDE "));
        push_number(&mut out, self.modulus);
        out.append(" HAS REMAINDER ");
        push_number(&mut out, self.remainder);
        out.append(" | DEBRIS VELOCITY (");
        push_quad(&mut out, self.debris_velocity, (", ", ", ", ", ", ")"));
        assert(out@ =~= describe_spec(*self));
        out
    }
}

/// The rules that the lines of a text write, if every line writes one.
pub open spec fn parse_spec(text: Seq<u8>) -> Option<Seq<Rule>> {
    let rows = lines_spec(text);
    if forall|i: int| 0 <= i < rows.len() ==> parse_rule_spec(#[trigger] rows[i]) is Some {
        Some(Seq::new(rows.len(), |i: int| parse_rule_spec(rows[i])->Some_0))
    } else {
        None
    }
}

/// Reads a text of rules, one to a line. One line that is no rule fails the
/// whole text.
pub fn parse(text: &str) -> (r: Result<Vec<Rule>, MalformedRule>)
    ensures
        match r {
            Ok(rules) => parse_spec(text.spec_bytes()) == Some(rules@) && forall|i: int|
                0 <= i < rules.len() ==> (#[trigger] rules[i]).wf(),
            Err(_) => parse_spec(text.spec_bytes()) is None,
        },
{
    let rows = lines(text.as_bytes());
    let ghost spec_rows = lines_spec(text.spec_bytes());
    let mut rules: Vec<Rule> = Vec::new();
    let mut i: usize = 0;
    while i < rows.len()
        invariant
            i <= rows.len(),
            spec_rows == lines_spec(text.spec_bytes()),
            rows.len() == spec_rows.len(),
            forall|k: int| 0 <= k < rows.len() ==> (#[trigger] rows[k])@ == spec_rows[k],
            rules.len() == i,
            forall|k: int| 0 <= k < i ==> parse_rule_spec(#[trigger] spec_rows[k]) == Some(rules[k]),
            forall|k: int| 0 <= k < i ==> (#[trigger] rules[k]).wf(),
        decreases rows.len() - i,
    {
        match parse_rule(rows[i]) {
            Ok(rule) => {
                rules.push(rule);
            },
            Err(e) => {
                assert(parse_rule_spec(spec_rows[i as int]) is None);
                return Err(e);
            },
        }
        i += 1;
    }
    assert(rules@ =~= Seq::new(spec_rows.len(), |k: int| parse_rule_spec(spec_rows[k])->Some_0));
    Ok(rules)
}

} // verus!
