//! Divisibility: greatest common divisors and least common multiples.

use vstd::prelude::*;
use vstd::arithmetic::div_mod::*;
use vstd::arithmetic::mul::*;

verus! {

/// `d` divides `n`.
pub open spec fn divides(d: int, n: int) -> bool {
    d > 0 && n % d == 0
}

/// A multiple of `d`, written as a product, is divisible by `d`.
pub proof fn lemma_divides_product(d: int, q: int)
    requires
        d > 0,
    ensures
        divides(d, d * q),
        divides(d, q * d),
{
    lemma_mod_multiples_basic(q, d);
    lemma_mul_is_commutative(d, q);
}

/// What `d` divides is `d` times its quotient.
pub proof fn lemma_divides_quotient(d: int, n: int)
    requires
        divides(d, n),
    ensures
        n == d * (n / d),
{
    lemma_fundamental_div_mod(n, d);
}

/// Divisibility is transitive.
pub proof fn lemma_divides_trans(a: int, b: int, c: int)
    requires
        divides(a, b),
        divides(b, c),
    ensures
        divides(a, c),
{
    lemma_divides_quotient(a, b);
    lemma_divides_quotient(b, c);
    let q = (b / a) * (c / b);
    assert(c == a * q) by (nonlinear_arith)
        requires
            b == a * (b / a),
            c == b * (c / b),
            q == (b / a) * (c / b),
    ;
    lemma_divides_product(a, q);
}

/// What divides two numbers divides their sum.
pub proof fn lemma_divides_sum(d: int, a: int, b: int)
    requires
        divides(d, a),
        divides(d, b),
    ensures
        divides(d, a + b),
{
    lemma_divides_quotient(d, a);
    lemma_divides_quotient(d, b);
    let q = a / d + b / d;
    assert(a + b == d * q) by (nonlinear_arith)
        requires
            a == d * (a / d),
            b == d * (b / d),
            q == a / d + b / d,
    ;
    lemma_divides_product(d, q);
}

/// What divides a number and a remainder by it divides the number divided.
proof fn lemma_divides_from_remainder(d: int, a: int, b: int)
    requires
        b > 0,
        divides(d, b),
        divides(d, a % b),
    ensures
        divides(d, a),
{
    lemma_fundamental_div_mod(a, b);
    lemma_divides_product(b, a / b);
    lemma_divides_trans(d, b, b * (a / b));
    lemma_divides_sum(d, b * (a / b), a % b);
}

/// What divides two numbers divides the remainder of one by the other.
proof fn lemma_divides_remainder(d: int, a: int, b: int)
    requires
        b > 0,
        divides(d, a),
        divides(d, b),
    ensures
        divides(d, a % b),
{
    lemma_fundamental_div_mod(a, b);
    lemma_divides_quotient(d, a);
    lemma_divides_quotient(d, b);
    let q = a / d - (b / d) * (a / b);
    assert(a % b == d * q) by (nonlinear_arith)
        requires
            a == b * (a / b) + a % b,
            a == d * (a / d),
            b == d * (b / d),
            q == a / d - (b / d) * (a / b),
    ;
    lemma_divides_product(d, q);
}

/// `g` is the greatest common divisor of `a` and `b`: it divides both, and
/// every common divisor divides it.
pub open spec fn is_gcd(g: int, a: int, b: int) -> bool {
    &&& divides(g, a)
    &&& divides(g, b)
    &&& forall|d: int| #[trigger] divides(d, a) && divides(d, b) ==> divides(d, g)
}

/// `l` is the least common multiple of `a` and `b`: both divide it, and it
/// divides every positive common multiple.
pub open spec fn is_lcm(l: int, a: int, b: int) -> bool {
    &&& l > 0
    &&& divides(a, l)
    &&& divides(b, l)
    &&& forall|m: int| m > 0 && #[trigger] divides(a, m) && divides(b, m) ==> divides(l, m)
}

/// The greatest common divisor, by Euclid's algorithm.
pub fn gcd(a: u64, b: u64) -> (g: u64)
    requires
        a > 0,
    ensures
        is_gcd(g as int, a as int, b as int),
    decreases b,
{
    if b == 0 {
        proof {
            lemma_mod_self_0(a as int);
        }
        a
    } else {
        let r: u64 = a % b;
        proof {
            lemma_mod_bound(a as int, b as int);
        }
        let g: u64 = gcd(b, r);
        proof {
            lemma_divides_from_remainder(g as int, a as int, b as int);
            assert forall|d: int| #[trigger] divides(d, a as int) && divides(d, b as int) implies divides(
                d,
                g as int,
            ) by {
                lemma_divides_remainder(d, a as int, b as int);
            }
        }
        g
    }
}

/// No positive common multiple of `a` and `b` lies below `a / g * b`, where
/// `g` is their greatest common divisor.
proof fn lemma_common_multiple_bound(g: int, a: int, b: int, r: int)
    requires
        a > 0,
        b > 0,
        is_gcd(g, a, b),
        r > 0,
        divides(a, r),
        divides(b, r),
    ensures
        r >= (a / g) * b,
    decreases r,
{
    let l = (a / g) * b;
    lemma_divides_quotient(g, a);
    lemma_divides_quotient(g, b);
    let a1 = a / g;
    let b1 = b / g;
    assert(l == a * b1) by (nonlinear_arith)
        requires
            l == a1 * b,
            a == g * a1,
            b == g * b1,
    ;
    lemma_divides_product(a, b1);
    lemma_divides_product(b, a1);
    if r < l {
        let r2 = l % r;
        lemma_mod_bound(l, r);
        lemma_divides_remainder(a, l, r);
        lemma_divides_remainder(b, l, r);
        if r2 != 0 {
            // a smaller common multiple: descend
            lemma_common_multiple_bound(g, a, b, r2);
        } else {
            // `r` divides `l`, so `l == r * k` with `k >= 2`, and `g * k`
            // is a common divisor of `a` and `b` above `g`
            lemma_fundamental_div_mod(l, r);
            let k = l / r;
            lemma_divides_quotient(a, r);
            lemma_divides_quotient(b, r);
            let s = r / a;
            let t = r / b;
            assert(k >= 2) by (nonlinear_arith)
                requires
                    l == r * k,
                    0 < r < l,
            ;
            assert(b1 == s * k) by (nonlinear_arith)
                requires
                    l == a * b1,
                    l == r * k,
                    r == a * s,
                    a > 0,
            ;
            assert(a1 == t * k) by (nonlinear_arith)
                requires
                    l == a1 * b,
                    l == r * k,
                    r == b * t,
                    b > 0,
            ;
            assert(a == (g * k) * t) by (nonlinear_arith)
                requires
                    a == g * a1,
                    a1 == t * k,
            ;
            assert(b == (g * k) * s) by (nonlinear_arith)
                requires
                    b == g * b1,
                    b1 == s * k,
            ;
            assert(g * k > g) by (nonlinear_arith)
                requires
                    g > 0,
                    k >= 2,
            ;
            lemma_divides_product(g * k, t);
            lemma_divides_product(g * k, s);
            assert(divides(g * k, a));
            assert(divides(g * k, b));
            assert(divides(g * k, g));
            lemma_divides_quotient(g * k, g);
            assert(g / (g * k) >= 1) by (nonlinear_arith)
                requires
                    g == (g * k) * (g / (g * k)),
                    g * k > 0,
                    g > 0,
            ;
            assert(g >= g * k) by (nonlinear_arith)
                requires
                    g == (g * k) * (g / (g * k)),
                    g / (g * k) >= 1,
                    g * k > 0,
            ;
        }
    }
}

/// A common multiple of `a` and `b` is a multiple of `a / g * b`, where `g`
/// is their greatest common divisor.
proof fn lemma_lcm_divides(g: int, a: int, b: int, m: int)
    requires
        a > 0,
        b > 0,
        m > 0,
        is_gcd(g, a, b),
        divides(a, m),
        divides(b, m),
    ensures
        divides((a / g) * b, m),
{
    let l = (a / g) * b;
    lemma_divides_quotient(g, a);
    lemma_divides_quotient(g, b);
    let a1 = a / g;
    let b1 = b / g;
    assert(a1 > 0) by (nonlinear_arith)
        requires
            a == g * a1,
            a > 0,
            g > 0,
    ;
    assert(l > 0) by (nonlinear_arith)
        requires
            l == a1 * b,
            a1 > 0,
            b > 0,
    ;
    assert(l == a * b1) by (nonlinear_arith)
        requires
            l == a1 * b,
            a == g * a1,
            b == g * b1,
    ;
    lemma_divides_product(a, b1);
    lemma_divides_product(b, a1);
    let r = m % l;
    lemma_mod_bound(m, l);
    lemma_divides_remainder(a, m, l);
    lemma_divides_remainder(b, m, l);
    if r != 0 {
        lemma_common_multiple_bound(g, a, b, r);
    }
}

/// The least common multiple of two positive numbers whose product fits.
pub fn lcm(a: u64, b: u64) -> (l: u64)
    requires
        a > 0,
        b > 0,
        a * b <= u64::MAX,
    ensures
        is_lcm(l as int, a as int, b as int),
        l <= a * b,
{
    let g: u64 = gcd(a, b);
    proof {
        lemma_divides_quotient(g as int, a as int);
        lemma_divides_quotient(g as int, b as int);
        let a1 = (a / g) as int;
        let b1 = (b / g) as int;
        assert(0 < a1 <= a) by (nonlinear_arith)
            requires
                a == g * a1,
                a > 0,
                g > 0,
        ;
        assert(0 < a1 * b <= a * b) by (nonlinear_arith)
            requires
                0 < a1 <= a,
                b > 0,
        ;
        assert(a1 * b == a * b1) by (nonlinear_arith)
            requires
                a == g * a1,
                b == g * b1,
        ;
        lemma_divides_product(a as int, b1);
        lemma_divides_product(b as int, a1);
        assert forall|m: int| m > 0 && #[trigger] divides(a as int, m) && divides(b as int, m) implies divides(
            a1 * b,
            m,
        ) by {
            lemma_lcm_divides(g as int, a as int, b as int, m);
        }
    }
    (a / g) * b
}

} // verus!
