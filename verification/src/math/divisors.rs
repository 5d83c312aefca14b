//! Divisibility, greatest common divisors and least common multiples of
//! natural numbers.

use vstd::arithmetic::div_mod::{
    lemma_fundamental_div_mod, lemma_mod_multiples_basic, lemma_small_mod,
};
use vstd::prelude::*;

verus! {

/// `d` divides `n`. Zero divides nothing.
pub open spec fn divides(d: nat, n: nat) -> bool {
    d > 0 && n % d == 0
}

/// `d` divides both `a` and `b`.
pub open spec fn common_divisor(d: nat, a: nat, b: nat) -> bool {
    divides(d, a) && divides(d, b)
}

/// `g` is the greatest common divisor of `a` and `b`: the largest number
/// that divides both, and 0 where both are 0.
pub open spec fn is_gcd(g: nat, a: nat, b: nat) -> bool {
    if a == 0 && b == 0 {
        g == 0
    } else {
        common_divisor(g, a, b) && forall|d: nat| #[trigger] common_divisor(d, a, b) ==> d <= g
    }
}

/// The greatest common divisor of `a` and `b`.
pub open spec fn gcd_of(a: nat, b: nat) -> nat {
    choose|g: nat| is_gcd(g, a, b)
}

/// `m` is positive and a multiple of both `a` and `b`.
pub open spec fn common_multiple(m: nat, a: nat, b: nat) -> bool {
    m > 0 && divides(a, m) && divides(b, m)
}

/// `l` is the least common multiple of `a` and `b`: the smallest positive
/// number that both divide.
pub open spec fn is_lcm(l: nat, a: nat, b: nat) -> bool {
    common_multiple(l, a, b) && forall|m: nat| #[trigger] common_multiple(m, a, b) ==> l <= m
}

/// The least common multiple of `a` and `b`, and 0 where one of them is 0.
pub open spec fn lcm_of(a: nat, b: nat) -> nat {
    if a == 0 || b == 0 {
        0
    } else {
        a * b / gcd_of(a, b)
    }
}

/// Computes the greatest common divisor by Euclid's algorithm.
pub fn gcd(a: u32, b: u32) -> (g: u32)
    ensures
        is_gcd(g as nat, a as nat, b as nat),
        g == gcd_of(a as nat, b as nat),
{
    let mut x = a;
    let mut y = b;
    while y != 0
        invariant
            forall|g: nat| is_gcd(g, x as nat, y as nat) ==> is_gcd(g, a as nat, b as nat),
        decreases y,
    {
        let r = x % y;
        assert forall|g: nat| is_gcd(g, y as nat, r as nat) implies is_gcd(
            g,
            a as nat,
            b as nat,
        ) by {
            lemma_gcd_step(g, x as nat, y as nat);
        }
        x = y;
        y = r;
    }
    proof {
        lemma_gcd_zero(x as nat);
        lemma_gcd_of(a as nat, b as nat);
    }
    x
}

/// Computes the least common multiple, which is 0 where one of the numbers
/// is 0, or returns `None` where it exceeds `u32::MAX`.
pub fn lcm(a: u32, b: u32) -> (r: Option<u32>)
    ensures
        r == (if lcm_of(a as nat, b as nat) <= u32::MAX {
            Some(lcm_of(a as nat, b as nat) as u32)
        } else {
            None
        }),
{
    if a == 0 || b == 0 {
        return Some(0);
    }
    let g = gcd(a, b);
    proof {
        lemma_lcm_of(a as nat, b as nat);
        lemma_divisor_le(g as nat, a as nat);
    }
    let x = a / g;
    assert(x * b <= u64::MAX) by (nonlinear_arith)
        requires
            x <= u32::MAX,
            b <= u32::MAX,
    ;
    let l: u64 = (x as u64) * (b as u64);
    if l <= u32::MAX as u64 {
        Some(l as u32)
    } else {
        None
    }
}

/// A number divides its multiples.
pub proof fn lemma_divides_multiple(d: nat, q: nat)
    requires
        d > 0,
    ensures
        divides(d, q * d),
{
    lemma_mod_multiples_basic(q as int, d as int);
}

/// What a number divides is the number times the quotient.
pub proof fn lemma_divides_quotient(d: nat, n: nat)
    requires
        divides(d, n),
    ensures
        n == (n / d) * d,
{
    lemma_fundamental_div_mod(n as int, d as int);
    assert(d * (n / d) == (n / d) * d) by (nonlinear_arith);
}

/// A divisor of a positive number is no larger than the number.
pub proof fn lemma_divisor_le(d: nat, n: nat)
    requires
        n > 0,
        divides(d, n),
    ensures
        d <= n,
{
    if d > n {
        lemma_small_mod(n, d);
    }
}

/// The step of Euclid's algorithm keeps the common divisors: those of `a`
/// and `b` are those of `b` and `a % b`.
pub proof fn lemma_common_divisor_step(d: nat, a: nat, b: nat)
    requires
        b > 0,
    ensures
        common_divisor(d, a, b) <==> common_divisor(d, b, a % b),
{
    let q = a / b;
    let r = a % b;
    lemma_fundamental_div_mod(a as int, b as int);
    assert(a == b * q + r);
    if common_divisor(d, a, b) {
        lemma_divides_quotient(d, a);
        lemma_divides_quotient(d, b);
        let x = a / d;
        let y = b / d;
        assert(r == (x - y * q) * d) by (nonlinear_arith)
            requires
                a == b * q + r,
                a == x * d,
                b == y * d,
        ;
        assert(x - y * q >= 0) by (nonlinear_arith)
            requires
                r == (x - y * q) * d,
                r >= 0,
                d > 0,
        ;
        lemma_divides_multiple(d, (x - y * q) as nat);
    }
    if common_divisor(d, b, r) {
        lemma_divides_quotient(d, b);
        lemma_divides_quotient(d, r);
        let y = b / d;
        let z = r / d;
        assert(a == (y * q + z) * d) by (nonlinear_arith)
            requires
                a == b * q + r,
                b == y * d,
                r == z * d,
        ;
        lemma_divides_multiple(d, y * q + z);
    }
}

/// Two numbers have one greatest common divisor.
pub proof fn lemma_gcd_unique(g: nat, h: nat, a: nat, b: nat)
    requires
        is_gcd(g, a, b),
        is_gcd(h, a, b),
    ensures
        g == h,
{
}

/// The greatest common divisor of a number and 0 is the number.
pub proof fn lemma_gcd_zero(a: nat)
    ensures
        is_gcd(a, a, 0),
{
    if a > 0 {
        lemma_divides_multiple(a, 1);
        lemma_divides_multiple(a, 0);
        assert(1 * a == a && 0 * a == 0) by (nonlinear_arith);
        assert forall|d: nat| #[trigger] common_divisor(d, a, 0) implies d <= a by {
            lemma_divisor_le(d, a);
        }
    }
}

/// The greatest common divisor of `b` and `a % b` is that of `a` and `b`.
pub proof fn lemma_gcd_step(g: nat, a: nat, b: nat)
    requires
        b > 0,
        is_gcd(g, b, a % b),
    ensures
        is_gcd(g, a, b),
{
    lemma_common_divisor_step(g, a, b);
    assert forall|d: nat| #[trigger] common_divisor(d, a, b) implies d <= g by {
        lemma_common_divisor_step(d, a, b);
    }
}

/// Every two numbers have a greatest common divisor, and `gcd_of` is it.
pub proof fn lemma_gcd_of(a: nat, b: nat)
    ensures
        is_gcd(gcd_of(a, b), a, b),
    decreases b,
{
    if b == 0 {
        lemma_gcd_zero(a);
    } else {
        lemma_gcd_of(b, a % b);
        lemma_gcd_step(gcd_of(b, a % b), a, b);
    }
}

/// Dividing two numbers by their greatest common divisor leaves numbers
/// whose greatest common divisor is 1.
pub proof fn lemma_gcd_of_quotients(a: nat, b: nat)
    requires
        a > 0 || b > 0,
    ensures
        gcd_of(a, b) > 0,
        (a / gcd_of(a, b)) * gcd_of(a, b) == a,
        (b / gcd_of(a, b)) * gcd_of(a, b) == b,
        gcd_of(a / gcd_of(a, b), b / gcd_of(a, b)) == 1,
{
    let g = gcd_of(a, b);
    lemma_gcd_of(a, b);
    lemma_divides_quotient(g, a);
    lemma_divides_quotient(g, b);
    let x = a / g;
    let y = b / g;
    assert(x > 0 || y > 0) by (nonlinear_arith)
        requires
            a == x * g,
            b == y * g,
            a > 0 || b > 0,
            x >= 0,
            y >= 0,
    ;
    let h = gcd_of(x, y);
    lemma_gcd_of(x, y);
    lemma_divides_quotient(h, x);
    lemma_divides_quotient(h, y);
    let p = x / h;
    let q = y / h;
    assert(a == p * (h * g) && b == q * (h * g)) by (nonlinear_arith)
        requires
            a == x * g,
            b == y * g,
            x == p * h,
            y == q * h,
    ;
    assert(h * g > 0) by (nonlinear_arith)
        requires
            h > 0,
            g > 0,
    ;
    lemma_divides_multiple(h * g, p);
    lemma_divides_multiple(h * g, q);
    assert(common_divisor(h * g, a, b));
    assert(h <= 1) by (nonlinear_arith)
        requires
            h * g <= g,
            g > 0,
    ;
}

/// The greatest common divisor is a sum of integer multiples of the two
/// numbers. Returns the two factors.
pub proof fn lemma_bezout(a: nat, b: nat) -> (r: (int, int))
    ensures
        gcd_of(a, b) == r.0 * a + r.1 * b,
    decreases b,
{
    lemma_gcd_of(a, b);
    if b == 0 {
        lemma_gcd_zero(a);
        assert(1 * a + 0 * b == a) by (nonlinear_arith);
        (1, 0)
    } else {
        let (u, v) = lemma_bezout(b, a % b);
        let g = gcd_of(b, a % b);
        lemma_gcd_of(b, a % b);
        lemma_gcd_step(g, a, b);
        let q = a / b;
        let m = a % b;
        lemma_fundamental_div_mod(a as int, b as int);
        assert(v * a + (u - v * q) * b == u * b + v * m) by (nonlinear_arith)
            requires
                a == b * q + m,
        ;
        (v, u - v * q)
    }
}

/// For positive numbers the product divided by the greatest common divisor
/// is the least common multiple, and the division is exact.
pub proof fn lemma_lcm_of(a: nat, b: nat)
    requires
        a > 0,
        b > 0,
    ensures
        is_lcm(lcm_of(a, b), a, b),
        lcm_of(a, b) * gcd_of(a, b) == a * b,
        lcm_of(a, b) == (a / gcd_of(a, b)) * b,
{
    let g = gcd_of(a, b);
    lemma_gcd_of(a, b);
    lemma_divides_quotient(g, a);
    lemma_divides_quotient(g, b);
    let x = a / g;
    let y = b / g;
    let l = x * b;
    assert(a * b == l * g && l == y * a) by (nonlinear_arith)
        requires
            a == x * g,
            b == y * g,
            l == x * b,
    ;
    lemma_divides_multiple(g, l);
    lemma_divides_quotient(g, l * g);
    assert((l * g) / g == l) by (nonlinear_arith)
        requires
            l * g == ((l * g) / g) * g,
            g > 0,
    ;
    assert(lcm_of(a, b) == l);
    assert(l > 0) by (nonlinear_arith)
        requires
            l * g == a * b,
            a > 0,
            b > 0,
            g > 0,
            l >= 0,
    ;
    lemma_divides_multiple(a, y);
    lemma_divides_multiple(b, x);
    let (u, v) = lemma_bezout(a, b);
    assert forall|m: nat| #[trigger] common_multiple(m, a, b) implies l <= m by {
        lemma_divides_quotient(a, m);
        lemma_divides_quotient(b, m);
        let p = m / a;
        let q = m / b;
        let t = u * q + v * p;
        let ab = a * b;
        let am = a * m;
        let bm = b * m;
        assert(am == q * ab) by (nonlinear_arith)
            requires
                m == q * b,
                ab == a * b,
                am == a * m,
        ;
        assert(bm == p * ab) by (nonlinear_arith)
            requires
                m == p * a,
                ab == a * b,
                bm == b * m,
        ;
        assert(g * m == u * am + v * bm) by (nonlinear_arith)
            requires
                g == u * a + v * b,
                am == a * m,
                bm == b * m,
        ;
        assert(g * m == (t * l) * g) by (nonlinear_arith)
            requires
                g * m == u * am + v * bm,
                am == q * ab,
                bm == p * ab,
                ab == l * g,
                t == u * q + v * p,
        ;
        assert(l <= m) by (nonlinear_arith)
            requires
                g * m == (t * l) * g,
                g > 0,
                m > 0,
                l > 0,
        ;
    }
}

} // verus!
