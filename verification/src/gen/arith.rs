//! Mathematical definitions and lemmas behind the number-theory generators:
//! greatest common divisors, Bezout coefficients, divisibility and primality.

use vstd::prelude::*;
use vstd::arithmetic::div_mod::*;
use vstd::arithmetic::mul::*;

verus! {

/// Greatest common divisor, by Euclid's algorithm on naturals.
pub open spec fn spec_gcd(a: nat, b: nat) -> nat
    decreases b,
{
    if b == 0 {
        a
    } else {
        spec_gcd(b, a % b)
    }
}

/// Extended Euclid: `(g, x, y)` with `a * x + b * y == g == gcd(a, b)`.
pub open spec fn spec_egcd(a: nat, b: nat) -> (nat, int, int)
    decreases b,
{
    if b == 0 {
        (a, 1int, 0int)
    } else {
        let r = spec_egcd(b, a % b);
        (r.0, r.2, r.1 - (a / b) as int * r.2)
    }
}

/// `n` is a prime number.
pub open spec fn is_prime(n: nat) -> bool {
    &&& n >= 2
    &&& forall|d: nat| 2 <= d < n ==> #[trigger] (n % d) != 0
}

/// `d` is a positive divisor of `n`.
pub open spec fn divides(d: nat, n: nat) -> bool {
    d > 0 && n % d == 0
}

pub open spec fn abs(x: int) -> int {
    if x < 0 {
        -x
    } else {
        x
    }
}

pub open spec fn max1(x: nat) -> nat {
    if x == 0 {
        1
    } else {
        x
    }
}

/// The first component of the extended algorithm is the gcd.
pub proof fn lemma_egcd_gcd(a: nat, b: nat)
    ensures
        spec_egcd(a, b).0 == spec_gcd(a, b),
    decreases b,
{
    if b > 0 {
        lemma_egcd_gcd(b, a % b);
    }
}

/// Bezout's identity for the extended algorithm.
pub proof fn lemma_bezout(a: nat, b: nat)
    ensures
        a * spec_egcd(a, b).1 + b * spec_egcd(a, b).2 == spec_egcd(a, b).0,
    decreases b,
{
    if b > 0 {
        let r = a % b;
        let q = a / b;
        lemma_bezout(b, r);
        let p = spec_egcd(b, r);
        lemma_fundamental_div_mod(a as int, b as int);
        let x1 = p.1;
        let y1 = p.2;
        assert(b * x1 + r * y1 == p.0);
        assert(a == b * q + r);
        assert(a * y1 + b * (x1 - q * y1) == b * x1 + r * y1) by (nonlinear_arith)
            requires
                a == b * q + r,
        ;
        assert(spec_egcd(a, b) == (p.0, y1, x1 - q * y1));
    } else {
        assert(spec_egcd(a, b) == (a, 1int, 0int));
        assert(a * 1int + b * 0int == a) by (nonlinear_arith);
    }
}

/// Size bounds on the Bezout coefficients: `|x| <= max(b, 1)` and `|y| <= max(a, 1)`.
pub proof fn lemma_egcd_bounds(a: nat, b: nat)
    ensures
        abs(spec_egcd(a, b).1) <= max1(b),
        abs(spec_egcd(a, b).2) <= max1(a),
        b == 0 ==> spec_egcd(a, b).1 == 1 && spec_egcd(a, b).2 == 0,
    decreases b,
{
    if b > 0 {
        let r = a % b;
        let q = a / b;
        lemma_egcd_bounds(b, r);
        lemma_fundamental_div_mod(a as int, b as int);
        let p = spec_egcd(b, r);
        let x1 = p.1;
        let y1 = p.2;
        assert(a == b * q + r);
        assert(r < b) by {
            lemma_mod_bound(a as int, b as int);
        }
        if r == 0 {
            assert(y1 == 0);
            assert(x1 - q * y1 == x1) by (nonlinear_arith)
                requires
                    y1 == 0,
            ;
        } else {
            assert(abs(x1) <= r);
            assert(abs(y1) <= b);
            assert(abs(q * y1) <= q * b) by (nonlinear_arith)
                requires
                    abs(y1) <= b,
                    q >= 0,
            ;
            assert(abs(x1 - q * y1) <= abs(x1) + abs(q * y1));
            assert(q * b + r == a) by (nonlinear_arith)
                requires
                    a == b * q + r,
            ;
        }
    }
}

/// A linear combination of multiples of `d` is a multiple of `d`.
pub proof fn lemma_divides_lin(d: int, x: int, y: int, k: int, l: int)
    requires
        d > 0,
        x % d == 0,
        y % d == 0,
    ensures
        (x * k + y * l) % d == 0,
{
    lemma_fundamental_div_mod(x, d);
    lemma_fundamental_div_mod(y, d);
    let i = x / d;
    let j = y / d;
    assert(x * k + y * l == (i * k + j * l) * d) by (nonlinear_arith)
        requires
            x == d * i + 0,
            y == d * j + 0,
    ;
    lemma_mod_multiples_basic(i * k + j * l, d);
}

/// A positive multiple of `d` is at least `d`.
pub proof fn lemma_divisor_le(d: nat, n: nat)
    requires
        d > 0,
        n > 0,
        n % d == 0,
    ensures
        d <= n,
{
    if n < d {
        lemma_small_mod(n, d);
    }
}

/// The gcd divides both arguments, and is zero only for `gcd(0, 0)`.
pub proof fn lemma_gcd_divides(a: nat, b: nat)
    ensures
        spec_gcd(a, b) == 0 <==> (a == 0 && b == 0),
        spec_gcd(a, b) > 0 ==> a % spec_gcd(a, b) == 0 && b % spec_gcd(a, b) == 0,
    decreases b,
{
    if b == 0 {
        if a > 0 {
            lemma_mod_self_0(a as int);
        }
    } else {
        let r = a % b;
        let q = a / b;
        lemma_gcd_divides(b, r);
        let g = spec_gcd(a, b);
        assert(g > 0);
        lemma_fundamental_div_mod(a as int, b as int);
        assert(a == b * q + r);
        lemma_divides_lin(g as int, b as int, r as int, q as int, 1);
        assert(b * q + r * 1 == a) by (nonlinear_arith)
            requires
                a == b * q + r,
        ;
    }
}

/// Every common divisor of `a` and `b` divides their gcd.
pub proof fn lemma_common_divisor_divides_gcd(a: nat, b: nat, d: nat)
    requires
        d > 0,
        a % d == 0,
        b % d == 0,
    ensures
        spec_gcd(a, b) % d == 0,
    decreases b,
{
    if b > 0 {
        let r = a % b;
        let q = a / b;
        lemma_fundamental_div_mod(a as int, b as int);
        lemma_divides_lin(d as int, a as int, b as int, 1, -q);
        assert(a * 1 + b * (-q) == r) by (nonlinear_arith)
            requires
                a == b * q + r,
        ;
        lemma_common_divisor_divides_gcd(b, r, d);
    }
}

/// The gcd is symmetric.
pub proof fn lemma_gcd_comm(a: nat, b: nat)
    ensures
        spec_gcd(a, b) == spec_gcd(b, a),
{
    lemma_gcd_divides(a, b);
    lemma_gcd_divides(b, a);
    let g1 = spec_gcd(a, b);
    let g2 = spec_gcd(b, a);
    if g1 > 0 {
        lemma_common_divisor_divides_gcd(b, a, g1);
        lemma_common_divisor_divides_gcd(a, b, g2);
        lemma_divisor_le(g1, g2);
        lemma_divisor_le(g2, g1);
    }
}

/// `gcd(n mod m, m) == gcd(n, m)`.
pub proof fn lemma_gcd_mod(n: nat, m: nat)
    requires
        m > 0,
    ensures
        spec_gcd(n % m, m) == spec_gcd(n, m),
{
    lemma_mod_twice(n as int, m as int);
    assert(spec_gcd(n % m, m) == spec_gcd(m, (n % m) % m));
    assert(spec_gcd(n, m) == spec_gcd(m, n % m));
}

/// `gcd(1, c) == 1`.
pub proof fn lemma_gcd_one(c: nat)
    ensures
        spec_gcd(1, c) == 1,
{
    lemma_gcd_divides(1, c);
    let g = spec_gcd(1, c);
    lemma_divisor_le(g, 1);
}

/// If `a` and `b` are both coprime to `c`, so is `a * b`.
pub proof fn lemma_coprime_mul(a: nat, b: nat, c: nat)
    requires
        spec_gcd(a, c) == 1,
        spec_gcd(b, c) == 1,
    ensures
        spec_gcd(a * b, c) == 1,
{
    let g = spec_gcd(a * b, c);
    lemma_gcd_divides(a * b, c);
    if g == 0 {
        assert(c == 0);
        assert(spec_gcd(a, 0) == a);
        assert(spec_gcd(b, 0) == b);
        assert(a * b == 1) by (nonlinear_arith)
            requires
                a == 1,
                b == 1,
        ;
    } else {
        lemma_bezout(a, c);
        lemma_egcd_gcd(a, c);
        let x = spec_egcd(a, c).1;
        let y = spec_egcd(a, c).2;
        assert(a * x + c * y == 1);
        assert((a * b) * x + c * (b * y) == b) by (nonlinear_arith)
            requires
                a * x + c * y == 1,
        ;
        lemma_divides_lin(g as int, (a * b) as int, c as int, x, b * y);
        assert(b % g == 0);
        lemma_common_divisor_divides_gcd(b, c, g);
        assert(1nat % g == 0);
        lemma_divisor_le(g, 1);
    }
}

/// Product of a sequence of numbers.
pub open spec fn seq_product(s: Seq<u64>) -> nat
    decreases s.len(),
{
    if s.len() == 0 {
        1
    } else {
        seq_product(s.drop_last()) * (s.last() as nat)
    }
}

/// The elements are in non-decreasing order.
pub open spec fn nondecreasing(s: Seq<u64>) -> bool {
    forall|i: int, j: int| 0 <= i <= j < s.len() ==> s[i] <= s[j]
}

/// The elements are in strictly increasing order.
pub open spec fn increasing(s: Seq<u64>) -> bool {
    forall|i: int, j: int| 0 <= i < j < s.len() ==> s[i] < s[j]
}

/// Every element is a prime number.
pub open spec fn all_prime(s: Seq<u64>) -> bool {
    forall|i: int| 0 <= i < s.len() ==> is_prime(#[trigger] s[i] as nat)
}

/// Divisibility is transitive.
pub proof fn lemma_divides_trans(a: nat, b: nat, c: nat)
    requires
        a > 0,
        b > 0,
        b % a == 0,
        c % b == 0,
    ensures
        c % a == 0,
{
    lemma_fundamental_div_mod(c as int, b as int);
    lemma_divides_lin(a as int, b as int, 0, c as int / b as int, 0);
    assert(b * (c as int / b as int) + 0 * 0 == c) by (nonlinear_arith)
        requires
            c == b * (c as int / b as int) + 0,
    ;
}

/// If `d` divides `m` and `e` divides `m / d`, then `e` divides `m`.
pub proof fn lemma_divides_quotient(m: nat, d: nat, e: nat)
    requires
        d > 0,
        e > 0,
        m % d == 0,
        (m / d) % e == 0,
    ensures
        m % e == 0,
{
    lemma_fundamental_div_mod(m as int, d as int);
    let q = m / d;
    lemma_divides_lin(e as int, q as int, 0, d as int, 0);
    assert(q * d + 0 * 0 == m) by (nonlinear_arith)
        requires
            m == d * q + 0,
    ;
}

/// A number `m >= 2` with no divisor `e` in `[2, m)` with `e * e <= m` is prime.
pub proof fn lemma_prime_from_small_divisors(m: nat)
    requires
        m >= 2,
        forall|e: nat| 2 <= e < m && e * e <= m ==> #[trigger] (m % e) != 0,
    ensures
        is_prime(m),
{
    assert forall|e: nat| 2 <= e < m implies #[trigger] (m % e) != 0 by {
        if m % e == 0 {
            if e * e > m {
                lemma_fundamental_div_mod(m as int, e as int);
                let f = m / e;
                assert(m == e * f);
                assert(f < e) by (nonlinear_arith)
                    requires
                        m == e * f,
                        e * e > m,
                        e > 0,
                ;
                assert(f >= 2) by (nonlinear_arith)
                    requires
                        m == e * f,
                        e < m,
                ;
                assert(f * f <= m) by (nonlinear_arith)
                    requires
                        m == e * f,
                        f < e,
                ;
                lemma_mod_multiples_basic(e as int, f as int);
                assert((e * f) % f == 0) by (nonlinear_arith)
                    requires
                        (e as int * f as int) % (f as int) == 0,
                ;
                assert(m % f == 0);
            }
        }
    }
}

/// Euclid's lemma: a prime dividing a product divides one of the factors.
pub proof fn lemma_euclid(q: nat, d: nat, x: nat)
    requires
        is_prime(q),
        (d * x) % q == 0,
        d % q != 0,
    ensures
        x % q == 0,
{
    // gcd(d, q) divides the prime q, and it is not q since q does not divide d.
    lemma_gcd_divides(d, q);
    let g = spec_gcd(d, q);
    assert(g > 0);
    if g != 1 {
        lemma_divisor_le(g, q);
        if g < q {
            assert(q % g == 0);
        }
        assert(g == q);
        assert(false);
    }
    lemma_bezout(d, q);
    lemma_egcd_gcd(d, q);
    let s = spec_egcd(d, q).1;
    let t = spec_egcd(d, q).2;
    assert((d * x) * s + q * (x * t) == x) by (nonlinear_arith)
        requires
            d * s + q * t == 1,
    ;
    lemma_mod_self_0(q as int);
    lemma_divides_lin(q as int, (d * x) as int, q as int, s, x * t);
}

} // verus!
