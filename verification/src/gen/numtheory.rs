//! Number theory generators: primes, factorization, modular arithmetic, CRT,
//! primitive roots.

use vstd::prelude::*;
use vstd::arithmetic::div_mod::{
    lemma_fundamental_div_mod, lemma_mod_self_0, lemma_mod_multiples_basic, lemma_mod_add_multiples_vanish, lemma_mod_bound,
    lemma_mod_multiples_vanish, lemma_mod_twice, lemma_mul_mod_noop_right, lemma_sub_mod_noop,
};
use vstd::arithmetic::power::pow;
use num_modular::{ModularCoreOps, ModularPow, ModularUnaryOps};
use rand::rngs::StdRng;

use super::arith::{
    abs, all_prime, is_prime, lemma_bezout, lemma_divides_quotient, lemma_divides_trans, lemma_divisor_le, lemma_euclid, increasing,
    lemma_egcd_bounds, lemma_egcd_gcd, lemma_gcd_mod, lemma_prime_from_small_divisors, max1,
    nondecreasing, seq_product, spec_egcd, spec_gcd,
};
use super::congruence::{
    crt_fits, crt_inv, lemma_product_push, crt_n, crt_solvable, crt_sum, crt_term, crt_value, lemma_crt_n_coprime,
    lemma_crt_solves, lemma_prefix_product_le, lemma_product_positive,
};
use super::Generator;
use crate::text::{dec, u64_to_string};

verus! {

// ---------------------------------------------------------------------------
// Modular arithmetic (num_modular)
// ---------------------------------------------------------------------------

/// `num_modular`'s `addm` on `u64`: `(a + b) mod m`, computed in `u128`; panics for `m == 0`.
#[verifier::external_body]
fn addm_u64(a: u64, b: u64, m: u64) -> (r: u64)
    requires
        m > 0,
    ensures
        r == (a + b) % (m as int),
{
    a.addm(b, &m)
}

/// `num_modular`'s `subm` on `u64`: the difference reduced into `[0, m)`; panics for `m == 0`.
#[verifier::external_body]
fn subm_u64(a: u64, b: u64, m: u64) -> (r: u64)
    requires
        m > 0,
    ensures
        r == (a - b) % (m as int),
{
    a.subm(b, &m)
}

/// `num_modular`'s `mulm` on `u64`: `(a * b) mod m`, computed in `u128`; panics for `m == 0`.
#[verifier::external_body]
fn mulm_u64(a: u64, b: u64, m: u64) -> (r: u64)
    requires
        m > 0,
    ensures
        r == (a * b) % (m as int),
{
    a.mulm(b, &m)
}

/// `num_modular`'s `powm` on `u64`: binary exponentiation of `base mod m`, giving
/// `base^exp mod m` (and `1 mod m` for `exp == 0`); panics for `m == 0`.
#[verifier::external_body]
fn powm_u64(base: u64, exp: u64, m: u64) -> (r: u64)
    requires
        m > 0,
    ensures
        r == pow(base as int, exp as nat) % (m as int),
{
    base.powm(exp, &m)
}

/// `num_modular`'s `invm` on `u64`: extended Euclid on `(m, a mod m)`; `None` when the gcd
/// is not 1, otherwise the inverse in `[0, m)`; panics for `m == 0`.
#[verifier::external_body]
fn invm_u64(a: u64, m: u64) -> (r: Option<u64>)
    requires
        m > 0,
    ensures
        r is Some <==> spec_gcd((a % m) as nat, m as nat) == 1,
        r matches Some(v) ==> v < m && (a * v) % (m as int) == 1int % (m as int),
{
    a.invm(&m)
}

/// Input selector for a single modular operation.
#[derive(Debug, Clone, Copy)]
pub enum ModularOp {
    Add(u64, u64, u64),
    Sub(u64, u64, u64),
    Mul(u64, u64, u64),
    Pow(u64, u64, u64),
    Inv(u64, u64),
}

/// Perform one modular arithmetic operation.
pub struct ModularGen {
    op: ModularOp,
}

/// The message of a failed modular inversion.
pub open spec fn not_invertible_msg(a: u64, m: u64) -> Seq<char> {
    dec(a as nat) + " is not invertible modulo "@ + dec(m as nat)
}

/// The modulus of an operation.
pub open spec fn op_modulus(op: ModularOp) -> u64 {
    match op {
        ModularOp::Add(_, _, m) => m,
        ModularOp::Sub(_, _, m) => m,
        ModularOp::Mul(_, _, m) => m,
        ModularOp::Pow(_, _, m) => m,
        ModularOp::Inv(_, m) => m,
    }
}

impl ModularGen {
    /// The operation this generator performs.
    pub closed spec fn op(self) -> ModularOp {
        self.op
    }

    #[verifier::type_invariant]
    closed spec fn modulus_positive(self) -> bool {
        op_modulus(self.op) > 0
    }

    pub fn new(op: ModularOp) -> (g: Self)
        requires
            op_modulus(op) > 0,
        ensures
            g.op() == op,
    {
        Self { op }
    }

    /// `(a + b) mod m`
    pub fn add(a: u64, b: u64, m: u64) -> (r: u64)
        requires
            m > 0,
        ensures
            r == (a + b) % (m as int),
    {
        addm_u64(a, b, m)
    }

    /// `(a - b) mod m`  (result normalized to `[0, m)`)
    pub fn sub(a: u64, b: u64, m: u64) -> (r: u64)
        requires
            m > 0,
        ensures
            r == (a - b) % (m as int),
            r < m,
    {
        proof {
            lemma_mod_bound(a - b, m as int);
        }
        subm_u64(a, b, m)
    }

    /// `(a * b) mod m`
    pub fn mul(a: u64, b: u64, m: u64) -> (r: u64)
        requires
            m > 0,
        ensures
            r == (a * b) % (m as int),
    {
        mulm_u64(a, b, m)
    }

    /// `(base ^ exp) mod m`
    pub fn pow(base: u64, exp: u64, m: u64) -> (r: u64)
        requires
            m > 0,
        ensures
            r == pow(base as int, exp as nat) % (m as int),
    {
        powm_u64(base, exp, m)
    }

    /// Modular inverse of `a` modulo `m`.
    ///
    /// Returns `Err(reason)` when `a` and `m` are not coprime.
    pub fn inv(a: u64, m: u64) -> (r: Result<u64, String>)
        requires
            m > 0,
        ensures
            r is Ok <==> spec_gcd(a as nat, m as nat) == 1,
            r matches Ok(v) ==> v < m && (a * v) % (m as int) == 1int % (m as int),
            r matches Err(msg) ==> msg@ == not_invertible_msg(a, m),
    {
        proof {
            lemma_gcd_mod(a as nat, m as nat);
        }
        match invm_u64(a, m) {
            Some(v) => Ok(v),
            None => {
                let mut msg = u64_to_string(a);
                msg.append(" is not invertible modulo ");
                let ms = u64_to_string(m);
                msg.append(ms.as_str());
                Err(msg)
            },
        }
    }
}

/// `r` is what the modular operation `op` evaluates to (for a positive modulus).
pub open spec fn modular_outcome(op: ModularOp, r: Result<u64, String>) -> bool {
    match op {
        ModularOp::Add(a, b, m) => r == Ok::<u64, String>(((a + b) % (m as int)) as u64),
        ModularOp::Sub(a, b, m) => r == Ok::<u64, String>(((a - b) % (m as int)) as u64),
        ModularOp::Mul(a, b, m) => r == Ok::<u64, String>(((a * b) % (m as int)) as u64),
        ModularOp::Pow(b, e, m) => r == Ok::<u64, String>(
            (pow(b as int, e as nat) % (m as int)) as u64,
        ),
        ModularOp::Inv(a, m) => {
            &&& (r is Ok <==> spec_gcd(a as nat, m as nat) == 1)
            &&& (r matches Ok(v) ==> v < m && (a * v) % (m as int) == 1int % (m as int))
            &&& (r matches Err(msg) ==> msg@ == not_invertible_msg(a, m))
        },
    }
}

impl Generator for ModularGen {
    type Output = Result<u64, String>;

    fn generate(&mut self, _rng: &mut StdRng) -> (r: Result<u64, String>)
        ensures
            modular_outcome(old(self).op(), r),
            *final(self) == *old(self),
    {
        proof {
            use_type_invariant(&*self);
        }
        match self.op {
            ModularOp::Add(a, b, m) => Ok(Self::add(a, b, m)),
            ModularOp::Sub(a, b, m) => Ok(Self::sub(a, b, m)),
            ModularOp::Mul(a, b, m) => Ok(Self::mul(a, b, m)),
            ModularOp::Pow(b, e, m) => Ok(Self::pow(b, e, m)),
            ModularOp::Inv(a, m) => Self::inv(a, m),
        }
    }
}

// ---------------------------------------------------------------------------
// Extended Euclid, modular inverse, gcd
// ---------------------------------------------------------------------------

/// Extended Euclidean algorithm — returns `(gcd, x, y)` where `ax + by = gcd`.
pub fn egcd(a: i128, b: i128) -> (r: (i128, i128, i128))
    requires
        0 <= a <= u64::MAX,
        0 <= b <= u64::MAX,
    ensures
        r.0 == spec_egcd(a as nat, b as nat).0,
        r.1 == spec_egcd(a as nat, b as nat).1,
        r.2 == spec_egcd(a as nat, b as nat).2,
    decreases b,
{
    if b == 0 {
        (a, 1, 0)
    } else {
        let (g, x, y) = egcd(b, a % b);
        proof {
            lemma_egcd_bounds(b as nat, (a % b) as nat);
            lemma_fundamental_div_mod(a as int, b as int);
            lemma_mod_bound(a as int, b as int);
            let q = a / b;
            assert(q * b <= a) by (nonlinear_arith)
                requires
                    a == b * q + a % b,
                    a % b >= 0,
            ;
            assert(abs(q * y) <= q * b) by (nonlinear_arith)
                requires
                    abs(y as int) <= b,
                    q >= 0,
            ;
        }
        (g, y, x - (a / b) * y)
    }
}

/// Modular inverse using extended Euclidean algorithm.
pub fn mod_inv(a: u64, m: u64) -> (r: Option<u64>)
    requires
        !(m == 0 && a == 1),
    ensures
        r is Some <==> spec_gcd(a as nat, m as nat) == 1,
        r matches Some(v) ==> {
            &&& v < m
            &&& v == spec_egcd(a as nat, m as nat).1 % (m as int)
            &&& (a * v) % (m as int) == 1int % (m as int)
        },
{
    let (g, x, _) = egcd(a as i128, m as i128);
    proof {
        lemma_egcd_gcd(a as nat, m as nat);
    }
    if g != 1 {
        return None;
    }
    let mm = m as i128;
    proof {
        lemma_egcd_bounds(a as nat, m as nat);
        lemma_bezout(a as nat, m as nat);
        assert(m > 0);
    }
    let t = x % mm;
    let v = (t + mm) % mm;
    proof {
        let xi = x as int;
        let mi = m as int;
        if xi >= 0 {
            lemma_mod_add_multiples_vanish(t as int, mi);
            lemma_mod_twice(xi, mi);
        } else {
            let s = (-xi) % mi;
            assert(t == -s);
            lemma_sub_mod_noop(0, -xi, mi);
            assert(0int % mi == 0);
            lemma_mod_add_multiples_vanish(-s, mi);
        }
        assert(v == xi % mi);
        let y = spec_egcd(a as nat, m as nat).2;
        assert(a * xi + mi * y == 1);
        lemma_mod_multiples_vanish(-y, 1, mi);
        assert(a * xi == mi * (-y) + 1) by (nonlinear_arith)
            requires
                a * xi + mi * y == 1,
        ;
        lemma_mul_mod_noop_right(a as int, xi, mi);
        lemma_mod_bound(xi, mi);
    }
    Some(v as u64)
}

/// Greatest common divisor.
pub fn gcd(a: u64, b: u64) -> (g: u64)
    ensures
        g == spec_gcd(a as nat, b as nat),
    decreases b,
{
    if b == 0 {
        a
    } else {
        gcd(b, a % b)
    }
}

// ---------------------------------------------------------------------------
// Factorization
// ---------------------------------------------------------------------------

/// `factors` is the prime factorization of `n`, smallest factor first.
pub open spec fn is_factorization(n: nat, factors: Seq<u64>) -> bool {
    &&& nondecreasing(factors)
    &&& all_prime(factors)
    &&& seq_product(factors) == n
}


/// Trial division for `n ≤ 10^6`.
pub fn trial_division(n: u64) -> (factors: Vec<u64>)
    requires
        2 <= n <= 1_000_000,
    ensures
        is_factorization(n as nat, factors@),
{
    let ghost n0 = n as nat;
    let mut n = n;
    let mut factors: Vec<u64> = Vec::new();
    assert(seq_product(factors@) == 1);
    while n % 2 == 0
        invariant
            1 <= n <= n0,
            seq_product(factors@) * (n as nat) == n0,
            forall|i: int| 0 <= i < factors.len() ==> factors@[i] == 2,
        decreases n,
    {
        proof {
            lemma_product_push(factors@, 2);
            lemma_fundamental_div_mod(n as int, 2);
            assert(seq_product(factors@) * 2 * ((n / 2) as nat) == n0) by (nonlinear_arith)
                requires
                    seq_product(factors@) * (n as nat) == n0,
                    n == 2 * (n / 2) + 0,
            ;
        }
        factors.push(2);
        n = n / 2;
    }
    proof {
        assert(is_prime(2));
        assert(nondecreasing(factors@));
        assert(all_prime(factors@));
    }
    let mut d: u64 = 3;
    while d * d <= n
        invariant
            1 <= n <= n0 <= 1_000_000,
            3 <= d <= 1002,
            d * d <= 1002 * 1002,
            d % 2 == 1,
            seq_product(factors@) * (n as nat) == n0,
            nondecreasing(factors@),
            all_prime(factors@),
            forall|i: int| 0 <= i < factors.len() ==> factors@[i] < d,
            forall|e: nat| 2 <= e < d ==> #[trigger] ((n as nat) % e) != 0,
        decreases 1002 - d,
    {
        assert(d <= 1000) by (nonlinear_arith)
            requires
                d * d <= n,
                n <= 1_000_000,
        ;
        // d is prime once it divides n: a smaller divisor of d would divide n.
        while n % d == 0
            invariant
                1 <= n <= n0 <= 1_000_000,
                3 <= d <= 1000,
                seq_product(factors@) * (n as nat) == n0,
                nondecreasing(factors@),
                all_prime(factors@),
                forall|i: int| 0 <= i < factors.len() ==> factors@[i] <= d,
                forall|e: nat| 2 <= e < d ==> #[trigger] ((n as nat) % e) != 0,
            decreases n,
        {
            proof {
                assert forall|e: nat| 2 <= e < d implies #[trigger] ((d as nat) % e) != 0 by {
                    if (d as nat) % e == 0 {
                        lemma_divides_trans(e, d as nat, n as nat);
                    }
                }
                assert(is_prime(d as nat));
                lemma_product_push(factors@, d);
                lemma_fundamental_div_mod(n as int, d as int);
                assert forall|e: nat| 2 <= e < d implies #[trigger] (((n / d) as nat) % e) != 0 by {
                    if ((n / d) as nat) % e == 0 {
                        lemma_divides_quotient(n as nat, d as nat, e);
                    }
                }
                assert(seq_product(factors@) * (d as nat) * ((n / d) as nat) == n0) by (nonlinear_arith)
                    requires
                        seq_product(factors@) * (n as nat) == n0,
                        n == d * (n / d) + 0,
                ;
            }
            proof {
                vstd::arithmetic::div_mod::lemma_div_is_strictly_smaller(n as int, d as int);
                lemma_divisor_le(d as nat, n as nat);
                assert(n / d >= 1) by (nonlinear_arith)
                    requires
                        n >= d,
                        d > 0,
                ;
            }
            factors.push(d);
            n = n / d;
        }
        proof {
            assert forall|e: nat| 2 <= e < d + 2 implies #[trigger] ((n as nat) % e) != 0 by {
                if e == d + 1 && (n as nat) % e == 0 {
                    lemma_divides_trans(2, e, n as nat);
                }
            }
        }
        d = d + 2;
        assert(d * d <= 1002 * 1002) by (nonlinear_arith)
            requires
                d <= 1002,
        ;
    }
    if n > 1 {
        proof {
            assert forall|e: nat| 2 <= e < n && e * e <= n implies #[trigger] ((n as nat) % e) != 0 by {
                if e >= d {
                    assert(e * e >= d * d) by (nonlinear_arith)
                        requires
                            e >= d,
                            d >= 0,
                    ;
                }
            }
            lemma_prime_from_small_divisors(n as nat);
            if n < d {
                lemma_mod_self_0(n as int);
            }
            lemma_product_push(factors@, n);
        }
        factors.push(n);
    }
    factors
}

/// `num_prime`'s `factorize64`: the prime factorization of `n` as a map from each prime
/// factor to its exponent, here listed in increasing order of the primes.
#[verifier::external_body]
fn factorize64_pairs(n: u64) -> (pairs: Vec<(u64, usize)>)
    requires
        n >= 2,
    ensures
        forall|i: int| 0 <= i < pairs.len() ==> is_prime(#[trigger] pairs@[i].0 as nat),
        forall|i: int| 0 <= i < pairs.len() ==> #[trigger] pairs@[i].1 >= 1,
        forall|i: int, j: int| 0 <= i < j < pairs.len() ==> pairs@[i].0 < pairs@[j].0,
        pairs_product(pairs@) == n,
{
    num_prime::nt_funcs::factorize64(n).into_iter().collect()
}

/// Product of `p^k` over a list of `(p, k)` pairs.
pub open spec fn pairs_product(s: Seq<(u64, usize)>) -> nat
    decreases s.len(),
{
    if s.len() == 0 {
        1
    } else {
        pairs_product(s.drop_last()) * (pow(s.last().0 as int, s.last().1 as nat) as nat)
    }
}

/// Sorts in increasing order (`slice::sort_unstable`).
#[verifier::external_body]
fn sort_u64(v: &mut Vec<u64>)
    ensures
        nondecreasing(final(v)@),
        final(v)@.to_multiset() == old(v)@.to_multiset(),
{
    v.sort_unstable()
}

/// Internal factorization routine.
fn factorize(n: u64) -> (factors: Vec<u64>)
    ensures
        n <= 1 ==> factors@.len() == 0,
        n >= 2 ==> is_factorization(n as nat, factors@),
{
    if n <= 1 {
        return Vec::new();
    }
    if n <= 1_000_000 {
        trial_division(n)
    } else {
        let pairs = factorize64_pairs(n);
        let mut result: Vec<u64> = Vec::new();
        let mut i: usize = 0;
        while i < pairs.len()
            invariant
                0 <= i <= pairs.len(),
                forall|k: int| 0 <= k < pairs.len() ==> is_prime(#[trigger] pairs@[k].0 as nat),
                forall|k: int, j: int| 0 <= k < j < pairs.len() ==> pairs@[k].0 < pairs@[j].0,
                seq_product(result@) == pairs_product(pairs@.subrange(0, i as int)),
                nondecreasing(result@),
                all_prime(result@),
                i > 0 ==> forall|k: int| 0 <= k < result.len() ==> result@[k] <= pairs@[i - 1].0,
                i == 0 ==> result.len() == 0,
            decreases pairs.len() - i,
        {
            let p = pairs[i].0;
            let k = pairs[i].1;
            let ghost before = seq_product(result@);
            let mut j: usize = 0;
            proof {
                reveal(pow);
                assert(pow(p as int, 0) == 1);
            }
            while j < k
                invariant
                    0 <= j <= k,
                    p == pairs@[i as int].0,
                    is_prime(p as nat),
                    seq_product(result@) == before * (pow(p as int, j as nat) as nat),
                    nondecreasing(result@),
                    all_prime(result@),
                    forall|t: int| 0 <= t < result.len() ==> result@[t] <= p,
                decreases k - j,
            {
                proof {
                    lemma_product_push(result@, p);
                    vstd::arithmetic::power::lemma_pow_positive(p as int, j as nat);
                    reveal(pow);
                    assert(pow(p as int, (j + 1) as nat) == p * pow(p as int, j as nat));
                    assert(before * (pow(p as int, j as nat) as nat) * (p as nat) == before * (pow(
                        p as int,
                        (j + 1) as nat,
                    ) as nat)) by (nonlinear_arith)
                        requires
                            pow(p as int, (j + 1) as nat) == p * pow(p as int, j as nat),
                            pow(p as int, j as nat) > 0,
                    ;
                }
                result.push(p);
                j = j + 1;
            }
            proof {
                let s = pairs@.subrange(0, i as int + 1);
                assert(s.drop_last() =~= pairs@.subrange(0, i as int));
                assert(s.last() == pairs@[i as int]);
            }
            i = i + 1;
        }
        proof {
            assert(pairs@.subrange(0, pairs.len() as int) =~= pairs@);
        }
        let ghost unsorted = result@;
        sort_u64(&mut result);
        proof {
            let leq = |a: u64, b: u64| a <= b;
            assert(vstd::relations::sorted_by(unsorted, leq));
            assert(vstd::relations::sorted_by(result@, leq));
            assert(vstd::relations::total_ordering(leq));
            vstd::seq_lib::lemma_sorted_unique(unsorted, result@, leq);
        }
        result
    }
}

/// Factorize a positive integer into its prime factors (with multiplicity).
///
/// Uses trial division for `n ≤ 10^6`, otherwise delegates to
/// `num_prime::nt_funcs::factorize64` (Pollard–Rho etc.).
pub struct FactorGen {
    n: u64,
}

impl FactorGen {
    /// The number this generator factorizes.
    pub closed spec fn n(self) -> u64 {
        self.n
    }

    pub fn new(n: u64) -> (g: Self)
        ensures
            g.n() == n,
    {
        Self { n }
    }
}

impl Generator for FactorGen {
    type Output = Vec<u64>;

    fn generate(&mut self, _rng: &mut StdRng) -> (factors: Vec<u64>)
        ensures
            *final(self) == *old(self),
            old(self).n() <= 1 ==> factors@.len() == 0,
            old(self).n() >= 2 ==> is_factorization(old(self).n() as nat, factors@),
    {
        factorize(self.n)
    }
}

// ---------------------------------------------------------------------------
// Primality, distinct prime factors, primitive roots
// ---------------------------------------------------------------------------

/// `num_prime`'s `is_prime64`: a deterministic primality test for 64-bit integers
/// (small-prime table, wheel, then Miller–Rabin with bases that are exact below 2^64).
#[verifier::external_body]
fn is_prime64(n: u64) -> (b: bool)
    ensures
        b == is_prime(n as nat),
{
    num_prime::nt_funcs::is_prime64(n)
}

/// `factors` lists, in increasing order, exactly the distinct primes that divide `n`.
pub open spec fn is_distinct_prime_factors(n: nat, factors: Seq<u64>) -> bool {
    &&& increasing(factors)
    &&& all_prime(factors)
    &&& forall|i: int| 0 <= i < factors.len() ==> n % (#[trigger] factors[i] as nat) == 0
    &&& forall|q: nat| #[trigger] is_prime(q) && n % q == 0 ==> factors.contains(q as u64)
}

/// A prime that divides a prime is that prime.
proof fn lemma_prime_divides_prime(q: nat, d: nat)
    requires
        is_prime(q),
        is_prime(d),
        d % q == 0,
    ensures
        q == d,
{
    lemma_divisor_le(q, d);
}

proof fn lemma_contains_push(s: Seq<u64>, x: u64)
    ensures
        s.push(x).contains(x),
        forall|y: u64| s.contains(y) ==> #[trigger] s.push(x).contains(y),
{
    assert(s.push(x)[s.len() as int] == x);
    assert forall|y: u64| s.contains(y) implies #[trigger] s.push(x).contains(y) by {
        let k = choose|k: int| 0 <= k < s.len() && s[k] == y;
        assert(s.push(x)[k] == y);
    }
}

/// Dividing `n` by a prime factor `d` keeps every other prime factor of `n`.
proof fn lemma_other_prime_factor_stays(n: nat, d: nat, q: nat)
    requires
        is_prime(d),
        is_prime(q),
        q != d,
        n % d == 0,
        n % q == 0,
    ensures
        (n / d) % q == 0,
{
    lemma_fundamental_div_mod(n as int, d as int);
    if d % q == 0 {
        lemma_prime_divides_prime(q, d);
    }
    assert((d * (n / d)) % q == 0);
    lemma_euclid(q, d, n / d);
}

/// Dividing a divisor of `n0` by one of its divisors keeps a divisor of `n0`.
proof fn lemma_quotient_divides(n0: nat, n: nat, d: nat)
    requires
        d > 0,
        n > 0,
        n % d == 0,
        n0 % n == 0,
    ensures
        n / d >= 1,
        n0 % (n / d) == 0,
{
    lemma_fundamental_div_mod(n as int, d as int);
    let m = n / d;
    lemma_divisor_le(d, n);
    assert(m >= 1) by (nonlinear_arith)
        requires
            n == d * m + 0,
            n > 0,
    ;
    lemma_mod_multiples_basic(d as int, m as int);
    assert(n % m == 0) by (nonlinear_arith)
        requires
            n == d * m + 0,
            ((d as int) * (m as int)) % (m as int) == 0,
    ;
    lemma_divides_trans(m, n, n0);
}

/// Return the unique prime factors of `n` (no multiplicity).
pub fn unique_prime_factors(n: u64) -> (factors: Vec<u64>)
    requires
        n >= 1,
    ensures
        is_distinct_prime_factors(n as nat, factors@),
{
    let ghost n0 = n as nat;
    let mut n = n;
    let mut factors: Vec<u64> = Vec::new();
    if n % 2 == 0 {
        proof {
            assert(is_prime(2));
            lemma_contains_push(factors@, 2);
        }
        factors.push(2);
        while n % 2 == 0
            invariant
                1 <= n <= n0,
                n0 % (n as nat) == 0,
                factors@ == seq![2u64],
                forall|q: nat|
                    #[trigger] is_prime(q) && n0 % q == 0 ==> factors@.contains(q as u64) || (
                    n as nat) % q == 0,
            decreases n,
        {
            proof {
                assert forall|q: nat| #[trigger] is_prime(q) && n0 % q == 0 implies factors@.contains(
                    q as u64,
                ) || ((n / 2) as nat) % q == 0 by {
                    if q != 2 && (n as nat) % q == 0 {
                        lemma_other_prime_factor_stays(n as nat, 2, q);
                    }
                    if q == 2 {
                        assert(factors@[0] == 2u64);
                    }
                }
                lemma_quotient_divides(n0, n as nat, 2);
                vstd::arithmetic::div_mod::lemma_div_is_strictly_smaller(n as int, 2);
            }
            n = n / 2;
        }
    }
    assert(n % 2 != 0);
    assert(increasing(factors@));
    assert(all_prime(factors@)) by {
        if factors.len() > 0 {
            assert(is_prime(2));
        }
    }
    let mut d: u64 = 3;
    while d <= n / d
        invariant
            1 <= n <= n0 <= u64::MAX,
            n0 % (n as nat) == 0,
            3 <= d <= n0 + 2,
            d % 2 == 1,
            increasing(factors@),
            all_prime(factors@),
            forall|i: int| 0 <= i < factors.len() ==> n0 % (#[trigger] factors@[i] as nat) == 0,
            forall|i: int| 0 <= i < factors.len() ==> #[trigger] factors@[i] < d,
            forall|e: nat| 2 <= e < d ==> #[trigger] ((n as nat) % e) != 0,
            forall|q: nat|
                #[trigger] is_prime(q) && n0 % q == 0 ==> factors@.contains(q as u64) || (n as nat)
                    % q == 0,
        decreases n0 + 2 - d,
    {
        proof {
            assert(d <= n0 && d * d <= n) by (nonlinear_arith)
                requires
                    d <= n / d,
                    n <= n0,
                    d >= 1,
            ;
            assert(d < 0x1_0000_0000) by (nonlinear_arith)
                requires
                    d * d <= n,
                    n <= u64::MAX,
            ;
        }
        if n % d == 0 {
            proof {
                assert forall|e: nat| 2 <= e < d implies #[trigger] ((d as nat) % e) != 0 by {
                    if (d as nat) % e == 0 {
                        lemma_divides_trans(e, d as nat, n as nat);
                    }
                }
                assert(is_prime(d as nat));
                lemma_divides_trans(d as nat, n as nat, n0);
                lemma_contains_push(factors@, d);
            }
            factors.push(d);
            while n % d == 0
                invariant
                    1 <= n <= n0,
                    n0 % (n as nat) == 0,
                    3 <= d,
                    is_prime(d as nat),
                    factors@.contains(d),
                    forall|e: nat| 2 <= e < d ==> #[trigger] ((n as nat) % e) != 0,
                    forall|q: nat|
                        #[trigger] is_prime(q) && n0 % q == 0 ==> factors@.contains(q as u64) || (
                        n as nat) % q == 0,
                decreases n,
            {
                proof {
                    let m = (n / d) as nat;
                    assert forall|q: nat| #[trigger] is_prime(q) && n0 % q == 0 implies factors@.contains(
                        q as u64,
                    ) || m % q == 0 by {
                        if !factors@.contains(q as u64) && q != d {
                            lemma_other_prime_factor_stays(n as nat, d as nat, q);
                        }
                    }
                    assert forall|e: nat| 2 <= e < d implies #[trigger] (m % e) != 0 by {
                        if m % e == 0 {
                            lemma_divides_quotient(n as nat, d as nat, e);
                        }
                    }
                    lemma_quotient_divides(n0, n as nat, d as nat);
                    vstd::arithmetic::div_mod::lemma_div_is_strictly_smaller(n as int, d as int);
                }
                n = n / d;
            }
        }
        proof {
            assert forall|e: nat| 2 <= e < d + 2 implies #[trigger] ((n as nat) % e) != 0 by {
                if e == d + 1 && (n as nat) % e == 0 {
                    lemma_divides_trans(2, e, n as nat);
                }
            }
        }
        d = d + 2;
    }
    if n > 1 {
        proof {
            lemma_fundamental_div_mod(n as int, d as int);
            assert(n < d * d) by (nonlinear_arith)
                requires
                    d > n / d,
                    n == d * (n / d) + n % d,
                    n % d < d,
            ;
            assert forall|e: nat| 2 <= e < n && e * e <= n implies #[trigger] ((n as nat) % e) != 0 by {
                if e >= d {
                    assert(e * e >= d * d) by (nonlinear_arith)
                        requires
                            e >= d,
                            d >= 0,
                    ;
                }
            }
            lemma_prime_from_small_divisors(n as nat);
            if n < d {
                lemma_mod_self_0(n as int);
            }
            lemma_contains_push(factors@, n);
            assert forall|q: nat| #[trigger] is_prime(q) && n0 % q == 0 implies factors@.push(
                n,
            ).contains(q as u64) by {
                if !factors@.contains(q as u64) {
                    lemma_prime_divides_prime(q, n as nat);
                }
            }
        }
        factors.push(n);
    } else {
        proof {
            assert forall|q: nat| #[trigger] is_prime(q) && n0 % q == 0 implies factors@.contains(
                q as u64,
            ) by {
                if (n as nat) % q == 0 {
                    lemma_divisor_le(q, 1);
                }
            }
        }
    }
    factors
}

/// `g` passes the primitive-root test modulo `p`: for every prime `q` dividing `p - 1`,
/// `g^((p-1)/q) mod p` is not 1.
pub open spec fn passes_root_test(g: nat, p: nat) -> bool {
    forall|q: nat|
        #[trigger] is_prime(q) && ((p - 1) as nat) % q == 0 ==> pow(g as int, ((p - 1) as nat / q) as nat)
            % (p as int) != 1
}

/// Does `g` pass the test against every listed prime factor of `phi = p - 1`?
fn passes_all(g: u64, p: u64, phi: u64, factors: &Vec<u64>) -> (b: bool)
    requires
        p >= 3,
        phi == p - 1,
        is_distinct_prime_factors(phi as nat, factors@),
    ensures
        b == passes_root_test(g as nat, p as nat),
{
    let mut i: usize = 0;
    while i < factors.len()
        invariant
            0 <= i <= factors.len(),
            p >= 3,
            phi == p - 1,
            is_distinct_prime_factors(phi as nat, factors@),
            forall|k: int|
                0 <= k < i ==> pow(g as int, ((phi / #[trigger] factors@[k]) as nat)) % (p as int)
                    != 1,
        decreases factors.len() - i,
    {
        let q = factors[i];
        proof {
            assert(is_prime(q as nat));
        }
        if ModularGen::pow(g, phi / q, p) == 1 {
            proof {
                assert(is_prime(q as nat) && (phi as nat) % (q as nat) == 0);
            }
            return false;
        }
        i = i + 1;
    }
    proof {
        assert forall|q: nat| #[trigger] is_prime(q) && ((p - 1) as nat) % q == 0 implies pow(
            g as int,
            ((p - 1) as nat / q) as nat,
        ) % (p as int) != 1 by {
            assert((phi as nat) % q == 0);
            lemma_divisor_le(q, phi as nat);
            assert(is_prime(q) && (phi as nat) % q == 0);
            assert(factors@.contains(q as u64));
            let k = choose|k: int| 0 <= k < factors.len() && factors@[k] == q as u64;
            assert(pow(g as int, ((phi / factors@[k]) as nat)) % (p as int) != 1);
            assert(factors@[k] as nat == q);
        }
    }
    true
}

fn primitive_root(p: u64) -> (r: Option<u64>)
    ensures
        !is_prime(p as nat) ==> r is None,
        p == 2 ==> r == Some(1u64),
        is_prime(p as nat) && p > 2 ==> match r {
            Some(g) => {
                &&& 2 <= g < p
                &&& passes_root_test(g as nat, p as nat)
                &&& forall|h: nat| 2 <= h < g ==> !#[trigger] passes_root_test(h, p as nat)
            },
            None => forall|h: nat| 2 <= h < p ==> !#[trigger] passes_root_test(h, p as nat),
        },
{
    if !is_prime64(p) || p < 2 {
        return None;
    }
    if p == 2 {
        return Some(1);
    }
    let phi = p - 1;
    let factors = unique_prime_factors(phi);
    let mut g: u64 = 2;
    while g < p
        invariant
            2 <= g <= p,
            p >= 3,
            is_prime(p as nat),
            phi == p - 1,
            is_distinct_prime_factors(phi as nat, factors@),
            forall|h: nat| 2 <= h < g ==> !#[trigger] passes_root_test(h, p as nat),
        decreases p - g,
    {
        if passes_all(g, p, phi, &factors) {
            return Some(g);
        }
        g = g + 1;
    }
    None
}

/// Find the smallest primitive root modulo a prime `p`.
pub struct PrimitiveRootGen {
    p: u64,
}

impl PrimitiveRootGen {
    /// The modulus.
    pub closed spec fn p(self) -> u64 {
        self.p
    }

    pub fn new(p: u64) -> (g: Self)
        ensures
            g.p() == p,
    {
        Self { p }
    }

    /// Returns the smallest primitive root modulo `p`, or `None` if `p` is not prime.
    pub fn find_root(p: u64) -> (r: Option<u64>)
        ensures
            !is_prime(p as nat) ==> r is None,
            p == 2 ==> r == Some(1u64),
            is_prime(p as nat) && p > 2 ==> match r {
                Some(g) => {
                    &&& 2 <= g < p
                    &&& passes_root_test(g as nat, p as nat)
                    &&& forall|h: nat| 2 <= h < g ==> !#[trigger] passes_root_test(h, p as nat)
                },
                None => forall|h: nat| 2 <= h < p ==> !#[trigger] passes_root_test(h, p as nat),
            },
    {
        primitive_root(p)
    }
}

impl Generator for PrimitiveRootGen {
    type Output = Option<u64>;

    fn generate(&mut self, _rng: &mut StdRng) -> (r: Option<u64>)
        ensures
            *final(self) == *old(self),
            !is_prime(old(self).p() as nat) ==> r is None,
            old(self).p() == 2 ==> r == Some(1u64),
            is_prime(old(self).p() as nat) && old(self).p() > 2 ==> match r {
                Some(g) => {
                    &&& 2 <= g < old(self).p()
                    &&& passes_root_test(g as nat, old(self).p() as nat)
                    &&& forall|h: nat|
                        2 <= h < g ==> !#[trigger] passes_root_test(h, old(self).p() as nat)
                },
                None => forall|h: nat|
                    2 <= h < old(self).p() ==> !#[trigger] passes_root_test(h, old(self).p() as nat),
            },
    {
        primitive_root(self.p)
    }
}

// ---------------------------------------------------------------------------
// PrimeGen — primes in a range
// ---------------------------------------------------------------------------

/// The primes in `[lo, k)`, in increasing order.
pub open spec fn primes_below(lo: nat, k: nat) -> Seq<u64>
    decreases k,
{
    if k <= lo {
        seq![]
    } else {
        let rest = primes_below(lo, (k - 1) as nat);
        if is_prime((k - 1) as nat) {
            rest.push((k - 1) as u64)
        } else {
            rest
        }
    }
}

/// The primes in `[lo, hi]`, in increasing order.
pub open spec fn primes_in(lo: nat, hi: nat) -> Seq<u64> {
    primes_below(lo, hi + 1)
}

/// There are no primes below 2.
proof fn lemma_primes_below_two(lo: nat, k: nat)
    requires
        k <= 2,
    ensures
        primes_below(lo, k) == Seq::<u64>::empty(),
    decreases k,
{
    if k > lo {
        lemma_primes_below_two(lo, (k - 1) as nat);
    }
}

/// Starting the range below 2 changes nothing.
proof fn lemma_primes_below_from_two(lo: nat, k: nat)
    requires
        lo < 2,
    ensures
        primes_below(lo, k) == primes_below(2, k),
    decreases k,
{
    if k <= 2 {
        lemma_primes_below_two(lo, k);
        lemma_primes_below_two(2, k);
    } else {
        lemma_primes_below_from_two(lo, (k - 1) as nat);
    }
}

/// `j` survives sieving by every `d < i` with `d * d <= j`.
pub open spec fn sieved(j: nat, i: nat) -> bool {
    &&& j >= 2
    &&& forall|d: nat| 2 <= d < i && d * d <= j ==> #[trigger] (j % d) != 0
}

/// Once every `d` with `d * d <= j` has been tried, sieving decides primality.
proof fn lemma_sieved_prime(j: nat, i: nat)
    requires
        j < i * i,
    ensures
        sieved(j, i) == is_prime(j),
{
    if sieved(j, i) {
        assert forall|e: nat| 2 <= e < j && e * e <= j implies #[trigger] (j % e) != 0 by {
            if e >= i {
                assert(e * e >= i * i) by (nonlinear_arith)
                    requires
                        e >= i,
                ;
            }
        }
        lemma_prime_from_small_divisors(j);
    }
    if is_prime(j) {
        assert forall|d: nat| 2 <= d < i && d * d <= j implies #[trigger] (j % d) != 0 by {
            assert(d < j) by (nonlinear_arith)
                requires
                    2 <= d,
                    d * d <= j,
            ;
        }
    }
}

/// Sieve of Eratosthenes for `[lo, hi]` where `hi ≤ 1_000_000`.
pub fn sieve_range(lo: u64, hi: u64) -> (primes: Vec<u64>)
    requires
        2 <= lo <= hi <= 1_000_000,
    ensures
        primes@ == primes_in(lo as nat, hi as nat),
{
    let n = hi as usize;
    let mut flags: Vec<bool> = vec![true; n + 1];
    if n >= 1 {
        flags.set(1, false);
    }
    flags.set(0, false);
    // The integer square root of n.
    let mut limit: usize = 0;
    while (limit + 1) * (limit + 1) <= n
        invariant
            limit * limit <= n <= 1_000_000,
            limit <= 1000,
            (limit + 1) * (limit + 1) <= 1001 * 1001,
        decreases n - limit,
    {
        assert(limit + 1 <= 1000) by (nonlinear_arith)
            requires
                (limit + 1) * (limit + 1) <= n,
                n <= 1_000_000,
        ;
        limit = limit + 1;
        assert(limit <= n) by (nonlinear_arith)
            requires
                limit * limit <= n,
        ;
        assert((limit + 1) * (limit + 1) <= 1001 * 1001) by (nonlinear_arith)
            requires
                limit <= 1000,
        ;
    }
    assert(1 <= limit <= n) by (nonlinear_arith)
        requires
            limit * limit <= n,
            n < (limit + 1) * (limit + 1),
            n >= 2,
    ;
    assert forall|j: int| 0 <= j <= n implies #[trigger] flags@[j] == sieved(j as nat, 2) by {}
    let mut i: usize = 2;
    while i <= limit
        invariant
            flags.len() == n + 1,
            2 <= i <= limit + 1,
            limit <= 1000,
            limit <= n,
            limit * limit <= n <= 1_000_000,
            n < (limit + 1) * (limit + 1),
            forall|j: int| 0 <= j <= n ==> #[trigger] flags@[j] == sieved(j as nat, i as nat),
        decreases limit + 1 - i,
    {
        assert(i * i <= n) by (nonlinear_arith)
            requires
                i <= limit,
                limit * limit <= n,
        ;
        if flags[i] {
            let mut j = i * i;
            proof {
                vstd::arithmetic::div_mod::lemma_mod_multiples_basic(i as int, i as int);
            }
            while j <= n
                invariant
                    flags.len() == n + 1,
                    2 <= i <= limit,
                    limit <= 1000,
                    i * i <= n <= 1_000_000,
                    i * i <= j <= n + i,
                    j % i == 0,
                    forall|x: int|
                        0 <= x <= n ==> #[trigger] flags@[x] == (sieved(x as nat, i as nat) && !(
                        i * i <= x < j && x % (i as int) == 0)),
                decreases n + i - j,
            {
                flags.set(j, false);
                proof {
                    assert forall|x: int| 0 <= x <= n implies #[trigger] flags@[x] == (sieved(
                        x as nat,
                        i as nat,
                    ) && !(i * i <= x < j + i && x % (i as int) == 0)) by {
                        if j < x < j + i {
                            lemma_fundamental_div_mod(j as int, i as int);
                            vstd::arithmetic::div_mod::lemma_mod_multiples_vanish(
                                j as int / i as int,
                                x - j,
                                i as int,
                            );
                            vstd::arithmetic::div_mod::lemma_small_mod((x - j) as nat, i as nat);
                        }
                    }
                    lemma_mod_add_multiples_vanish(j as int, i as int);
                }
                j = j + i;
            }
            proof {
                assert forall|x: int| 0 <= x <= n implies #[trigger] flags@[x] == sieved(
                    x as nat,
                    (i + 1) as nat,
                ) by {
                    if sieved(x as nat, i as nat) && !(i * i <= x && x % (i as int) == 0) {
                        assert forall|d: nat| 2 <= d < i + 1 && d * d <= x implies #[trigger] ((
                        x as nat) % d) != 0 by {
                            if d == i {
                                assert(d * d == i * i);
                            }
                        }
                    }
                }
            }
        } else {
            proof {
                assert(!sieved(i as nat, i as nat));
                let d = choose|d: nat| 2 <= d < i && d * d <= i && #[trigger] ((i as nat) % d) == 0;
                assert forall|x: int| 0 <= x <= n implies #[trigger] flags@[x] == sieved(
                    x as nat,
                    (i + 1) as nat,
                ) by {
                    if sieved(x as nat, i as nat) && i * i <= x && (x as nat) % (i as nat) == 0 {
                        lemma_divides_trans(d, i as nat, x as nat);
                        assert(d * d <= x) by (nonlinear_arith)
                            requires
                                d * d <= i,
                                i * i <= x,
                                i >= 1,
                        ;
                        assert(false);
                    }
                    if sieved(x as nat, i as nat) {
                        assert forall|e: nat| 2 <= e < i + 1 && e * e <= x implies #[trigger] ((
                        x as nat) % e) != 0 by {
                            if e == i {
                                assert(e * e == i * i);
                            }
                        }
                    }
                }
            }
        }
        i = i + 1;
    }
    proof {
        assert forall|x: int| 0 <= x <= n implies #[trigger] flags@[x] == is_prime(x as nat) by {
            lemma_sieved_prime(x as nat, (limit + 1) as nat);
        }
    }
    let mut primes: Vec<u64> = Vec::new();
    let mut x: usize = lo as usize;
    while x <= n
        invariant
            flags.len() == n + 1,
            n == hi,
            lo <= x <= n + 1,
            forall|k: int| 0 <= k <= n ==> #[trigger] flags@[k] == is_prime(k as nat),
            primes@ == primes_below(lo as nat, x as nat),
        decreases n + 1 - x,
    {
        if flags[x] {
            primes.push(x as u64);
        }
        x = x + 1;
    }
    primes
}

/// The bounds of an inclusive range (`RangeInclusive::into_inner`).
#[verifier::external_body]
fn range_bounds(range: std::ops::RangeInclusive<u64>) -> (b: (u64, u64))
    ensures
        b.0 == range@.start,
        b.1 == range@.end,
{
    range.into_inner()
}

/// Generate all primes in a given range.
///
/// Uses Sieve of Eratosthenes when the upper bound ≤ 1_000_000,
/// otherwise falls back to deterministic Miller–Rabin (`is_prime64`).
pub struct PrimeGen {
    lo: u64,
    hi: u64,
}

impl PrimeGen {
    /// The lower bound of the range.
    pub closed spec fn lo(self) -> u64 {
        self.lo
    }

    /// The upper bound of the range (inclusive).
    pub closed spec fn hi(self) -> u64 {
        self.hi
    }

    pub fn new(range: std::ops::RangeInclusive<u64>) -> (g: Self)
        ensures
            g.lo() == range@.start,
            g.hi() == range@.end,
    {
        let (lo, hi) = range_bounds(range);
        Self { lo, hi }
    }
}

impl Generator for PrimeGen {
    type Output = Vec<u64>;

    fn generate(&mut self, _rng: &mut StdRng) -> (primes: Vec<u64>)
        ensures
            *final(self) == *old(self),
            primes@ == primes_in(old(self).lo() as nat, old(self).hi() as nat),
    {
        let lo = self.lo;
        let hi = self.hi;
        if lo > hi || hi < 2 {
            proof {
                if hi < 2 {
                    lemma_primes_below_two(lo as nat, (hi + 1) as nat);
                }
            }
            return Vec::new();
        }
        proof {
            if lo < 2 {
                lemma_primes_below_from_two(lo as nat, (hi + 1) as nat);
            }
        }
        let lo = if lo < 2 {
            2
        } else {
            lo
        };
        if hi <= 1_000_000 {
            sieve_range(lo, hi)
        } else {
            let mut primes: Vec<u64> = Vec::new();
            let mut x = lo;
            while x < hi
                invariant
                    lo <= x <= hi,
                    primes@ == primes_below(lo as nat, x as nat),
                decreases hi - x,
            {
                if is_prime64(x) {
                    primes.push(x);
                }
                x = x + 1;
            }
            if is_prime64(hi) {
                primes.push(hi);
            }
            primes
        }
    }
}

// ---------------------------------------------------------------------------
// CRTGen — Chinese Remainder Theorem
// ---------------------------------------------------------------------------

pub fn crt(remainders: &[u64], moduli: &[u64]) -> (r: Option<u64>)
    requires
        crt_solvable(remainders@, moduli@) ==> crt_fits(remainders@, moduli@),
    ensures
        r is Some <==> crt_solvable(remainders@, moduli@),
        r matches Some(v) ==> v == crt_value(remainders@, moduli@) as u64,
{
    if remainders.len() != moduli.len() || remainders.len() == 0 {
        return None;
    }
    let len = moduli.len();
    // Check pairwise coprime
    let mut i: usize = 0;
    while i < len
        invariant
            0 <= i <= len,
            len == moduli.len(),
            forall|a: int, b: int|
                0 <= a < i && a < b < len ==> spec_gcd(
                    #[trigger] moduli@[a] as nat,
                    #[trigger] moduli@[b] as nat,
                ) == 1,
        decreases len - i,
    {
        let mut j: usize = i + 1;
        while j < len
            invariant
                0 <= i < len,
                i + 1 <= j <= len,
                len == moduli.len(),
                forall|a: int, b: int|
                    0 <= a < i && a < b < len ==> spec_gcd(
                        #[trigger] moduli@[a] as nat,
                        #[trigger] moduli@[b] as nat,
                    ) == 1,
                forall|b: int|
                    i < b < j ==> spec_gcd(moduli@[i as int] as nat, #[trigger] moduli@[b] as nat)
                        == 1,
            decreases len - j,
        {
            if gcd(moduli[i], moduli[j]) != 1 {
                return None;
            }
            j = j + 1;
        }
        i = i + 1;
    }
    assert(crt_solvable(remainders@, moduli@));
    let ghost rs = remainders@;
    let ghost ms = moduli@;
    // Compute product using u128 to avoid overflow
    let mut prod: u128 = 1;
    let mut k: usize = 0;
    assert(ms.take(0) =~= Seq::<u64>::empty());
    while k < len
        invariant
            0 <= k <= len,
            len == ms.len(),
            ms == moduli@,
            crt_fits(rs, ms),
            prod == seq_product(ms.take(k as int)),
        decreases len - k,
    {
        proof {
            assert(ms.take(k as int + 1) =~= ms.take(k as int).push(ms[k as int]));
            lemma_product_push(ms.take(k as int), ms[k as int]);
            lemma_prefix_product_le(ms, k as int + 1);
        }
        prod = prod * (moduli[k] as u128);
        k = k + 1;
    }
    assert(ms.take(len as int) =~= ms);
    let mut result: u128 = 0;
    let mut i: usize = 0;
    while i < len
        invariant
            0 <= i <= len,
            len == ms.len(),
            len == rs.len(),
            ms == moduli@,
            rs == remainders@,
            crt_solvable(rs, ms),
            crt_fits(rs, ms),
            prod == seq_product(ms),
            result == crt_sum(rs, ms, i as nat),
        decreases len - i,
    {
        let m = moduli[i] as u128;
        let ni = prod / m;
        proof {
            assert(ms[i as int] > 0);
            lemma_crt_n_coprime(ms, i as int);
            lemma_mod_bound(ni as int, m as int);
        }
        let inv = match mod_inv((ni % m) as u64, moduli[i]) {
            Some(v) => v,
            None => {
                return None;
            },
        };
        proof {
            assert(inv == crt_inv(ms, i as int));
            assert(rs[i as int] * crt_n(ms, i as int) <= u128::MAX);
            assert(crt_term(rs, ms, i as int) <= u128::MAX);
            assert(crt_sum(rs, ms, (i + 1) as nat) <= u128::MAX);
            assert(0 <= inv);
            assert((remainders[i as int] as int) * (ni as int) >= 0) by (nonlinear_arith)
                requires
                    ni >= 0,
            ;
        }
        let term = (remainders[i] as u128) * ni * (inv as u128);
        result = result + term;
        i = i + 1;
    }
    proof {
        lemma_product_positive(ms);
    }
    Some((result % prod) as u64)
}

/// Solve a system of congruences via the Chinese Remainder Theorem.
///
/// Returns `None` if the moduli are not pairwise coprime.
pub struct CRTGen {
    remainders: Vec<u64>,
    moduli: Vec<u64>,
}

impl CRTGen {
    /// The remainders of the system.
    pub closed spec fn remainders(self) -> Seq<u64> {
        self.remainders@
    }

    /// The moduli of the system.
    pub closed spec fn moduli(self) -> Seq<u64> {
        self.moduli@
    }

    #[verifier::type_invariant]
    closed spec fn computable(self) -> bool {
        crt_solvable(self.remainders@, self.moduli@) ==> crt_fits(self.remainders@, self.moduli@)
    }

    pub fn new(remainders: Vec<u64>, moduli: Vec<u64>) -> (g: Self)
        requires
            crt_solvable(remainders@, moduli@) ==> crt_fits(remainders@, moduli@),
        ensures
            g.remainders() == remainders@,
            g.moduli() == moduli@,
    {
        Self { remainders, moduli }
    }

    /// Solve `x ≡ remainders[i] (mod moduli[i])` for all `i`.
    ///
    /// Returns `None` when the moduli are not pairwise coprime or inputs are empty.
    pub fn solve(remainders: &[u64], moduli: &[u64]) -> (r: Option<u64>)
        requires
            crt_solvable(remainders@, moduli@) ==> crt_fits(remainders@, moduli@),
        ensures
            r is Some <==> crt_solvable(remainders@, moduli@),
            r matches Some(v) ==> v == crt_value(remainders@, moduli@) as u64,
            r matches Some(v) ==> (seq_product(moduli@) <= 0x1_0000_0000_0000_0000 ==> forall|j: int|
                0 <= j < moduli@.len() ==> (v as int) % (#[trigger] moduli@[j] as int) == (
                remainders@[j] as int) % (moduli@[j] as int)),
    {
        let r = crt(remainders, moduli);
        proof {
            if r is Some {
                lemma_crt_solves(remainders@, moduli@);
            }
        }
        r
    }
}

impl Generator for CRTGen {
    type Output = Option<u64>;

    fn generate(&mut self, _rng: &mut StdRng) -> (r: Option<u64>)
        ensures
            *final(self) == *old(self),
            r is Some <==> crt_solvable(old(self).remainders(), old(self).moduli()),
            r matches Some(v) ==> v == crt_value(old(self).remainders(), old(self).moduli()) as u64,
    {
        proof {
            use_type_invariant(&*self);
        }
        crt(self.remainders.as_slice(), self.moduli.as_slice())
    }
}

} // verus!
