//! The Chinese Remainder Theorem: the combination formula that `CRTGen` evaluates,
//! and why its value solves the system of congruences.

use vstd::prelude::*;
use vstd::arithmetic::div_mod::{
    lemma_add_mod_noop, lemma_fundamental_div_mod, lemma_mod_bound, lemma_mod_mod,
    lemma_mod_multiples_basic, lemma_mod_multiples_vanish, lemma_mul_mod_noop_left,
    lemma_mul_mod_noop_right, lemma_small_mod,
};

use super::arith::{
    lemma_bezout, lemma_coprime_mul, lemma_divides_lin, lemma_egcd_gcd, lemma_gcd_comm,
    lemma_gcd_mod, lemma_gcd_one, seq_product, spec_egcd, spec_gcd,
};

verus! {

/// Every two distinct moduli are coprime.
pub open spec fn pairwise_coprime(ms: Seq<u64>) -> bool {
    forall|i: int, j: int|
        0 <= i < j < ms.len() ==> spec_gcd(#[trigger] ms[i] as nat, #[trigger] ms[j] as nat) == 1
}

/// The inputs describe a system that the theorem solves: as many remainders as moduli,
/// at least one of each, and pairwise coprime moduli.
pub open spec fn crt_solvable(rs: Seq<u64>, ms: Seq<u64>) -> bool {
    &&& rs.len() == ms.len()
    &&& rs.len() > 0
    &&& pairwise_coprime(ms)
}

/// `N_i`: the product of all moduli divided by the `i`-th.
pub open spec fn crt_n(ms: Seq<u64>, i: int) -> nat {
    seq_product(ms) / (ms[i] as nat)
}

/// The inverse of `N_i` modulo `m_i`, from the extended Euclidean algorithm.
pub open spec fn crt_inv(ms: Seq<u64>, i: int) -> int {
    spec_egcd(crt_n(ms, i) % (ms[i] as nat), ms[i] as nat).1 % (ms[i] as int)
}

/// The `i`-th term `r_i * N_i * inv_i` of the combination.
pub open spec fn crt_term(rs: Seq<u64>, ms: Seq<u64>, i: int) -> int {
    (rs[i] as int) * (crt_n(ms, i) as int) * crt_inv(ms, i)
}

/// The sum of the first `k` terms.
pub open spec fn crt_sum(rs: Seq<u64>, ms: Seq<u64>, k: nat) -> int
    decreases k,
{
    if k == 0 {
        0
    } else {
        crt_sum(rs, ms, (k - 1) as nat) + crt_term(rs, ms, k - 1)
    }
}

/// The combined solution: the sum of all terms, reduced modulo the product of the moduli.
pub open spec fn crt_value(rs: Seq<u64>, ms: Seq<u64>) -> int {
    crt_sum(rs, ms, ms.len()) % (seq_product(ms) as int)
}

/// The computation in 128-bit arithmetic neither divides by zero nor overflows:
/// every modulus is positive, and the product, each partial product of a term, each term
/// and each partial sum fit in `u128`.
pub open spec fn crt_fits(rs: Seq<u64>, ms: Seq<u64>) -> bool {
    &&& forall|i: int| 0 <= i < ms.len() ==> #[trigger] ms[i] > 0
    &&& seq_product(ms) <= u128::MAX
    &&& forall|i: int|
        0 <= i < ms.len() ==> (rs[i] as int) * (#[trigger] crt_n(ms, i) as int) <= u128::MAX
    &&& forall|i: int| 0 <= i < ms.len() ==> #[trigger] crt_term(rs, ms, i) <= u128::MAX
    &&& forall|k: nat| k <= ms.len() ==> #[trigger] crt_sum(rs, ms, k) <= u128::MAX
}

pub proof fn lemma_product_push(s: Seq<u64>, x: u64)
    ensures
        seq_product(s.push(x)) == seq_product(s) * (x as nat),
{
    assert(s.push(x).drop_last() =~= s);
}

/// The product is the `i`-th factor times the product with that factor replaced by 1.
pub proof fn lemma_product_split(s: Seq<u64>, i: int)
    requires
        0 <= i < s.len(),
    ensures
        seq_product(s) == (s[i] as nat) * seq_product(s.update(i, 1)),
    decreases s.len(),
{
    let t = s.update(i, 1);
    if i == s.len() - 1 {
        assert(t.drop_last() =~= s.drop_last());
        assert(seq_product(t) == seq_product(s.drop_last()) * 1);
        assert(seq_product(s) == (s[i] as nat) * seq_product(t)) by (nonlinear_arith)
            requires
                seq_product(s) == seq_product(s.drop_last()) * (s[i] as nat),
                seq_product(t) == seq_product(s.drop_last()) * 1,
        ;
    } else {
        lemma_product_split(s.drop_last(), i);
        assert(t.drop_last() =~= s.drop_last().update(i, 1));
        let a = seq_product(s.drop_last().update(i, 1));
        assert(seq_product(s) == (s[i] as nat) * a * (s.last() as nat));
        assert(seq_product(t) == a * (s.last() as nat));
        assert((s[i] as nat) * a * (s.last() as nat) == (s[i] as nat) * (a * (s.last() as nat)))
            by (nonlinear_arith);
    }
}

/// With positive factors, `N_i` is the product of the other moduli.
pub proof fn lemma_crt_n(ms: Seq<u64>, i: int)
    requires
        0 <= i < ms.len(),
        ms[i] > 0,
    ensures
        crt_n(ms, i) == seq_product(ms.update(i, 1)),
        seq_product(ms) == (ms[i] as nat) * crt_n(ms, i),
{
    lemma_product_split(ms, i);
    let p = seq_product(ms.update(i, 1));
    vstd::arithmetic::div_mod::lemma_div_multiples_vanish(p as int, ms[i] as int);
}

/// With factors at least 1, a prefix product is at most the whole product.
pub proof fn lemma_prefix_product_le(s: Seq<u64>, k: int)
    requires
        0 <= k <= s.len(),
        forall|t: int| 0 <= t < s.len() ==> #[trigger] s[t] > 0,
    ensures
        seq_product(s.take(k)) <= seq_product(s),
    decreases s.len(),
{
    if k == s.len() {
        assert(s.take(k) =~= s);
    } else {
        lemma_prefix_product_le(s.drop_last(), k);
        assert(s.drop_last().take(k) =~= s.take(k));
        assert(s.last() > 0);
        assert(seq_product(s.drop_last()) <= seq_product(s.drop_last()) * (s.last() as nat))
            by (nonlinear_arith)
            requires
                s.last() > 0,
        ;
    }
}

/// A product of positive numbers is positive.
pub proof fn lemma_product_positive(s: Seq<u64>)
    requires
        forall|k: int| 0 <= k < s.len() ==> #[trigger] s[k] > 0,
    ensures
        seq_product(s) > 0,
    decreases s.len(),
{
    if s.len() > 0 {
        lemma_product_positive(s.drop_last());
        assert(s.last() > 0);
        assert(seq_product(s.drop_last()) * (s.last() as nat) > 0) by (nonlinear_arith)
            requires
                seq_product(s.drop_last()) > 0,
                s.last() > 0,
        ;
    }
}

/// A product of numbers each coprime to `c` is coprime to `c`.
pub proof fn lemma_product_coprime(s: Seq<u64>, c: nat)
    requires
        forall|k: int| 0 <= k < s.len() ==> spec_gcd(#[trigger] s[k] as nat, c) == 1,
    ensures
        spec_gcd(seq_product(s), c) == 1,
    decreases s.len(),
{
    if s.len() == 0 {
        lemma_gcd_one(c);
    } else {
        lemma_product_coprime(s.drop_last(), c);
        assert(spec_gcd(s.last() as nat, c) == 1);
        lemma_coprime_mul(seq_product(s.drop_last()), s.last() as nat, c);
    }
}

/// With pairwise coprime moduli, `N_i` is invertible modulo `m_i`.
pub proof fn lemma_crt_n_coprime(ms: Seq<u64>, i: int)
    requires
        0 <= i < ms.len(),
        ms[i] > 0,
        pairwise_coprime(ms),
    ensures
        spec_gcd(crt_n(ms, i) % (ms[i] as nat), ms[i] as nat) == 1,
{
    lemma_crt_n(ms, i);
    let t = ms.update(i, 1);
    assert forall|k: int| 0 <= k < t.len() implies spec_gcd(#[trigger] t[k] as nat, ms[i] as nat)
        == 1 by {
        if k == i {
            lemma_gcd_one(ms[i] as nat);
        } else if k < i {
            assert(spec_gcd(ms[k] as nat, ms[i] as nat) == 1);
        } else {
            assert(spec_gcd(ms[i] as nat, ms[k] as nat) == 1);
            lemma_gcd_comm(ms[i] as nat, ms[k] as nat);
        }
    }
    lemma_product_coprime(t, ms[i] as nat);
    lemma_gcd_mod(crt_n(ms, i), ms[i] as nat);
}

/// Another modulus divides `N_i`.
pub proof fn lemma_crt_n_multiple(ms: Seq<u64>, i: int, j: int)
    requires
        0 <= i < ms.len(),
        0 <= j < ms.len(),
        i != j,
        forall|k: int| 0 <= k < ms.len() ==> #[trigger] ms[k] > 0,
    ensures
        crt_n(ms, i) % (ms[j] as nat) == 0,
{
    lemma_crt_n(ms, i);
    let t = ms.update(i, 1);
    lemma_product_split(t, j);
    let rest = seq_product(t.update(j, 1));
    lemma_mod_multiples_basic(rest as int, ms[j] as int);
    assert((ms[j] as nat) * rest == rest * (ms[j] as nat)) by (nonlinear_arith);
}

/// `N_i * inv_i` is 1 modulo `m_i`.
pub proof fn lemma_crt_inverse(ms: Seq<u64>, i: int)
    requires
        0 <= i < ms.len(),
        ms[i] > 0,
        pairwise_coprime(ms),
    ensures
        ((crt_n(ms, i) as int) * crt_inv(ms, i)) % (ms[i] as int) == 1int % (ms[i] as int),
{
    let m = ms[i] as nat;
    let a = crt_n(ms, i) % m;
    lemma_crt_n_coprime(ms, i);
    lemma_bezout(a, m);
    lemma_egcd_gcd(a, m);
    let x = spec_egcd(a, m).1;
    let y = spec_egcd(a, m).2;
    assert(a * x + m * y == 1);
    assert(a * x == (m as int) * (-y) + 1) by (nonlinear_arith)
        requires
            a * x + m * y == 1,
    ;
    lemma_mod_multiples_vanish(-y, 1, m as int);
    // (N * (x mod m)) mod m == (N * x) mod m == ((N mod m) * x) mod m == 1 mod m
    lemma_mul_mod_noop_right(crt_n(ms, i) as int, x, m as int);
    lemma_mul_mod_noop_left(crt_n(ms, i) as int, x, m as int);
}

/// Each term is `r_i` modulo `m_i` and `0` modulo every other modulus.
pub proof fn lemma_crt_term_mod(rs: Seq<u64>, ms: Seq<u64>, i: int, j: int)
    requires
        crt_solvable(rs, ms),
        forall|k: int| 0 <= k < ms.len() ==> #[trigger] ms[k] > 0,
        0 <= i < ms.len(),
        0 <= j < ms.len(),
    ensures
        crt_term(rs, ms, i) % (ms[j] as int) == if i == j {
            (rs[j] as int) % (ms[j] as int)
        } else {
            0
        },
{
    let m = ms[j] as int;
    let r = rs[i] as int;
    let n = crt_n(ms, i) as int;
    let v = crt_inv(ms, i);
    assert(crt_term(rs, ms, i) == r * (n * v)) by (nonlinear_arith)
        requires
            crt_term(rs, ms, i) == r * n * v,
    ;
    if i == j {
        lemma_crt_inverse(ms, i);
        lemma_mul_mod_noop_right(r, n * v, m);
        if m == 1 {
            assert((n * v) % 1 == 0);
            assert(r * 0 == 0);
            assert(r % 1 == 0);
        } else {
            lemma_small_mod(1, m as nat);
            assert(r * 1 == r);
        }
    } else {
        lemma_crt_n_multiple(ms, i, j);
        lemma_divides_lin(m, n, 0, r * v, 0);
        assert(n * (r * v) + 0 * 0 == r * (n * v)) by (nonlinear_arith);
    }
}

/// The first `k` terms sum to `r_j` modulo `m_j` once term `j` is included, else to `0`.
pub proof fn lemma_crt_sum_mod(rs: Seq<u64>, ms: Seq<u64>, k: nat, j: int)
    requires
        crt_solvable(rs, ms),
        forall|t: int| 0 <= t < ms.len() ==> #[trigger] ms[t] > 0,
        k <= ms.len(),
        0 <= j < ms.len(),
    ensures
        crt_sum(rs, ms, k) % (ms[j] as int) == if j < k {
            (rs[j] as int) % (ms[j] as int)
        } else {
            0
        },
    decreases k,
{
    let m = ms[j] as int;
    assert(0int % m == 0) by {
        lemma_small_mod(0, m as nat);
    }
    if k > 0 {
        lemma_crt_sum_mod(rs, ms, (k - 1) as nat, j);
        lemma_crt_term_mod(rs, ms, k - 1, j);
        lemma_add_mod_noop(crt_sum(rs, ms, (k - 1) as nat), crt_term(rs, ms, k - 1), m);
        vstd::arithmetic::div_mod::lemma_mod_twice(rs[j] as int, m);
        let a = crt_sum(rs, ms, (k - 1) as nat) % m;
        let b = crt_term(rs, ms, k - 1) % m;
        assert(crt_sum(rs, ms, k) == crt_sum(rs, ms, (k - 1) as nat) + crt_term(rs, ms, k - 1));
        assert(crt_sum(rs, ms, k) % m == (a + b) % m);
        if j < k - 1 {
            assert(a + b == (rs[j] as int) % m);
        } else if j == k - 1 {
            assert(a + b == (rs[j] as int) % m);
        } else {
            assert(a + b == 0);
        }
    }
}

/// The sum of `m_i - 1` over the first `k` moduli.
pub open spec fn excess_sum(ms: Seq<u64>, k: nat) -> int
    decreases k,
{
    if k == 0 {
        0
    } else {
        excess_sum(ms, (k - 1) as nat) + ms[k - 1] - 1
    }
}

proof fn lemma_excess_drop_last(ms: Seq<u64>, k: nat)
    requires
        k < ms.len(),
    ensures
        excess_sum(ms, k) == excess_sum(ms.drop_last(), k),
    decreases k,
{
    if k > 0 {
        lemma_excess_drop_last(ms, (k - 1) as nat);
    }
}

proof fn lemma_excess_mono(ms: Seq<u64>, k: nat, l: nat)
    requires
        k <= l <= ms.len(),
        forall|t: int| 0 <= t < ms.len() ==> #[trigger] ms[t] > 0,
    ensures
        excess_sum(ms, k) <= excess_sum(ms, l),
    decreases l,
{
    if k < l {
        lemma_excess_mono(ms, k, (l - 1) as nat);
        assert(ms[l - 1] > 0);
    }
}

/// For positive numbers, the sum of `m_i - 1` stays below their product.
proof fn lemma_excess_below_product(ms: Seq<u64>)
    requires
        forall|t: int| 0 <= t < ms.len() ==> #[trigger] ms[t] > 0,
    ensures
        excess_sum(ms, ms.len()) + 1 <= seq_product(ms),
    decreases ms.len(),
{
    if ms.len() > 0 {
        let a = ms.drop_last();
        assert forall|t: int| 0 <= t < a.len() implies #[trigger] a[t] > 0 by {
            assert(a[t] == ms[t]);
        }
        lemma_excess_below_product(a);
        lemma_excess_drop_last(ms, (ms.len() - 1) as nat);
        let m = ms.last() as int;
        assert(m > 0);
        let pa = seq_product(a) as int;
        let ea = excess_sum(a, a.len());
        lemma_excess_mono(a, 0, a.len());
        assert(ea + m <= pa * m) by (nonlinear_arith)
            requires
                ea + 1 <= pa,
                ea >= 0,
                m >= 1,
        ;
    }
}

/// Moduli of at least 1 whose product fits in `u64`, with each remainder below its
/// modulus, keep the whole 128-bit computation in range.
pub proof fn lemma_crt_fits(rs: Seq<u64>, ms: Seq<u64>)
    requires
        rs.len() == ms.len(),
        forall|t: int| 0 <= t < ms.len() ==> #[trigger] ms[t] >= 1,
        seq_product(ms) <= u64::MAX,
        forall|t: int| 0 <= t < ms.len() ==> #[trigger] rs[t] < ms[t],
    ensures
        crt_fits(rs, ms),
{
    let p = seq_product(ms) as int;
    assert forall|t: int| 0 <= t < ms.len() implies #[trigger] ms[t] > 0 by {
        assert(ms[t] >= 1);
    }
    lemma_excess_below_product(ms);
    lemma_product_positive(ms);
    assert forall|i: int| 0 <= i < ms.len() implies (rs[i] as int) * (#[trigger] crt_n(ms, i) as int) <= p
        && 0 <= crt_term(rs, ms, i) <= p * (ms[i] - 1) by {
        lemma_crt_n(ms, i);
        let m = ms[i] as int;
        let r = rs[i] as int;
        let n = crt_n(ms, i) as int;
        let e = spec_egcd(crt_n(ms, i) % (ms[i] as nat), ms[i] as nat).1;
        lemma_mod_bound(e, m);
        let v = crt_inv(ms, i);
        assert(0 <= v < m);
        assert(0 <= r * n * v <= p * (m - 1)) by (nonlinear_arith)
            requires
                0 <= r < m,
                n >= 0,
                p == m * n,
                0 <= v < m,
        ;
        assert(r * n <= p) by (nonlinear_arith)
            requires
                0 <= r < m,
                n >= 0,
                p == m * n,
        ;
    }
    assert forall|i: int| 0 <= i < ms.len() implies 0 <= #[trigger] crt_term(rs, ms, i) <= p * (ms[i] - 1) by {
        assert(crt_n(ms, i) == crt_n(ms, i));
    }
    assert forall|k: nat| k <= ms.len() implies #[trigger] crt_sum(rs, ms, k) <= u128::MAX by {
        lemma_crt_sum_bound(rs, ms, k, p);
        lemma_excess_mono(ms, k, ms.len());
        lemma_excess_mono(ms, 0, k);
        let e = excess_sum(ms, k);
        assert(p * e <= p * (p - 1)) by (nonlinear_arith)
            requires
                0 <= e <= p - 1,
                p >= 0,
        ;
        assert(p * (p - 1) <= u128::MAX) by (nonlinear_arith)
            requires
                1 <= p <= u64::MAX,
        ;
    }
    assert forall|i: int| 0 <= i < ms.len() implies #[trigger] crt_term(rs, ms, i) <= u128::MAX by {
        lemma_crt_n(ms, i);
        lemma_mod_bound(spec_egcd(crt_n(ms, i) % (ms[i] as nat), ms[i] as nat).1, ms[i] as int);
        let m = ms[i] as int;
        assert(m <= p) by (nonlinear_arith)
            requires
                1 <= m,
                m * (crt_n(ms, i) as int) == p,
                p >= 1,
        ;
        assert(p * (m - 1) <= u128::MAX) by (nonlinear_arith)
            requires
                1 <= m <= p,
                p <= u64::MAX,
        ;
    }
}

/// Each partial sum of the terms is between 0 and `P` times the partial sum of `m_i - 1`.
proof fn lemma_crt_sum_bound(rs: Seq<u64>, ms: Seq<u64>, k: nat, p: int)
    requires
        rs.len() == ms.len(),
        k <= ms.len(),
        forall|i: int| 0 <= i < ms.len() ==> 0 <= #[trigger] crt_term(rs, ms, i) <= p * (ms[i] - 1),
    ensures
        0 <= crt_sum(rs, ms, k) <= p * excess_sum(ms, k),
    decreases k,
{
    if k > 0 {
        lemma_crt_sum_bound(rs, ms, (k - 1) as nat, p);
        let i = k - 1;
        assert(0 <= crt_term(rs, ms, i) <= p * (ms[i] - 1));
        assert(p * excess_sum(ms, (k - 1) as nat) + p * (ms[i] - 1) == p * excess_sum(ms, k)) by (nonlinear_arith)
            requires
                excess_sum(ms, k) == excess_sum(ms, (k - 1) as nat) + ms[i] - 1,
        ;
    }
}

/// The Chinese Remainder Theorem: for pairwise coprime positive moduli, the combined value is
/// the solution in `[0, m_1 * ... * m_k)` of `x == r_i (mod m_i)` for every `i`.
pub proof fn lemma_crt_solves(rs: Seq<u64>, ms: Seq<u64>)
    requires
        crt_solvable(rs, ms),
        forall|t: int| 0 <= t < ms.len() ==> #[trigger] ms[t] > 0,
    ensures
        0 <= crt_value(rs, ms) < seq_product(ms),
        forall|j: int|
            0 <= j < ms.len() ==> #[trigger] (crt_value(rs, ms) % (ms[j] as int)) == (rs[j] as int) % (
            ms[j] as int),
{
    lemma_product_positive(ms);
    lemma_mod_bound(crt_sum(rs, ms, ms.len()), seq_product(ms) as int);
    assert forall|j: int| 0 <= j < ms.len() implies #[trigger] (crt_value(rs, ms) % (
    ms[j] as int)) == (rs[j] as int) % (ms[j] as int) by {
        lemma_crt_n(ms, j);
        lemma_product_positive(ms.update(j, 1));
        lemma_mod_mod(crt_sum(rs, ms, ms.len()), ms[j] as int, crt_n(ms, j) as int);
        lemma_crt_sum_mod(rs, ms, ms.len(), j);
    }
}

} // verus!
