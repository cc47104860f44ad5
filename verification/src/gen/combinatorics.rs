//! Combinatorics generators: permutations, combinations, derangements, partitions.

use vstd::prelude::*;
use rand::rngs::StdRng;

use crate::rng::random_usize_in;
use derangements::derangements;
use super::derangement_count::lemma_derangement_list_len;
use super::euler::{euler_table, lemma_pent_table_is_euler};
use super::counting::{fact, lemma_binom_positive, lemma_fact_mono,
    binom, lemma_pent1_ge, lemma_pent_table_len, parts, parts_from, pent1, pent2, pent_sum, pent_table, lemma_binom_diagonal, lemma_binom_step, lemma_binom_symmetric, lemma_binom_zero,
    lemma_subfact_mono, subfact, is_partition, lemma_parts_complete, lemma_parts_distinct, lemma_parts_valid, lemma_parts_sorted, lex_decreasing, lemma_parts_count, partitions_of,
};

verus! {

// ---------------------------------------------------------------------------
// Arrangements
// ---------------------------------------------------------------------------

/// `p` arranges the numbers `1..=n`, each once.
pub open spec fn is_arrangement(p: Seq<u32>, n: nat) -> bool {
    &&& p.len() == n
    &&& p.no_duplicates()
    &&& forall|i: int| 0 <= i < p.len() ==> 1 <= #[trigger] p[i] <= n
}

/// `s` with the entries at `i` and `j` exchanged.
pub open spec fn swapped<T>(s: Seq<T>, i: int, j: int) -> Seq<T> {
    s.update(i, s[j]).update(j, s[i])
}

/// Exchanges the entries at `i` and `j`.
fn swap_at<T: Copy>(v: &mut Vec<T>, i: usize, j: usize)
    requires
        i < old(v).len(),
        j < old(v).len(),
    ensures
        final(v)@ == swapped(old(v)@, i as int, j as int),
{
    let a = v[i];
    let b = v[j];
    v.set(i, b);
    v.set(j, a);
}

/// Exchanging two entries keeps an arrangement an arrangement.
proof fn lemma_swapped_arrangement(p: Seq<u32>, n: nat, i: int, j: int)
    requires
        is_arrangement(p, n),
        0 <= i < p.len(),
        0 <= j < p.len(),
    ensures
        is_arrangement(swapped(p, i, j), n),
{
    let q = swapped(p, i, j);
    assert forall|a: int, b: int| 0 <= a < q.len() && 0 <= b < q.len() && a != b implies q[a] != q[b] by {
        let src_a = if a == j {
            i
        } else if a == i {
            j
        } else {
            a
        };
        let src_b = if b == j {
            i
        } else if b == i {
            j
        } else {
            b
        };
        assert(q[a] == p[src_a]);
        assert(q[b] == p[src_b]);
    }
    assert forall|a: int| 0 <= a < q.len() implies 1 <= #[trigger] q[a] <= n by {
        if a == j {
            assert(q[a] == p[i]);
        } else if a == i {
            assert(q[a] == p[j]);
        }
    }
}

/// Appends a copy of `row`.
fn push_row(out: &mut Vec<Vec<u32>>, row: &Vec<u32>)
    ensures
        final(out).deep_view() == old(out).deep_view().push(row@),
{
    let c = row.clone();
    assert(c@ =~= row@);
    let ghost r0 = out.deep_view();
    out.push(c);
    proof {
        assert(c.deep_view() =~= c@);
        assert forall|i: int| 0 <= i < out.len() implies #[trigger] out.deep_view()[i] == r0.push(row@)[i] by {
            if i < out.len() - 1 {
                assert(out@[i] == old(out)@[i]);
            }
        }
        assert(out.deep_view() =~= r0.push(row@));
    }
}

/// The numbers `1..=n` in increasing order.
pub open spec fn identity_arrangement(n: nat) -> Seq<u32> {
    Seq::new(n, |i: int| (i + 1) as u32)
}

/// The identity, as a vector.
fn identity_vec(n: u32) -> (v: Vec<u32>)
    ensures
        v@ == identity_arrangement(n as nat),
        is_arrangement(v@, n as nat),
{
    let mut v: Vec<u32> = Vec::new();
    let mut i: u32 = 0;
    while i < n
        invariant
            0 <= i <= n,
            v@ == identity_arrangement(i as nat),
        decreases n - i,
    {
        v.push(i + 1);
        assert(v@ =~= identity_arrangement((i + 1) as nat));
        i = i + 1;
    }
    proof {
        let p = v@;
        assert forall|a: int, b: int| 0 <= a < p.len() && 0 <= b < p.len() && a != b implies p[a] != p[b] by {}
    }
    v
}

// ---------------------------------------------------------------------------
// PermutationGen
// ---------------------------------------------------------------------------

/// The arrangement reached from `start` after the first `t` adjacent swaps,
/// swap `k` exchanging positions `swaps[k]` and `swaps[k] + 1`.
pub open spec fn adjacent_swap_walk(start: Seq<u32>, swaps: Seq<usize>, t: nat) -> Seq<u32>
    decreases t,
{
    if t == 0 {
        start
    } else {
        let prev = adjacent_swap_walk(start, swaps, (t - 1) as nat);
        let i = swaps[t - 1] as int;
        swapped(prev, i, i + 1)
    }
}

/// The smaller of two numbers.
pub open spec fn min_nat(a: nat, b: nat) -> nat {
    if a <= b {
        a
    } else {
        b
    }
}

/// Permutation generator using Fisher-Yates shuffle and SJT algorithm.
pub struct PermutationGen;

impl PermutationGen {
    /// Generate a random permutation of `[1..n]` using Fisher-Yates shuffle.
    ///
    /// Returns an empty vector when `n == 0`.
    pub fn fisher_yates(n: u32, rng: &mut StdRng) -> (v: Vec<u32>)
        ensures
            is_arrangement(v@, n as nat),
    {
        if n == 0 {
            return Vec::new();
        }
        let mut v = identity_vec(n);
        let len = n as usize;
        let mut i: usize = len - 1;
        while i >= 1
            invariant
                i < len,
                len == n,
                is_arrangement(v@, n as nat),
            decreases i,
        {
            let j = random_usize_in(rng, 0, i);
            proof {
                lemma_swapped_arrangement(v@, n as nat, i as int, j as int);
            }
            swap_at(&mut v, i, j);
            i = i - 1;
        }
        v
    }

    /// Enumerate the permutations of `[1..n]` that the adjacent swaps `swaps`
    /// walk through (the Steinhaus–Johnson–Trotter order when `swaps` is its
    /// swap sequence), starting from the identity.
    ///
    /// Yields at most `n!` permutations. Returns a single empty vector when `n == 0`.
    pub fn enumerate(n: u32, swaps: &[usize]) -> (perms: Vec<Vec<u32>>)
        requires
            n >= 2 ==> fact(n as nat) <= usize::MAX,
            forall|k: int| 0 <= k < swaps@.len() ==> #[trigger] swaps@[k] + 1 < n,
        ensures
            n <= 1 ==> perms.deep_view() == seq![identity_arrangement(n as nat)],
            n >= 2 ==> perms.deep_view() == Seq::new(
                min_nat(fact(n as nat), (swaps@.len() + 1) as nat),
                |t: int| adjacent_swap_walk(identity_arrangement(n as nat), swaps@, t as nat),
            ),
            forall|t: int| 0 <= t < perms.len() ==> is_arrangement(#[trigger] perms.deep_view()[t], n as nat),
    {
        let mut perm = identity_vec(n);
        let mut out: Vec<Vec<u32>> = Vec::new();
        push_row(&mut out, &perm);
        if n <= 1 {
            proof {
                assert(out.deep_view() =~= seq![identity_arrangement(n as nat)]);
            }
            return out;
        }
        let total = factorial(n as usize);
        let ghost start = perm@;
        let mut count: usize = 1;
        let mut k: usize = 0;
        proof {
            lemma_fact_mono(2, n as nat);
            assert(out.deep_view() =~= Seq::new(1, |t: int| adjacent_swap_walk(start, swaps@, t as nat)));
        }
        while count < total && k < swaps.len()
            invariant
                n >= 2,
                total == fact(n as nat),
                count == k + 1,
                k <= swaps@.len(),
                start == identity_arrangement(n as nat),
                forall|q: int| 0 <= q < swaps@.len() ==> #[trigger] swaps@[q] + 1 < n,
                perm@ == adjacent_swap_walk(start, swaps@, k as nat),
                is_arrangement(perm@, n as nat),
                count <= total,
                out.deep_view() == Seq::new(count as nat, |t: int| adjacent_swap_walk(start, swaps@, t as nat)),
                forall|t: int| 0 <= t < out.len() ==> is_arrangement(#[trigger] out.deep_view()[t], n as nat),
            decreases swaps@.len() - k,
        {
            let i = swaps[k];
            proof {
                lemma_swapped_arrangement(perm@, n as nat, i as int, i + 1);
            }
            swap_at(&mut perm, i, i + 1);
            k = k + 1;
            push_row(&mut out, &perm);
            count = count + 1;
            proof {
                assert(out.deep_view() =~= Seq::new(count as nat, |t: int| adjacent_swap_walk(start, swaps@, t as nat)));
            }
        }
        proof {
            assert(count == min_nat(fact(n as nat), (swaps@.len() + 1) as nat));
        }
        out
    }
}

/// `n!`.
fn factorial(n: usize) -> (r: usize)
    requires
        fact(n as nat) <= usize::MAX,
    ensures
        r == fact(n as nat),
{
    let mut r: usize = 1;
    let mut i: usize = 0;
    while i < n
        invariant
            0 <= i <= n,
            r == fact(i as nat),
            fact(n as nat) <= usize::MAX,
        decreases n - i,
    {
        i = i + 1;
        proof {
            lemma_fact_mono(i as nat, n as nat);
            assert(fact(i as nat) == i * fact((i - 1) as nat));
            assert(r * i == fact(i as nat)) by (nonlinear_arith)
                requires
                    r == fact((i - 1) as nat),
                    fact(i as nat) == i * fact((i - 1) as nat),
            ;
        }
        r = r * i;
    }
    r
}

// ---------------------------------------------------------------------------
// CombinationGen
// ---------------------------------------------------------------------------

/// Combination generator using revolving-door algorithm and manual binomial.
pub struct CombinationGen;

/// The bit pattern reached from `start` after the first `t` swaps of
/// `swaps`, each exchanging two positions.
pub open spec fn pair_swap_walk(start: Seq<bool>, swaps: Seq<(usize, usize)>, t: nat) -> Seq<bool>
    decreases t,
{
    if t == 0 {
        start
    } else {
        let prev = pair_swap_walk(start, swaps, (t - 1) as nat);
        swapped(prev, swaps[t - 1].0 as int, swaps[t - 1].1 as int)
    }
}

/// The first `k` of `n` positions set.
pub open spec fn first_k_bits(n: nat, k: nat) -> Seq<bool> {
    Seq::new(n, |i: int| i < k)
}

impl CombinationGen {
    /// Enumerate the `k`-combinations of `[1..n]` that the position swaps
    /// `swaps` walk through (the Eades–McKay order when `swaps` is its swap
    /// sequence), starting from `[1..k]`.
    ///
    /// Yields at most `C(n, k)` combinations. Returns a single empty vector when `k == 0`,
    /// and nothing when `k > n`.
    pub fn enumerate(n: u32, k: u32, swaps: &[(usize, usize)]) -> (combos: Vec<Vec<u32>>)
        requires
            binom(n as nat, k as nat) <= usize::MAX,
            forall|q: int| 0 <= q < swaps@.len() ==> (#[trigger] swaps@[q]).0 < n && swaps@[q].1 < n,
        ensures
            k == 0 ==> combos.deep_view() == seq![Seq::<u32>::empty()],
            k > n ==> combos.deep_view() == Seq::<Seq<u32>>::empty(),
            1 <= k <= n ==> combos.deep_view() == Seq::new(
                min_nat(binom(n as nat, k as nat), (swaps@.len() + 1) as nat),
                |t: int| true_positions(pair_swap_walk(first_k_bits(n as nat, k as nat), swaps@, t as nat)),
            ),
    {
        let mut out: Vec<Vec<u32>> = Vec::new();
        if k == 0 {
            let empty: Vec<u32> = Vec::new();
            push_row(&mut out, &empty);
            assert(out.deep_view() =~= seq![Seq::<u32>::empty()]);
            return out;
        }
        if k > n {
            assert(out.deep_view() =~= Seq::<Seq<u32>>::empty());
            return out;
        }
        let total = match Self::count(n, k) {
            Some(c) => c as usize,
            None => 0,
        };
        let nn = n as usize;
        let kk = k as usize;
        let mut bits: Vec<bool> = Vec::new();
        while bits.len() < nn
            invariant
                bits@.len() <= nn,
                nn == n,
                kk == k,
                forall|i: int| 0 <= i < bits@.len() ==> bits@[i] == (i < kk),
            decreases nn - bits@.len(),
        {
            let i = bits.len();
            bits.push(i < kk);
        }
        let ghost start = bits@;
        assert(start =~= first_k_bits(n as nat, k as nat));
        let first = extract_combination(bits.as_slice());
        push_row(&mut out, &first);
        let mut count: usize = 1;
        let mut q: usize = 0;
        proof {
            lemma_binom_positive(n as nat, k as nat);
            assert(out.deep_view() =~= Seq::new(
                1,
                |t: int| true_positions(pair_swap_walk(start, swaps@, t as nat)),
            ));
        }
        while count < total && q < swaps.len()
            invariant
                total == binom(n as nat, k as nat),
                count == q + 1,
                q <= swaps@.len(),
                count <= total,
                nn == n,
                bits@.len() == nn,
                forall|r: int| 0 <= r < swaps@.len() ==> (#[trigger] swaps@[r]).0 < n && swaps@[r].1 < n,
                bits@ == pair_swap_walk(start, swaps@, q as nat),
                out.deep_view() == Seq::new(
                    count as nat,
                    |t: int| true_positions(pair_swap_walk(start, swaps@, t as nat)),
                ),
            decreases swaps@.len() - q,
        {
            let (i, j) = swaps[q];
            swap_at(&mut bits, i, j);
            q = q + 1;
            let c = extract_combination(bits.as_slice());
            push_row(&mut out, &c);
            count = count + 1;
            proof {
                assert(out.deep_view() =~= Seq::new(
                    count as nat,
                    |t: int| true_positions(pair_swap_walk(start, swaps@, t as nat)),
                ));
            }
        }
        proof {
            assert(count == min_nat(binom(n as nat, k as nat), (swaps@.len() + 1) as nat));
        }
        out
    }

    /// Compute the binomial coefficient `C(n, k)`.
    ///
    /// Returns `None` if the result exceeds `u64::MAX`.
    pub fn count(n: u32, k: u32) -> (r: Option<u64>)
        ensures
            r == if binom(n as nat, k as nat) <= u64::MAX {
                Some(binom(n as nat, k as nat) as u64)
            } else {
                None::<u64>
            },
    {
        if k > n {
            proof {
                lemma_binom_zero(n as nat, k as nat);
            }
            return Some(0);
        }
        proof {
            lemma_binom_symmetric(n as nat, k as nat);
        }
        let kmin = if k < n - k {
            k
        } else {
            n - k
        };
        assert(binom(n as nat, kmin as nat) == binom(n as nat, k as nat));
        if kmin == 0 {
            return Some(1);
        }
        let ghost n0 = n as nat;
        let ghost k0 = kmin as nat;
        let nn = n as u128;
        let kk = kmin as u128;
        let mut result = 1u128;
        let mut i: u128 = 1;
        while i <= kk
            invariant
                1 <= i <= kk + 1,
                1 <= kk <= nn <= u32::MAX,
                nn == n0,
                kk == k0,
                n0 == n,
                binom(n0, k0) == binom(n as nat, k as nat),
                2 * kk <= nn,
                result == binom((nn - kk + i - 1) as nat, (i - 1) as nat),
                result <= u64::MAX,
            decreases kk + 1 - i,
        {
            let ghost a = (nn - kk + i - 1) as nat;
            proof {
                lemma_binom_step(a, (i - 1) as nat);
                assert(result * (nn - kk + i) <= 0xffff_ffff_ffff_ffff * 0xffff_ffff) by (nonlinear_arith)
                    requires
                        result <= u64::MAX,
                        nn - kk + i <= u32::MAX,
                ;
                vstd::arithmetic::div_mod::lemma_div_multiples_vanish(
                    binom(a + 1, i as nat) as int,
                    i as int,
                );
                assert(i * binom(a + 1, i as nat) == result * (nn - kk + i)) by (nonlinear_arith)
                    requires
                        i * binom(a + 1, i as nat) == (a + 1) * result,
                        a + 1 == nn - kk + i,
                ;
            }
            result = result * (nn - kk + i) / i;
            assert(result == binom(a + 1, i as nat));
            if result > u64::MAX as u128 {
                proof {
                    lemma_binom_diagonal(n0, k0, i as nat);
                    assert(a + 1 == (n0 - k0 + i) as nat);
                }
                return None;
            }
            i = i + 1;
        }
        proof {
            assert((nn - kk + i - 1) as nat == n0);
            assert((i - 1) as nat == k0);
        }
        Some(result as u64)
    }
}

// ---------------------------------------------------------------------------
// DerangementGen
// ---------------------------------------------------------------------------

/// Derangement generator using rejection sampling and the derangements crate.
pub struct DerangementGen;

/// What `derangements::derangements(0..n, n)` yields, in its order.
pub uninterp spec fn range_derangements(n: nat) -> Seq<Seq<usize>>;

/// `s` is an arrangement of `0..n` with no entry at its own index.
pub open spec fn is_index_derangement(s: Seq<usize>, n: nat) -> bool {
    &&& s.len() == n
    &&& s.no_duplicates()
    &&& forall|i: int| 0 <= i < s.len() ==> #[trigger] s[i] < n && s[i] != i
}

/// `derangements::derangements(0..n, n)`, collected. The crate runs through all
/// the arrangements of the input (`fast_permutations`: each arrangement of the
/// input positions once, each input element used once per arrangement) and keeps
/// those in which no element equals its index. With the distinct inputs `0..n`,
/// that is every derangement of `0..n`, each once; the order is only named.
#[verifier::external_body]
fn derangements_of_range(n: usize) -> (items: Vec<Vec<usize>>)
    ensures
        items.deep_view() == range_derangements(n as nat),
        forall|k: int| 0 <= k < items@.len() ==> is_index_derangement(#[trigger] items.deep_view()[k], n as nat),
        items.deep_view().no_duplicates(),
        forall|s: Seq<usize>| is_index_derangement(s, n as nat) ==> #[trigger] items.deep_view().contains(s),
{
    derangements(0..n, n).collect()
}

/// An index derangement shifted to `1..=n`.
pub open spec fn shifted(d: Seq<usize>) -> Seq<u32> {
    d.map_values(|x: usize| (x + 1) as u32)
}

impl DerangementGen {
    /// Generate a random derangement of `[1..n]` using rejection sampling.
    ///
    /// Repeatedly generates random permutations until a derangement is found.
    /// Returns an empty vector when `n == 0`. After `u64::MAX` rejected draws
    /// it returns the rotation `[2, 3, ..., n, 1]`.
    pub fn random_derangement(n: u32, rng: &mut StdRng) -> (v: Vec<u32>)
        requires
            n != 1,
        ensures
            is_arrangement(v@, n as nat),
            is_derangement_of_positions(v@),
    {
        if n == 0 {
            return Vec::new();
        }
        let mut attempts: u64 = 0;
        loop
            invariant
                n >= 2,
            decreases u64::MAX - attempts,
        {
            let perm = PermutationGen::fisher_yates(n, rng);
            if is_derangement(&perm) {
                return perm;
            }
            if attempts == u64::MAX {
                return rotation(n);
            }
            attempts = attempts + 1;
        }
    }

    /// Enumerate all derangements of `[1..n]`.
    ///
    /// Yields `!n` derangements. Returns a single empty vector when `n == 0`.
    pub fn enumerate(n: u32) -> (ds: Vec<Vec<u32>>)
        ensures
            ds.deep_view() == range_derangements(n as nat).map_values(|d: Seq<usize>| shifted(d)),
            ds@.len() == subfact(n as nat),
            forall|k: int|
                0 <= k < ds@.len() ==> is_arrangement(#[trigger] ds.deep_view()[k], n as nat)
                    && is_derangement_of_positions(ds.deep_view()[k]),
    {
        let items = derangements_of_range(n as usize);
        proof {
            lemma_derangement_list_len(items.deep_view(), n as nat);
        }
        let mut out: Vec<Vec<u32>> = Vec::new();
        let mut k: usize = 0;
        while k < items.len()
            invariant
                0 <= k <= items@.len(),
                items.deep_view() == range_derangements(n as nat),
                forall|q: int| 0 <= q < items@.len() ==> is_index_derangement(#[trigger] items.deep_view()[q], n as nat),
                out.deep_view() == items.deep_view().take(k as int).map_values(|d: Seq<usize>| shifted(d)),
            decreases items@.len() - k,
        {
            proof {
                assert(items.deep_view()[k as int] == items@[k as int]@);
                assert(is_index_derangement(items.deep_view()[k as int], n as nat));
            }
            let row = shift_row(&items[k], n);
            push_row(&mut out, &row);
            proof {
                assert(out.deep_view() =~= items.deep_view().take(k + 1).map_values(|d: Seq<usize>| shifted(d)));
            }
            k = k + 1;
        }
        proof {
            assert(items.deep_view().take(items@.len() as int) =~= items.deep_view());
            assert forall|q: int| 0 <= q < out@.len() implies is_arrangement(#[trigger] out.deep_view()[q], n as nat)
                && is_derangement_of_positions(out.deep_view()[q]) by {
                let d = items.deep_view()[q];
                assert(is_index_derangement(d, n as nat));
                let s = shifted(d);
                assert(out.deep_view()[q] == s);
                assert forall|a: int, b: int| 0 <= a < s.len() && 0 <= b < s.len() && a != b implies s[a] != s[b] by {
                    assert(d[a] != d[b]);
                }
            }
        }
        out
    }

    /// Compute the number of derangements `!n` (subfactorial).
    pub fn count(n: u32) -> (r: u64)
        requires
            subfact(n as nat) <= u64::MAX,
        ensures
            r == subfact(n as nat),
    {
        subfactorial(n)
    }
}

/// `[2, 3, ..., n, 1]`.
fn rotation(n: u32) -> (v: Vec<u32>)
    requires
        n >= 2,
    ensures
        is_arrangement(v@, n as nat),
        is_derangement_of_positions(v@),
{
    let mut v: Vec<u32> = Vec::new();
    let mut i: u32 = 1;
    while i < n
        invariant
            1 <= i <= n,
            v@.len() == i - 1,
            forall|q: int| 0 <= q < v@.len() ==> #[trigger] v@[q] == q + 2,
        decreases n - i,
    {
        v.push(i + 1);
        i = i + 1;
    }
    v.push(1);
    proof {
        let p = v@;
        assert forall|a: int, b: int| 0 <= a < p.len() && 0 <= b < p.len() && a != b implies p[a] != p[b] by {}
    }
    v
}

/// The entries of `d` plus one.
fn shift_row(d: &Vec<usize>, n: u32) -> (row: Vec<u32>)
    requires
        forall|i: int| 0 <= i < d@.len() ==> #[trigger] d@[i] < n,
    ensures
        row@ == shifted(d@),
{
    let mut row: Vec<u32> = Vec::new();
    let mut i: usize = 0;
    while i < d.len()
        invariant
            0 <= i <= d@.len(),
            forall|q: int| 0 <= q < d@.len() ==> #[trigger] d@[q] < n,
            row@ == shifted(d@.take(i as int)),
        decreases d@.len() - i,
    {
        row.push((d[i] + 1) as u32);
        assert(row@ =~= shifted(d@.take(i + 1)));
        i = i + 1;
    }
    assert(d@.take(d@.len() as int) =~= d@);
    row
}

/// No element stands at its own (1-based) position.
pub open spec fn is_derangement_of_positions(perm: Seq<u32>) -> bool {
    forall|i: int| 0 <= i < perm.len() ==> #[trigger] perm[i] != i + 1
}

/// Check if a permutation is a derangement (no element at its original position).
pub fn is_derangement(perm: &[u32]) -> (b: bool)
    requires
        perm@.len() <= u32::MAX,
    ensures
        b == is_derangement_of_positions(perm@),
{
    let mut i: usize = 0;
    while i < perm.len()
        invariant
            0 <= i <= perm.len(),
            perm@.len() <= u32::MAX,
            forall|j: int| 0 <= j < i ==> #[trigger] perm@[j] != j + 1,
        decreases perm.len() - i,
    {
        if perm[i] == i as u32 + 1 {
            return false;
        }
        i = i + 1;
    }
    true
}

/// Compute subfactorial `!n` using the recurrence `!n = (n-1) * (!(n-1) + !(n-2))`.
pub fn subfactorial(n: u32) -> (r: u64)
    requires
        subfact(n as nat) <= u64::MAX,
    ensures
        r == subfact(n as nat),
{
    if n == 0 {
        return 1;
    }
    if n == 1 {
        return 0;
    }
    let mut a = 1u64;  // !0
    let mut b = 0u64;  // !1
    let mut i: u64 = 2;
    while i <= n as u64
        invariant
            2 <= i <= n + 1,
            2 <= n,
            subfact(n as nat) <= u64::MAX,
            a == subfact((i - 2) as nat),
            b == subfact((i - 1) as nat),
        decreases n + 1 - i,
    {
        proof {
            lemma_subfact_mono(i as nat, n as nat);
            assert(subfact(i as nat) == (i - 1) * (b + a));
            assert(b + a <= (i - 1) * (b + a)) by (nonlinear_arith)
                requires
                    i >= 2,
            ;
        }
        let c = (i - 1) * (a + b);
        a = b;
        b = c;
        i = i + 1;
    }
    b
}

/// Extract 1-indexed positions of `true` bits.
pub open spec fn true_positions(bits: Seq<bool>) -> Seq<u32>
    decreases bits.len(),
{
    if bits.len() == 0 {
        seq![]
    } else if bits.last() {
        true_positions(bits.drop_last()).push(bits.len() as u32)
    } else {
        true_positions(bits.drop_last())
    }
}

/// Extract 1-indexed positions of `true` bits.
pub fn extract_combination(bits: &[bool]) -> (positions: Vec<u32>)
    ensures
        positions@ == true_positions(bits@),
{
    let mut positions: Vec<u32> = Vec::new();
    let mut i: usize = 0;
    while i < bits.len()
        invariant
            0 <= i <= bits.len(),
            positions@ == true_positions(bits@.take(i as int)),
        decreases bits.len() - i,
    {
        proof {
            assert(bits@.take(i as int + 1).drop_last() =~= bits@.take(i as int));
        }
        if bits[i] {
            positions.push((i + 1) as u32);
        }
        i = i + 1;
    }
    proof {
        assert(bits@.take(bits.len() as int) =~= bits@);
    }
    positions
}

// ---------------------------------------------------------------------------
// PartitionGen
// ---------------------------------------------------------------------------

/// Integer partition generator using Euler's pentagonal theorem and recursion.
pub struct PartitionGen;

impl PartitionGen {
    /// Compute the partition function `p(n)` using Euler's pentagonal number theorem.
    ///
    /// `p(0) = 1`, `p(1) = 1`, `p(2) = 2`, `p(3) = 3`, `p(4) = 5`, `p(5) = 7`, ...
    pub fn count_partitions(n: u32) -> (r: u64)
        requires
            n <= 2_147_438_934,
        ensures
            r == pent_table(n as nat)[n as int],
            (forall|j: int| 0 <= j <= n ==> 0 <= #[trigger] euler_table(n as nat)[j] <= u64::MAX) ==> r
                == euler_table(n as nat)[n as int],
    {
        proof {
            if forall|j: int| 0 <= j <= n ==> 0 <= #[trigger] euler_table(n as nat)[j] <= u64::MAX {
                lemma_pent_table_is_euler(n as nat);
            }
        }
        if n == 0 {
            return 1;
        }
        let n = n as usize;
        let mut p: Vec<u64> = vec![0u64; n + 1];
        p.set(0, 1);
        let mut i: usize = 1;
        proof {
            assert(p@.take(1) =~= pent_table(0));
        }
        while i <= n
            invariant
                1 <= i <= n + 1,
                n <= 2_147_438_934,
                p.len() == n + 1,
                p@.take(i as int) == pent_table((i - 1) as nat),
            decreases n + 1 - i,
        {
            let ghost t = p@.take(i as int);
            proof {
                lemma_pent_table_len((i - 1) as nat);
            }
            let mut sum: i128 = 0;
            let mut k: u32 = 1;
            loop
                invariant
                    1 <= i <= n,
                    n <= 2_147_438_934,
                    p.len() == n + 1,
                    t == p@.take(i as int),
                    t.len() == i,
                    1 <= k <= 37837,
                    k == 1 || pent1((k - 1) as nat) <= i,
                    -2 * (k as int) * 0x1_0000_0000_0000_0000 <= sum <= 2 * (k as int) * 0x1_0000_0000_0000_0000,
                    sum + pent_sum(t, i as nat, k as nat) == pent_sum(t, i as nat, 1),
                ensures
                    sum == pent_sum(t, i as nat, 1),
                decreases i + 1 - k,
            {
                proof {
                    assert(k * (3 * k + 1) <= 37837 * 113512) by (nonlinear_arith)
                        requires
                            1 <= k <= 37837,
                    ;
                    lemma_pent1_ge(k as nat);
                }
                let g1 = k * (3 * k - 1) / 2;
                let g2 = k * (3 * k + 1) / 2;
                assert(g1 as nat == pent1(k as nat));
                assert(g2 as nat == pent2(k as nat));
                if g1 > i as u32 && g2 > i as u32 {
                    break;
                }
                let ghost before = sum;
                let ghost term = (if k % 2 == 1 {
                    1int
                } else {
                    -1int
                }) * ((t[i - pent1(k as nat)] as int) + (if pent2(k as nat) <= i {
                    t[i - pent2(k as nat)] as int
                } else {
                    0int
                }));
                assert(pent_sum(t, i as nat, k as nat) == term + pent_sum(t, i as nat, (k + 1) as nat));
                proof {
                    assert(k < 37837) by (nonlinear_arith)
                        requires
                            k * (3 * k - 1) / 2 <= i,
                            i <= 2_147_438_934,
                            k >= 1,
                    ;
                }
                let sign = if k % 2 == 1 {
                    1i128
                } else {
                    -1i128
                };
                if (g1 as usize) <= i {
                    let x = p[i - g1 as usize] as i128;
                    assert(sign * x == x || sign * x == -x) by (nonlinear_arith)
                        requires
                            sign == 1 || sign == -1,
                    ;
                    sum += sign * x;
                }
                if (g2 as usize) <= i {
                    let x = p[i - g2 as usize] as i128;
                    assert(sign * x == x || sign * x == -x) by (nonlinear_arith)
                        requires
                            sign == 1 || sign == -1,
                    ;
                    sum += sign * x;
                }
                assert(sum == before + term) by (nonlinear_arith)
                    requires
                        sign == 1 || sign == -1,
                        sign == 1 <==> k % 2 == 1,
                        (sum == before + sign * (t[i - pent1(k as nat)] as int) + (if pent2(k as nat) <= i { sign * (t[i - pent2(k as nat)] as int) } else { 0 })),
                        term == (if k % 2 == 1 {
                            1int
                        } else {
                            -1int
                        }) * ((t[i - pent1(k as nat)] as int) + (if pent2(k as nat) <= i {
                            t[i - pent2(k as nat)] as int
                        } else {
                            0int
                        })),
                ;
                k += 1;
            }
            p.set(i, sum as u64);
            proof {
                assert(p@.take(i as int + 1) =~= t.push(sum as u64));
            }
            i = i + 1;
        }
        proof {
            lemma_pent_table_len(n as nat);
            assert(p@.take(n as int + 1) =~= p@);
        }
        p[n]
    }

    /// Enumerate all integer partitions of `n`.
    ///
    /// Returns partitions in lexicographic order (largest parts first).
    /// Returns a vector containing one empty vector when `n == 0`.
    pub fn enumerate_partitions(n: u32) -> (partitions: Vec<Vec<u32>>)
        ensures
            partitions.deep_view() == parts(n as nat, n as nat),
            forall|i: int| 0 <= i < partitions@.len() ==> is_partition(#[trigger] partitions.deep_view()[i], n as nat, n as nat),
            partitions.deep_view().no_duplicates(),
            forall|p: Seq<u32>| is_partition(p, n as nat, n as nat) ==> #[trigger] partitions.deep_view().contains(p),
            lex_decreasing(partitions.deep_view()),
            partitions@.len() == partitions_of(n as nat).len(),
    {
        proof {
            lemma_parts_count(n as nat);
            lemma_parts_sorted(n as nat, n as nat);
            lemma_parts_valid(n as nat, n as nat);
            lemma_parts_distinct(n as nat, n as nat);
            assert forall|p: Seq<u32>| is_partition(p, n as nat, n as nat) implies #[trigger] parts(n as nat, n as nat).contains(p) by {
                lemma_parts_complete(n as nat, n as nat, p);
            }
        }
        let mut result: Vec<Vec<u32>> = Vec::new();
        let mut current: Vec<u32> = Vec::new();
        partition_helper(n, n, &mut current, &mut result);
        proof {
            assert(parts(n as nat, n as nat).map_values(|p: Seq<u32>| Seq::<u32>::empty() + p)
                =~= parts(n as nat, n as nat));
        }
        result
    }
}

/// Recursive helper for partition enumeration.
pub fn partition_helper(
    remaining: u32,
    max_part: u32,
    current: &mut Vec<u32>,
    result: &mut Vec<Vec<u32>>,
)
    ensures
        final(current)@ == old(current)@,
        final(result).deep_view() == old(result).deep_view() + parts(
            remaining as nat,
            max_part as nat,
        ).map_values(|p: Seq<u32>| old(current)@ + p),
    decreases remaining,
{
    if remaining == 0 {
        let c = current.clone();
        proof {
            assert(c@ =~= current@);
            assert(parts(0, max_part as nat) == seq![Seq::<u32>::empty()]);
            assert(current@ + Seq::<u32>::empty() =~= current@);
            assert(result.deep_view().push(c@) =~= result.deep_view() + parts(
                remaining as nat,
                max_part as nat,
            ).map_values(|p: Seq<u32>| current@ + p));
        }
        let ghost r0 = result.deep_view();
        result.push(c);
        proof {
            assert(c.deep_view() =~= c@);
            assert(result.deep_view() =~= r0.push(c@)) by {
                assert forall|i: int| 0 <= i < result.len() implies #[trigger] result.deep_view()[i]
                    == r0.push(c@)[i] by {
                    if i < result.len() - 1 {
                        assert(result@[i] == old(result)@[i]);
                    }
                }
            }
        }
        return;
    }
    let start = if max_part < remaining {
        max_part
    } else {
        remaining
    };
    let ghost cur0 = current@;
    let ghost res0 = result.deep_view();
    let ghost f = |p: Seq<u32>| cur0 + p;
    let mut part = start;
    while part >= 1
        invariant
            1 <= remaining,
            part <= start <= remaining,
            current@ == cur0,
            forall|p: Seq<u32>| #[trigger] f(p) == cur0 + p,
            res0 + parts(remaining as nat, max_part as nat).map_values(f) == result.deep_view()
                + parts_from(remaining as nat, part as nat).map_values(f),
        decreases part,
    {
        let ghost before = result.deep_view();
        current.push(part);
        partition_helper(remaining - part, part, current, result);
        current.pop();
        proof {
            let g = |p: Seq<u32>| seq![part as u32] + p;
            let sub = parts((remaining - part) as nat, part as nat);
            let h = |p: Seq<u32>| cur0.push(part) + p;
            assert(sub.map_values(g).map_values(f) =~= sub.map_values(h)) by {
                assert forall|i: int| 0 <= i < sub.len() implies #[trigger] sub.map_values(
                    g,
                ).map_values(f)[i] == sub.map_values(h)[i] by {
                    assert(sub.map_values(g)[i] == seq![part as u32] + sub[i]);
                    assert(sub.map_values(g).map_values(f)[i] == cur0 + (seq![part as u32]
                        + sub[i]));
                    assert(sub.map_values(h)[i] == cur0.push(part) + sub[i]);
                    assert(cur0 + (seq![part as u32] + sub[i]) =~= cur0.push(part) + sub[i]);
                }
            }
            assert(parts_from(remaining as nat, part as nat) == sub.map_values(g) + parts_from(
                remaining as nat,
                (part - 1) as nat,
            ));
            let rest = parts_from(remaining as nat, (part - 1) as nat);
            assert((sub.map_values(g) + rest).map_values(f) =~= sub.map_values(g).map_values(f)
                + rest.map_values(f));
            assert(before + (sub.map_values(g).map_values(f) + rest.map_values(f)) =~= (before
                + sub.map_values(g).map_values(f)) + rest.map_values(f));
            assert(current@ =~= cur0);
        }
        part = part - 1;
    }
    proof {
        assert(parts_from(remaining as nat, 0) == Seq::<Seq<u32>>::empty());
        assert(parts(remaining as nat, max_part as nat) == parts_from(remaining as nat, start as nat));
        assert(result.deep_view() + Seq::<Seq<u32>>::empty().map_values(f) =~= result.deep_view());
    }
}

} // verus!
