//! Counting functions of combinatorics and their laws: binomial coefficients
//! (Pascal's rule) and derangement numbers.

use vstd::prelude::*;

verus! {

/// The binomial coefficient `C(n, k)`, by Pascal's rule.
pub open spec fn binom(n: nat, k: nat) -> nat
    decreases n,
{
    if k == 0 {
        1
    } else if n == 0 {
        0
    } else {
        binom((n - 1) as nat, (k - 1) as nat) + binom((n - 1) as nat, k)
    }
}

/// There are no `k`-subsets of a smaller set.
pub proof fn lemma_binom_zero(n: nat, k: nat)
    requires
        k > n,
    ensures
        binom(n, k) == 0,
    decreases n,
{
    if n > 0 {
        lemma_binom_zero((n - 1) as nat, (k - 1) as nat);
        lemma_binom_zero((n - 1) as nat, k);
    }
}

/// There is at least one `k`-subset of a set of `n >= k` elements.
pub proof fn lemma_binom_positive(n: nat, k: nat)
    requires
        k <= n,
    ensures
        binom(n, k) >= 1,
    decreases n,
{
    if k > 0 {
        lemma_binom_positive((n - 1) as nat, (k - 1) as nat);
    }
}

/// `C(n, n) == 1`.
pub proof fn lemma_binom_full(n: nat)
    ensures
        binom(n, n) == 1,
    decreases n,
{
    if n > 0 {
        lemma_binom_full((n - 1) as nat);
        lemma_binom_zero((n - 1) as nat, n);
    }
}

/// Absorption: `k * C(n, k) == n * C(n - 1, k - 1)`.
pub proof fn lemma_binom_absorb(n: nat, k: nat)
    requires
        n >= 1,
        k >= 1,
    ensures
        k * binom(n, k) == n * binom((n - 1) as nat, (k - 1) as nat),
    decreases n,
{
    let a = binom((n - 1) as nat, (k - 1) as nat);
    let b = binom((n - 1) as nat, k);
    assert(binom(n, k) == a + b);
    if n == 1 {
        if k == 1 {
            assert(a == 1);
            lemma_binom_zero(0, 1);
            assert(k * (a + b) == n * a) by (nonlinear_arith)
                requires
                    k == 1,
                    n == 1,
                    a == 1,
                    b == 0,
            ;
        } else {
            lemma_binom_zero(0, (k - 1) as nat);
            lemma_binom_zero(0, k);
            assert(k * (a + b) == n * a) by (nonlinear_arith)
                requires
                    a == 0,
                    b == 0,
            ;
        }
    } else if k == 1 {
        // C(n, 1) == 1 + C(n - 1, 1) == 1 + (n - 1)
        lemma_binom_absorb((n - 1) as nat, 1);
        assert(binom((n - 2) as nat, 0) == 1);
        assert(a == 1);
        assert(1 * b == (n - 1) * 1);
        assert(k * (a + b) == n * a) by (nonlinear_arith)
            requires
                k == 1,
                a == 1,
                1 * b == (n - 1) * 1,
        ;
    } else {
        lemma_binom_absorb((n - 1) as nat, k);
        lemma_binom_absorb((n - 1) as nat, (k - 1) as nat);
        let c = binom((n - 2) as nat, (k - 2) as nat);
        let d = binom((n - 2) as nat, (k - 1) as nat);
        assert(a == c + d);
        assert(k * b == (n - 1) * d);
        assert((k - 1) * a == (n - 1) * c);
        assert(k * (a + b) == n * a) by (nonlinear_arith)
            requires
                a == c + d,
                k * b == (n - 1) * d,
                (k - 1) * a == (n - 1) * c,
        ;
    }
}

/// Symmetry: `C(n, k) == C(n, n - k)`.
pub proof fn lemma_binom_symmetric(n: nat, k: nat)
    requires
        k <= n,
    ensures
        binom(n, k) == binom(n, (n - k) as nat),
    decreases n,
{
    if k == 0 || k == n {
        lemma_binom_full(n);
    } else {
        lemma_binom_symmetric((n - 1) as nat, (k - 1) as nat);
        lemma_binom_symmetric((n - 1) as nat, k);
        assert(binom(n, (n - k) as nat) == binom((n - 1) as nat, (n - k - 1) as nat) + binom(
            (n - 1) as nat,
            (n - k) as nat,
        ));
    }
}

/// Growing both arguments by one never decreases the coefficient, while `i <= a`.
pub proof fn lemma_binom_step(a: nat, i: nat)
    requires
        i <= a,
    ensures
        binom(a, i) <= binom(a + 1, i + 1),
        (i + 1) * binom(a + 1, i + 1) == (a + 1) * binom(a, i),
{
    lemma_binom_absorb(a + 1, i + 1);
    assert(binom(a, i) <= binom(a + 1, i + 1)) by (nonlinear_arith)
        requires
            (i + 1) * binom(a + 1, i + 1) == (a + 1) * binom(a, i),
            i <= a,
    ;
}

/// Along the diagonal `C(n - k + i, i)` grows with `i`.
pub proof fn lemma_binom_diagonal(n: nat, k: nat, i: nat)
    requires
        i <= k <= n,
    ensures
        binom((n - k + i) as nat, i) <= binom(n, k),
    decreases k - i,
{
    if i < k {
        lemma_binom_step((n - k + i) as nat, i);
        lemma_binom_diagonal(n, k, i + 1);
    }
}

/// `n!`.
pub open spec fn fact(n: nat) -> nat
    decreases n,
{
    if n == 0 {
        1
    } else {
        n * fact((n - 1) as nat)
    }
}

/// `n!` does not decrease.
pub proof fn lemma_fact_mono(i: nat, n: nat)
    requires
        i <= n,
    ensures
        1 <= fact(i) <= fact(n),
    decreases n,
{
    if n > 0 {
        if i < n {
            lemma_fact_mono(i, (n - 1) as nat);
        } else {
            lemma_fact_mono(0, (n - 1) as nat);
        }
        assert(fact((n - 1) as nat) <= n * fact((n - 1) as nat)) by (nonlinear_arith)
            requires
                n >= 1,
        ;
    }
}

/// The number of derangements `!n`, by `!n = (n - 1) * (!(n - 1) + !(n - 2))`.
pub open spec fn subfact(n: nat) -> nat
    decreases n,
{
    if n == 0 {
        1
    } else if n == 1 {
        0
    } else {
        ((n - 1) * (subfact((n - 1) as nat) + subfact((n - 2) as nat))) as nat
    }
}

/// `!n` does not decrease from `n = 1` on.
pub proof fn lemma_subfact_mono(i: nat, n: nat)
    requires
        1 <= i <= n,
    ensures
        subfact(i) <= subfact(n),
    decreases n - i,
{
    if i < n {
        let a = subfact((i - 1) as nat);
        let b = subfact(i);
        assert(subfact(i + 1) == i * (b + a));
        assert(b <= i * (b + a)) by (nonlinear_arith)
            requires
                i >= 1,
        ;
        lemma_subfact_mono(i + 1, n);
    }
}

/// All partitions of `rem` into parts of size at most `maxp`, each listed with its largest
/// part first, the partitions in decreasing lexicographic order.
pub open spec fn parts(rem: nat, maxp: nat) -> Seq<Seq<u32>>
    decreases rem, rem + 1,
{
    if rem == 0 {
        seq![seq![]]
    } else {
        parts_from(rem, if maxp < rem { maxp } else { rem })
    }
}

/// The partitions of `rem` whose largest part is at most `start` (with `start <= rem`):
/// first those with largest part `start`, then the smaller ones.
pub open spec fn parts_from(rem: nat, start: nat) -> Seq<Seq<u32>>
    decreases rem, start,
{
    if start == 0 || start > rem {
        seq![]
    } else {
        parts((rem - start) as nat, start).map_values(|p: Seq<u32>| seq![start as u32] + p)
            + parts_from(rem, (start - 1) as nat)
    }
}

/// Sum of a sequence of parts.
pub open spec fn parts_sum(p: Seq<u32>) -> nat
    decreases p.len(),
{
    if p.len() == 0 {
        0
    } else {
        (p[0] as nat) + parts_sum(p.drop_first())
    }
}

/// `p` is a partition of `n` into parts of size at most `maxp`: positive parts, largest
/// first, summing to `n`.
pub open spec fn is_partition(p: Seq<u32>, n: nat, maxp: nat) -> bool {
    &&& parts_sum(p) == n
    &&& forall|i: int| 0 <= i < p.len() ==> 1 <= #[trigger] p[i] <= maxp
    &&& forall|i: int, j: int| 0 <= i <= j < p.len() ==> p[j] <= p[i]
}

/// Every listed partition is a partition of `rem` with parts at most `maxp`.
pub proof fn lemma_parts_valid(rem: nat, maxp: nat)
    requires
        rem <= u32::MAX,
    ensures
        forall|i: int|
            0 <= i < parts(rem, maxp).len() ==> is_partition(#[trigger] parts(rem, maxp)[i], rem, maxp),
    decreases rem, rem + 1,
{
    if rem == 0 {
        assert(parts(rem, maxp) == seq![Seq::<u32>::empty()]);
        assert(parts_sum(Seq::<u32>::empty()) == 0);
    } else {
        let s = if maxp < rem { maxp } else { rem };
        lemma_parts_from_valid(rem, s);
        assert forall|i: int| 0 <= i < parts(rem, maxp).len() implies is_partition(
            #[trigger] parts(rem, maxp)[i],
            rem,
            maxp,
        ) by {
            assert(is_partition(parts_from(rem, s)[i], rem, s));
        }
    }
}

/// Every partition listed from `start` is a partition of `rem` with parts at most `start`.
pub proof fn lemma_parts_from_valid(rem: nat, start: nat)
    requires
        rem <= u32::MAX,
    ensures
        forall|i: int|
            0 <= i < parts_from(rem, start).len() ==> is_partition(
                #[trigger] parts_from(rem, start)[i],
                rem,
                start,
            ),
    decreases rem, start,
{
    if start == 0 || start > rem {
    } else {
        let sub = parts((rem - start) as nat, start);
        let f = |p: Seq<u32>| seq![start as u32] + p;
        let left = sub.map_values(f);
        lemma_parts_valid((rem - start) as nat, start);
        lemma_parts_from_valid(rem, (start - 1) as nat);
        assert forall|i: int| 0 <= i < parts_from(rem, start).len() implies is_partition(
            #[trigger] parts_from(rem, start)[i],
            rem,
            start,
        ) by {
            if i < left.len() {
                let p = sub[i];
                assert(is_partition(p, (rem - start) as nat, start));
                let q = seq![start as u32] + p;
                assert(parts_from(rem, start)[i] == q);
                assert(q.drop_first() =~= p);
                assert(parts_sum(q) == start + parts_sum(p));
                assert forall|a: int, b: int| 0 <= a <= b < q.len() implies q[b] <= q[a] by {
                    if a > 0 {
                        assert(q[a] == p[a - 1]);
                        assert(q[b] == p[b - 1]);
                    } else {
                        if b > 0 {
                            assert(q[b] == p[b - 1]);
                        }
                    }
                }
                assert forall|a: int| 0 <= a < q.len() implies 1 <= #[trigger] q[a] <= start by {
                    if a > 0 {
                        assert(q[a] == p[a - 1]);
                    }
                }
            } else {
                let j = i - left.len();
                assert(parts_from(rem, start)[i] == parts_from(rem, (start - 1) as nat)[j]);
                assert(is_partition(parts_from(rem, (start - 1) as nat)[j], rem, (start - 1) as nat));
            }
        }
    }
}

/// A list of positive parts summing to 0 is empty; a nonempty one has its
/// first part at most the sum.
proof fn lemma_parts_sum_first(p: Seq<u32>)
    requires
        forall|i: int| 0 <= i < p.len() ==> 1 <= #[trigger] p[i],
    ensures
        p.len() == 0 <==> parts_sum(p) == 0,
        p.len() > 0 ==> p[0] <= parts_sum(p) && parts_sum(p) == p[0] + parts_sum(p.drop_first()),
{
    if p.len() > 0 {
        assert(p[0] >= 1);
    }
}

/// Every partition of `rem` into parts of size at most `maxp` is listed.
pub proof fn lemma_parts_complete(rem: nat, maxp: nat, p: Seq<u32>)
    requires
        is_partition(p, rem, maxp),
    ensures
        parts(rem, maxp).contains(p),
    decreases rem, rem + 1,
{
    lemma_parts_sum_first(p);
    if rem == 0 {
        assert(p =~= Seq::<u32>::empty());
        assert(parts(rem, maxp)[0] == p);
    } else {
        let s = if maxp < rem { maxp } else { rem };
        assert forall|i: int| 0 <= i < p.len() implies 1 <= #[trigger] p[i] <= s by {
            assert(p[i] <= p[0]);
        }
        lemma_parts_from_complete(rem, s, p);
    }
}

/// Every partition of `rem` with parts of size at most `start` is listed from `start`.
pub proof fn lemma_parts_from_complete(rem: nat, start: nat, p: Seq<u32>)
    requires
        rem > 0,
        start <= rem,
        is_partition(p, rem, start),
    ensures
        parts_from(rem, start).contains(p),
    decreases rem, start,
{
    lemma_parts_sum_first(p);
    assert(p.len() > 0);
    let sub = parts((rem - start) as nat, start);
    let f = |q: Seq<u32>| seq![start as u32] + q;
    let left = sub.map_values(f);
    assert(start >= 1) by {
        assert(p[0] >= 1 && p[0] <= start);
    }
    assert(parts_from(rem, start) == left + parts_from(rem, (start - 1) as nat));
    if p[0] == start {
        let rest = p.drop_first();
        assert forall|i: int| 0 <= i < rest.len() implies 1 <= #[trigger] rest[i] <= start by {
            assert(rest[i] == p[i + 1]);
        }
        assert forall|a: int, b: int| 0 <= a <= b < rest.len() implies rest[b] <= rest[a] by {
            assert(rest[a] == p[a + 1]);
            assert(rest[b] == p[b + 1]);
        }
        assert(is_partition(rest, (rem - start) as nat, start));
        lemma_parts_complete((rem - start) as nat, start, rest);
        let j = choose|j: int| 0 <= j < sub.len() && sub[j] == rest;
        assert(left[j] == f(rest));
        assert(f(rest) =~= p);
        assert((left + parts_from(rem, (start - 1) as nat))[j] == p);
    } else {
        assert forall|i: int| 0 <= i < p.len() implies 1 <= #[trigger] p[i] <= start - 1 by {
            assert(p[i] <= p[0]);
        }
        lemma_parts_from_complete(rem, (start - 1) as nat, p);
        let r = parts_from(rem, (start - 1) as nat);
        let j = choose|j: int| 0 <= j < r.len() && r[j] == p;
        assert((left + r)[left.len() + j] == p);
    }
}

/// No partition is listed twice.
pub proof fn lemma_parts_distinct(rem: nat, maxp: nat)
    requires
        rem <= u32::MAX,
    ensures
        parts(rem, maxp).no_duplicates(),
    decreases rem, rem + 1,
{
    if rem > 0 {
        lemma_parts_from_distinct(rem, if maxp < rem { maxp } else { rem });
    }
}

/// No partition is listed twice from `start`, and each listed one starts with a
/// part of size at most `start`.
pub proof fn lemma_parts_from_distinct(rem: nat, start: nat)
    requires
        rem <= u32::MAX,
    ensures
        parts_from(rem, start).no_duplicates(),
        forall|i: int| 0 <= i < parts_from(rem, start).len() ==> (#[trigger] parts_from(rem, start)[i]).len() > 0
            && parts_from(rem, start)[i][0] <= start,
    decreases rem, start,
{
    if !(start == 0 || start > rem) {
        let sub = parts((rem - start) as nat, start);
        let f = |q: Seq<u32>| seq![start as u32] + q;
        let left = sub.map_values(f);
        let right = parts_from(rem, (start - 1) as nat);
        lemma_parts_distinct((rem - start) as nat, start);
        lemma_parts_from_distinct(rem, (start - 1) as nat);
        assert forall|a: int, b: int| 0 <= a < left.len() && 0 <= b < left.len() && a != b implies left[a]
            != left[b] by {
            assert(sub[a] != sub[b]);
            if left[a] == left[b] {
                assert(sub[a] =~= left[a].drop_first());
                assert(sub[b] =~= left[b].drop_first());
            }
        }
        assert forall|a: int, b: int| 0 <= a < left.len() && 0 <= b < right.len() implies left[a] != right[b] by {
            assert(left[a][0] == start as u32);
            assert(right[b][0] <= start - 1);
        }
        vstd::seq_lib::lemma_no_dup_in_concat(left, right);
        assert(parts_from(rem, start) == left + right);
        assert forall|i: int| 0 <= i < parts_from(rem, start).len() implies (#[trigger] parts_from(rem, start)[i]).len()
            > 0 && parts_from(rem, start)[i][0] <= start by {
            if i < left.len() {
                assert(parts_from(rem, start)[i] == left[i]);
            } else {
                assert(parts_from(rem, start)[i] == right[i - left.len()]);
            }
        }
    }
}

/// `a` comes after `b` in lexicographic order: at the first place where they
/// differ `a` has the larger part, or `b` has ended.
pub open spec fn lex_greater(a: Seq<u32>, b: Seq<u32>) -> bool
    decreases a.len(),
{
    if a.len() == 0 {
        false
    } else if b.len() == 0 {
        true
    } else if a[0] != b[0] {
        a[0] > b[0]
    } else {
        lex_greater(a.drop_first(), b.drop_first())
    }
}

/// The list goes down in lexicographic order.
pub open spec fn lex_decreasing(s: Seq<Seq<u32>>) -> bool {
    forall|i: int, j: int| 0 <= i < j < s.len() ==> lex_greater(#[trigger] s[i], #[trigger] s[j])
}

/// The partitions are listed in decreasing lexicographic order.
pub proof fn lemma_parts_sorted(rem: nat, maxp: nat)
    requires
        rem <= u32::MAX,
    ensures
        lex_decreasing(parts(rem, maxp)),
    decreases rem, rem + 1,
{
    if rem > 0 {
        lemma_parts_from_sorted(rem, if maxp < rem { maxp } else { rem });
    }
}

/// The partitions listed from `start` go down in lexicographic order.
pub proof fn lemma_parts_from_sorted(rem: nat, start: nat)
    requires
        rem <= u32::MAX,
    ensures
        lex_decreasing(parts_from(rem, start)),
    decreases rem, start,
{
    if !(start == 0 || start > rem) {
        let sub = parts((rem - start) as nat, start);
        let f = |q: Seq<u32>| seq![start as u32] + q;
        let left = sub.map_values(f);
        let right = parts_from(rem, (start - 1) as nat);
        lemma_parts_sorted((rem - start) as nat, start);
        lemma_parts_from_sorted(rem, (start - 1) as nat);
        lemma_parts_from_distinct(rem, (start - 1) as nat);
        let all = parts_from(rem, start);
        assert(all == left + right);
        assert forall|i: int, j: int| 0 <= i < j < all.len() implies lex_greater(#[trigger] all[i], #[trigger] all[j]) by {
            if j < left.len() {
                assert(all[i] == f(sub[i]));
                assert(all[j] == f(sub[j]));
                assert(lex_greater(sub[i], sub[j]));
                assert(f(sub[i]).drop_first() =~= sub[i]);
                assert(f(sub[j]).drop_first() =~= sub[j]);
            } else if i < left.len() {
                assert(all[i] == f(sub[i]));
                assert(all[j] == right[j - left.len()]);
                assert(right[j - left.len()].len() > 0 && right[j - left.len()][0] <= start - 1);
            } else {
                assert(all[i] == right[i - left.len()]);
                assert(all[j] == right[j - left.len()]);
                assert(lex_greater(right[i - left.len()], right[j - left.len()]));
            }
        }
    }
}

/// The partitions of `n`: non-increasing lists of positive parts summing to `n`.
pub open spec fn partitions_of(n: nat) -> Set<Seq<u32>> {
    Set::new(|p: Seq<u32>| is_partition(p, n, n))
}

/// The listing holds each partition of `n` once: its length is the number of
/// partitions of `n`.
pub proof fn lemma_parts_count(n: nat)
    requires
        n <= u32::MAX,
    ensures
        partitions_of(n).finite(),
        parts(n, n).len() == partitions_of(n).len(),
{
    lemma_parts_valid(n, n);
    lemma_parts_distinct(n, n);
    let l = parts(n, n);
    assert(l.to_set() =~= partitions_of(n)) by {
        assert forall|p: Seq<u32>| partitions_of(n).contains(p) implies l.to_set().contains(p) by {
            lemma_parts_complete(n, n, p);
        }
        assert forall|p: Seq<u32>| l.to_set().contains(p) implies partitions_of(n).contains(p) by {
            let t = choose|t: int| 0 <= t < l.len() && l[t] == p;
        }
    }
    l.unique_seq_to_set();
}

/// The generalized pentagonal number `k (3k - 1) / 2`.
pub open spec fn pent1(k: nat) -> nat {
    (k * ((3 * k - 1) as nat) / 2) as nat
}

/// The generalized pentagonal number `k (3k + 1) / 2`.
pub open spec fn pent2(k: nat) -> nat {
    k * (3 * k + 1) / 2
}

/// `k <= k (3k - 1) / 2` for positive `k`.
pub proof fn lemma_pent1_ge(k: nat)
    requires
        k >= 1,
    ensures
        k <= pent1(k) <= pent2(k),
{
    assert(k * ((3 * k - 1) as nat) >= 2 * k) by (nonlinear_arith)
        requires
            k >= 1,
    ;
    assert(k * ((3 * k - 1) as nat) <= k * (3 * k + 1)) by (nonlinear_arith)
        requires
            k >= 1,
    ;
}

/// The terms of Euler's pentagonal recurrence for index `i`, from `k` on, read from `table`
/// (which holds the values at indices below `i`):
/// `sum over k' >= k with pent1(k') <= i of (-1)^(k'+1) (table[i - pent1(k')] + table[i - pent2(k')])`,
/// the second term only where `pent2(k') <= i`.
pub open spec fn pent_sum(table: Seq<u64>, i: nat, k: nat) -> int
    decreases i + 1 - k,
{
    if k == 0 || pent1(k) > i {
        0
    } else {
        proof {
            lemma_pent1_ge(k);
        }
        (if k % 2 == 1 {
            1int
        } else {
            -1int
        }) * ((table[i - pent1(k)] as int) + (if pent2(k) <= i {
            table[i - pent2(k)] as int
        } else {
            0int
        })) + pent_sum(table, i, k + 1)
    }
}

/// The table of values of Euler's pentagonal-number recurrence for the partition function,
/// `p(0) = 1`, `p(i) = sum over k >= 1 of (-1)^(k+1) (p(i - k(3k-1)/2) + p(i - k(3k+1)/2))`,
/// each value kept as a `u64` (reduced modulo 2^64).
pub open spec fn pent_table(n: nat) -> Seq<u64>
    decreases n,
{
    if n == 0 {
        seq![1u64]
    } else {
        let t = pent_table((n - 1) as nat);
        t.push(pent_sum(t, n, 1) as u64)
    }
}

/// The table for `n` has `n + 1` entries and extends the tables below it.
pub proof fn lemma_pent_table_len(n: nat)
    ensures
        pent_table(n).len() == n + 1,
    decreases n,
{
    if n > 0 {
        lemma_pent_table_len((n - 1) as nat);
    }
}

} // verus!
