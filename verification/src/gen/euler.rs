//! Euler's recurrence for the partition function, written with the
//! coefficients of the product `(1 - x)(1 - x^2)(1 - x^3)...`, and the proof
//! that the pentagonal table of `count_partitions` follows it.

use vstd::prelude::*;

use super::counting::{lemma_pent1_ge, pent1, pent2, pent_sum, pent_table, lemma_pent_table_len};

verus! {

/// `(-1)^k`.
pub open spec fn sign_of(k: nat) -> int {
    if k % 2 == 0 {
        1
    } else {
        -1
    }
}

/// The coefficient of `x^w` (`w >= 1`) in `(1 - x)(1 - x^2)(1 - x^3)...`, found
/// by looking at the generalized pentagonal numbers from the `k`-th on:
/// `(-1)^k` where `w` is `k(3k - 1)/2` or `k(3k + 1)/2`, `0` where it is
/// neither.
pub open spec fn pent_coef_from(w: nat, k: nat) -> int
    decreases w + 1 - k,
{
    if k == 0 || pent1(k) > w {
        0
    } else if pent1(k) == w || pent2(k) == w {
        sign_of(k)
    } else {
        proof {
            lemma_pent1_ge(k);
        }
        pent_coef_from(w, k + 1)
    }
}

/// The coefficient of `x^w` in `(1 - x)(1 - x^2)(1 - x^3)...` for `w >= 1`.
pub open spec fn pent_coef(w: nat) -> int {
    pent_coef_from(w, 1)
}

/// `sum over w' from w to i of pent_coef(w') * t[i - w']`.
pub open spec fn coef_tail(t: Seq<int>, i: nat, w: nat) -> int
    decreases i + 1 - w,
{
    if w == 0 || w > i {
        0
    } else {
        pent_coef(w) * t[i - w] + coef_tail(t, i, w + 1)
    }
}

/// The values of Euler's recurrence `p(0) = 1`,
/// `p(i) = -(sum over 1 <= w <= i of pent_coef(w) * p(i - w))`: the partition
/// function, by Euler's pentagonal number theorem.
pub open spec fn euler_table(n: nat) -> Seq<int>
    decreases n,
{
    if n == 0 {
        seq![1int]
    } else {
        let t = euler_table((n - 1) as nat);
        t.push(-coef_tail(t, n, 1))
    }
}

/// The generalized pentagonal numbers come in the order
/// `pent1(k) < pent2(k) < pent1(k + 1)`.
proof fn lemma_pent_order(k: nat)
    requires
        k >= 1,
    ensures
        pent1(k) < pent2(k),
        pent2(k) < pent1(k + 1),
{
    let x = k * ((3 * k - 1) as nat);
    assert(k * (3 * k + 1) == x + 2 * k) by (nonlinear_arith)
        requires
            x == k * ((3 * k - 1) as nat),
            k >= 1,
    ;
    assert((k + 1) * ((3 * (k + 1) - 1) as nat) == x + 6 * k + 2) by (nonlinear_arith)
        requires
            x == k * ((3 * k - 1) as nat),
            k >= 1,
    ;
    assert((x + 2 * k) / 2 == x / 2 + k);
    assert((x + 6 * k + 2) / 2 == x / 2 + 3 * k + 1);
}

/// Every pentagonal number of an earlier index lies below `pent1(k)`.
proof fn lemma_pent_below(j: nat, k: nat)
    requires
        1 <= j < k,
    ensures
        pent2(j) < pent1(k),
    decreases k - j,
{
    lemma_pent_order(j);
    if j + 1 < k {
        lemma_pent_below(j + 1, k);
        lemma_pent_order(j + 1);
    }
}

/// The search from any earlier index finds what index `k` gives for `w` in
/// `[pent1(k), pent1(k + 1))`.
proof fn lemma_coef_search(w: nat, j: nat, k: nat)
    requires
        1 <= j <= k,
        pent1(k) <= w < pent1(k + 1),
    ensures
        pent_coef_from(w, j) == (if w == pent1(k) || w == pent2(k) {
            sign_of(k)
        } else {
            0
        }),
    decreases k - j,
{
    lemma_pent_order(k);
    if j < k {
        lemma_pent_below(j, k);
        lemma_pent1_ge(j);
        lemma_coef_search(w, j + 1, k);
        assert(pent1(j) <= w && w != pent1(j) && w != pent2(j));
        assert(pent_coef_from(w, j) == pent_coef_from(w, j + 1));
    } else {
        lemma_pent1_ge(k);
        assert(pent_coef_from(w, k + 1) == 0);
    }
}

/// The coefficients around the `k`-th pentagonal pair: `(-1)^k` at both, `0`
/// strictly between them and up to `pent1(k + 1)`.
proof fn lemma_coef_at(w: nat, k: nat)
    requires
        k >= 1,
        pent1(k) <= w < pent1(k + 1),
    ensures
        pent_coef(w) == (if w == pent1(k) || w == pent2(k) {
            sign_of(k)
        } else {
            0
        }),
{
    lemma_coef_search(w, 1, k);
}

/// A stretch of zero coefficients adds nothing to the tail sum.
proof fn lemma_tail_skip(t: Seq<int>, i: nat, lo: nat, hi: nat)
    requires
        1 <= lo <= hi <= i + 1,
        forall|w: nat| lo <= w < hi ==> #[trigger] pent_coef(w) == 0,
    ensures
        coef_tail(t, i, lo) == coef_tail(t, i, hi),
    decreases hi - lo,
{
    if lo < hi {
        assert(pent_coef(lo) == 0);
        assert(pent_coef(lo) * t[i - lo] == 0);
        lemma_tail_skip(t, i, lo + 1, hi);
    }
}

/// The tail sum from `pent1(k)` is the `k`-th pair of terms plus the tail from
/// `pent1(k + 1)`.
proof fn lemma_tail_pair(t: Seq<int>, i: nat, k: nat)
    requires
        k >= 1,
        pent1(k) <= i,
    ensures
        coef_tail(t, i, pent1(k)) == sign_of(k) * t[i - pent1(k)] + (if pent2(k) <= i {
            sign_of(k) * t[i - pent2(k)]
        } else {
            0
        }) + coef_tail(t, i, pent1(k + 1)),
{
    let g1 = pent1(k);
    let g2 = pent2(k);
    let g3 = pent1(k + 1);
    lemma_pent_order(k);
    lemma_pent1_ge(k);
    lemma_coef_at(g1, k);
    assert forall|w: nat| g1 + 1 <= w < g2 implies #[trigger] pent_coef(w) == 0 by {
        lemma_coef_at(w, k);
    }
    assert forall|w: nat| g2 + 1 <= w < g3 implies #[trigger] pent_coef(w) == 0 by {
        lemma_coef_at(w, k);
    }
    if g2 <= i {
        lemma_tail_skip(t, i, g1 + 1, g2);
        lemma_coef_at(g2, k);
        if g3 <= i + 1 {
            lemma_tail_skip(t, i, g2 + 1, g3);
        } else {
            lemma_tail_skip(t, i, g2 + 1, i + 1);
        }
    } else {
        lemma_tail_skip(t, i, g1 + 1, i + 1);
    }
}

/// The pentagonal sum from index `k` on is minus the tail sum of the
/// coefficients from `pent1(k)` on.
proof fn lemma_pent_sum_tail(table: Seq<u64>, i: nat, k: nat)
    requires
        k >= 1,
        i >= 1,
        table.len() >= i,
    ensures
        pent_sum(table, i, k) == -coef_tail(table.map_values(|x: u64| x as int), i, pent1(k)),
    decreases i + 1 - k,
{
    let t = table.map_values(|x: u64| x as int);
    lemma_pent1_ge(k);
    if pent1(k) <= i {
        lemma_pent_sum_tail(table, i, k + 1);
        lemma_tail_pair(t, i, k);
        let a = table[i - pent1(k)] as int;
        let b = if pent2(k) <= i {
            table[i - pent2(k)] as int
        } else {
            0int
        };
        assert(t[i - pent1(k)] == a);
        if pent2(k) <= i {
            assert(t[i - pent2(k)] == table[i - pent2(k)] as int);
        }
        let sg = if k % 2 == 1 {
            1int
        } else {
            -1int
        };
        assert(pent_sum(table, i, k) == sg * (a + b) + pent_sum(table, i, k + 1));
        assert(sg == -sign_of(k));
        assert(sg * (a + b) == -(sign_of(k) * a + sign_of(k) * b)) by (nonlinear_arith)
            requires
                sg == -sign_of(k),
                sign_of(k) == 1 || sign_of(k) == -1,
        ;
        assert((if pent2(k) <= i {
            sign_of(k) * t[i - pent2(k)]
        } else {
            0
        }) == sign_of(k) * b);
    } else {
        assert(pent_sum(table, i, k) == 0);
    }
}

proof fn lemma_euler_len(n: nat)
    ensures
        euler_table(n).len() == n + 1,
    decreases n,
{
    if n > 0 {
        lemma_euler_len((n - 1) as nat);
    }
}

/// While Euler's recurrence stays within `u64`, the pentagonal table holds its
/// values: the table of `count_partitions` is the recurrence with the
/// coefficients of `(1 - x)(1 - x^2)(1 - x^3)...`.
pub proof fn lemma_pent_table_is_euler(n: nat)
    requires
        forall|j: int| 0 <= j <= n ==> 0 <= #[trigger] euler_table(n)[j] <= u64::MAX,
    ensures
        euler_table(n).len() == n + 1,
        forall|j: int| 0 <= j <= n ==> #[trigger] pent_table(n)[j] as int == euler_table(n)[j],
    decreases n,
{
    lemma_pent_table_len(n);
    lemma_euler_len(n);
    if n > 0 {
        lemma_euler_len((n - 1) as nat);
        let e = euler_table((n - 1) as nat);
        let pt = pent_table((n - 1) as nat);
        lemma_pent_table_len((n - 1) as nat);
        assert forall|j: int| 0 <= j <= n - 1 implies 0 <= #[trigger] e[j] <= u64::MAX by {
            assert(euler_table(n)[j] == e[j]);
        }
        lemma_pent_table_is_euler((n - 1) as nat);
        assert(pt.map_values(|x: u64| x as int) =~= e);
        lemma_pent_sum_tail(pt, n, 1);
        assert(pent1(1) == 1);
        assert(euler_table(n)[n as int] == -coef_tail(e, n, 1));
        assert forall|j: int| 0 <= j <= n implies #[trigger] pent_table(n)[j] as int == euler_table(n)[j] by {
            if j < n {
                assert(pent_table(n)[j] == pt[j]);
                assert(euler_table(n)[j] == e[j]);
            }
        }
    }
}

} // verus!
