//! How many derangements there are: a list of the derangements of `0..n`,
//! built from those of `0..n-1` and `0..n-2`, that holds each of them once and
//! has `!n` entries.

use vstd::prelude::*;
use vstd::set_lib::{lemma_int_range, lemma_len_subset, set_int_range};
use vstd::seq_lib::lemma_no_dup_in_concat;

use super::combinatorics::is_index_derangement;
use super::counting::subfact;

verus! {

/// The arrangement of `0..=n` built from a derangement `d` of `0..n` and a
/// position `i < n`: position `i` takes `n`, and `n` takes what `i` had.
pub open spec fn ins_a(d: Seq<usize>, i: int) -> Seq<usize> {
    d.update(i, d.len() as usize).push(d[i])
}

/// `v` moved up by one from `i` on, leaving room for `i`.
pub open spec fn lift(v: usize, i: int) -> usize {
    if v < i {
        v
    } else {
        (v + 1) as usize
    }
}

/// The arrangement of `0..=n` built from a derangement `e` of `0..n-1` and a
/// position `i < n`: `i` and `n` trade places, and the other positions carry
/// `e`, moved up around `i`.
pub open spec fn ins_b(e: Seq<usize>, i: int) -> Seq<usize> {
    let n = e.len() + 1;
    Seq::new(
        (n + 1) as nat,
        |q: int|
            if q == i {
                n as usize
            } else if q == n {
                i as usize
            } else if q < i {
                lift(e[q], i)
            } else {
                lift(e[q - 1], i)
            },
    )
}

/// The arrangements `ins_a(d, i)` for `i < k`, `d` running through `l` for each `i`.
pub open spec fn part_a(l: Seq<Seq<usize>>, k: nat) -> Seq<Seq<usize>>
    decreases k,
{
    if k == 0 {
        Seq::empty()
    } else {
        part_a(l, (k - 1) as nat) + l.map_values(|d: Seq<usize>| ins_a(d, k - 1))
    }
}

/// The arrangements `ins_b(e, i)` for `i < k`, `e` running through `l` for each `i`.
pub open spec fn part_b(l: Seq<Seq<usize>>, k: nat) -> Seq<Seq<usize>>
    decreases k,
{
    if k == 0 {
        Seq::empty()
    } else {
        part_b(l, (k - 1) as nat) + l.map_values(|e: Seq<usize>| ins_b(e, k - 1))
    }
}

/// The derangements of `0..n`, listed by where `n - 1` goes and whether it
/// trades places.
pub open spec fn der_list(n: nat) -> Seq<Seq<usize>>
    decreases n,
{
    if n == 0 {
        seq![Seq::<usize>::empty()]
    } else if n == 1 {
        Seq::empty()
    } else {
        part_a(der_list((n - 1) as nat), (n - 1) as nat) + part_b(der_list((n - 2) as nat), (n - 1) as nat)
    }
}

/// The derangements of `0..n`.
pub open spec fn derangements_of(n: nat) -> Set<Seq<usize>> {
    Set::new(|s: Seq<usize>| is_index_derangement(s, n))
}

proof fn lemma_part_a_len(l: Seq<Seq<usize>>, k: nat)
    ensures
        part_a(l, k).len() == k * l.len(),
    decreases k,
{
    if k > 0 {
        let j = (k - 1) as nat;
        lemma_part_a_len(l, j);
        assert(part_a(l, k).len() == part_a(l, j).len() + l.len());
        assert(j * l.len() + l.len() == k * l.len()) by (nonlinear_arith)
            requires
                j + 1 == k,
        ;
    } else {
        assert(0 * l.len() == 0) by (nonlinear_arith);
    }
}

proof fn lemma_part_b_len(l: Seq<Seq<usize>>, k: nat)
    ensures
        part_b(l, k).len() == k * l.len(),
    decreases k,
{
    if k > 0 {
        let j = (k - 1) as nat;
        lemma_part_b_len(l, j);
        assert(part_b(l, k).len() == part_b(l, j).len() + l.len());
        assert(j * l.len() + l.len() == k * l.len()) by (nonlinear_arith)
            requires
                j + 1 == k,
        ;
    } else {
        assert(0 * l.len() == 0) by (nonlinear_arith);
    }
}

proof fn lemma_der_list_len(n: nat)
    ensures
        der_list(n).len() == subfact(n),
    decreases n,
{
    if n >= 2 {
        lemma_der_list_len((n - 1) as nat);
        lemma_der_list_len((n - 2) as nat);
        lemma_part_a_len(der_list((n - 1) as nat), (n - 1) as nat);
        lemma_part_b_len(der_list((n - 2) as nat), (n - 1) as nat);
        let a = subfact((n - 1) as nat);
        let b = subfact((n - 2) as nat);
        assert((n - 1) * a + (n - 1) * b == (n - 1) * (a + b)) by (nonlinear_arith);
    }
}

/// `ins_a` turns a derangement of `0..m` into one of `0..=m`.
proof fn lemma_ins_a_derangement(d: Seq<usize>, m: nat, i: int)
    requires
        is_index_derangement(d, m),
        0 <= i < m,
        m < usize::MAX,
    ensures
        is_index_derangement(ins_a(d, i), m + 1),
{
    let s = ins_a(d, i);
    assert forall|q: int| 0 <= q < s.len() implies #[trigger] s[q] < m + 1 && s[q] != q by {
        if q < m && q != i {
            assert(s[q] == d[q]);
        }
    }
    assert forall|a: int, b: int| 0 <= a < s.len() && 0 <= b < s.len() && a != b implies s[a] != s[b] by {
        if a < m && a != i && b < m && b != i {
            assert(d[a] != d[b]);
        } else if a < m && a != i && b == m {
            assert(d[a] != d[i]);
        } else if b < m && b != i && a == m {
            assert(d[b] != d[i]);
        }
    }
}

/// `ins_b` turns a derangement of `0..m-1` into one of `0..=m`.
proof fn lemma_ins_b_derangement(e: Seq<usize>, m: nat, i: int)
    requires
        m >= 1,
        is_index_derangement(e, (m - 1) as nat),
        0 <= i < m,
        m < usize::MAX,
    ensures
        is_index_derangement(ins_b(e, i), m + 1),
{
    let s = ins_b(e, i);
    assert(s.len() == m + 1);
    assert forall|q: int| 0 <= q < s.len() implies #[trigger] s[q] < m + 1 && s[q] != q && (q != i && q != m ==> s[q]
        != i && s[q] < m) by {
        if q < i {
            assert(e[q] < m - 1 && e[q] != q);
        } else if i < q < m {
            assert(e[q - 1] < m - 1 && e[q - 1] != q - 1);
        }
    }
    assert forall|a: int, b: int| 0 <= a < s.len() && 0 <= b < s.len() && a != b implies s[a] != s[b] by {
        if a != i && a != m && b != i && b != m {
            let a1 = if a < i { a } else { a - 1 };
            let b1 = if b < i { b } else { b - 1 };
            assert(a1 != b1);
            assert(e[a1] != e[b1]);
            assert(s[a] == lift(e[a1], i));
            assert(s[b] == lift(e[b1], i));
        } else if a == i || b == i {
            assert(s[i] == m);
        }
    }
}

/// `x` is `ins_a(d, i)` for some `i < k` and some `d` of `l`.
pub open spec fn from_a(l: Seq<Seq<usize>>, k: nat, x: Seq<usize>) -> bool {
    exists|i: int, j: int| 0 <= i < k && 0 <= j < l.len() && x == #[trigger] ins_a(l[j], i)
}

/// `x` is `ins_b(e, i)` for some `i < k` and some `e` of `l`.
pub open spec fn from_b(l: Seq<Seq<usize>>, k: nat, x: Seq<usize>) -> bool {
    exists|i: int, j: int| 0 <= i < k && 0 <= j < l.len() && x == #[trigger] ins_b(l[j], i)
}

proof fn lemma_part_a_members(l: Seq<Seq<usize>>, k: nat)
    ensures
        forall|t: int| 0 <= t < part_a(l, k).len() ==> from_a(l, k, #[trigger] part_a(l, k)[t]),
        forall|i: int, j: int| 0 <= i < k && 0 <= j < l.len() ==> part_a(l, k).contains(#[trigger] ins_a(l[j], i)),
    decreases k,
{
    if k > 0 {
        let k1 = (k - 1) as nat;
        lemma_part_a_members(l, k1);
        lemma_part_a_len(l, k1);
        let p = part_a(l, k1);
        let blk = l.map_values(|d: Seq<usize>| ins_a(d, k - 1));
        assert(part_a(l, k) == p + blk);
        assert forall|t: int| 0 <= t < part_a(l, k).len() implies from_a(l, k, #[trigger] part_a(l, k)[t]) by {
            if t < p.len() {
                assert(from_a(l, k1, p[t]));
                let (i, j) = choose|i: int, j: int| 0 <= i < k1 && 0 <= j < l.len() && p[t] == #[trigger] ins_a(l[j], i);
                assert(part_a(l, k)[t] == ins_a(l[j], i));
            } else {
                let j = t - p.len();
                assert(part_a(l, k)[t] == blk[j]);
                assert(blk[j] == ins_a(l[j], k - 1));
            }
        }
        assert forall|i: int, j: int| 0 <= i < k && 0 <= j < l.len() implies part_a(l, k).contains(#[trigger] ins_a(l[j], i)) by {
            if i < k1 {
                assert(p.contains(ins_a(l[j], i)));
                let t = choose|t: int| 0 <= t < p.len() && p[t] == ins_a(l[j], i);
                assert(part_a(l, k)[t] == p[t]);
            } else {
                assert(part_a(l, k)[p.len() + j] == blk[j]);
            }
        }
    }
}

proof fn lemma_part_b_members(l: Seq<Seq<usize>>, k: nat)
    ensures
        forall|t: int| 0 <= t < part_b(l, k).len() ==> from_b(l, k, #[trigger] part_b(l, k)[t]),
        forall|i: int, j: int| 0 <= i < k && 0 <= j < l.len() ==> part_b(l, k).contains(#[trigger] ins_b(l[j], i)),
    decreases k,
{
    if k > 0 {
        let k1 = (k - 1) as nat;
        lemma_part_b_members(l, k1);
        lemma_part_b_len(l, k1);
        let p = part_b(l, k1);
        let blk = l.map_values(|e: Seq<usize>| ins_b(e, k - 1));
        assert(part_b(l, k) == p + blk);
        assert forall|t: int| 0 <= t < part_b(l, k).len() implies from_b(l, k, #[trigger] part_b(l, k)[t]) by {
            if t < p.len() {
                assert(from_b(l, k1, p[t]));
                let (i, j) = choose|i: int, j: int| 0 <= i < k1 && 0 <= j < l.len() && p[t] == #[trigger] ins_b(l[j], i);
                assert(part_b(l, k)[t] == ins_b(l[j], i));
            } else {
                let j = t - p.len();
                assert(part_b(l, k)[t] == blk[j]);
                assert(blk[j] == ins_b(l[j], k - 1));
            }
        }
        assert forall|i: int, j: int| 0 <= i < k && 0 <= j < l.len() implies part_b(l, k).contains(#[trigger] ins_b(l[j], i)) by {
            if i < k1 {
                assert(p.contains(ins_b(l[j], i)));
                let t = choose|t: int| 0 <= t < p.len() && p[t] == ins_b(l[j], i);
                assert(part_b(l, k)[t] == p[t]);
            } else {
                assert(part_b(l, k)[p.len() + j] == blk[j]);
            }
        }
    }
}

/// Built from derangements of `0..m`, the arrangements of `part_a` are all different.
proof fn lemma_part_a_distinct(l: Seq<Seq<usize>>, m: nat, k: nat)
    requires
        l.no_duplicates(),
        forall|j: int| 0 <= j < l.len() ==> is_index_derangement(#[trigger] l[j], m),
        k <= m,
        m < usize::MAX,
    ensures
        part_a(l, k).no_duplicates(),
    decreases k,
{
    if k > 0 {
        let k1 = (k - 1) as nat;
        let i = k - 1;
        lemma_part_a_distinct(l, m, k1);
        lemma_part_a_members(l, k1);
        let p = part_a(l, k1);
        let blk = l.map_values(|d: Seq<usize>| ins_a(d, k - 1));
        assert forall|a: int, b: int| 0 <= a < b < blk.len() implies blk[a] != blk[b] by {
            assert(blk[a] == ins_a(l[a], i));
            assert(blk[b] == ins_a(l[b], i));
            if blk[a] == blk[b] {
                assert(l[a] =~= l[b]) by {
                    assert forall|q: int| 0 <= q < m implies l[a][q] == l[b][q] by {
                        if q == i {
                            assert(ins_a(l[a], i)[m as int] == ins_a(l[b], i)[m as int]);
                        } else {
                            assert(ins_a(l[a], i)[q] == ins_a(l[b], i)[q]);
                        }
                    }
                }
            }
        }
        assert forall|a: int, b: int| 0 <= a < p.len() && 0 <= b < blk.len() implies p[a] != blk[b] by {
            assert(from_a(l, k1, p[a]));
            let (i2, j) = choose|i2: int, j: int| 0 <= i2 < k1 && 0 <= j < l.len() && p[a] == #[trigger] ins_a(l[j], i2);
            assert(blk[b] == ins_a(l[b], i));
            assert(p[a][i2] == m);
            assert(blk[b][i2] == l[b][i2]);
            assert(l[b][i2] < m);
        }
        lemma_no_dup_in_concat(p, blk);
        assert(part_a(l, k) == p + blk);
    }
}

/// Built from derangements of `0..m-1`, the arrangements of `part_b` are all different.
proof fn lemma_part_b_distinct(l: Seq<Seq<usize>>, m: nat, k: nat)
    requires
        m >= 1,
        l.no_duplicates(),
        forall|j: int| 0 <= j < l.len() ==> is_index_derangement(#[trigger] l[j], (m - 1) as nat),
        k <= m,
        m < usize::MAX,
    ensures
        part_b(l, k).no_duplicates(),
    decreases k,
{
    if k > 0 {
        let k1 = (k - 1) as nat;
        let i = k - 1;
        lemma_part_b_distinct(l, m, k1);
        lemma_part_b_members(l, k1);
        let p = part_b(l, k1);
        let blk = l.map_values(|e: Seq<usize>| ins_b(e, k - 1));
        assert forall|a: int, b: int| 0 <= a < b < blk.len() implies blk[a] != blk[b] by {
            assert(blk[a] == ins_b(l[a], i));
            assert(blk[b] == ins_b(l[b], i));
            if blk[a] == blk[b] {
                assert(l[a] =~= l[b]) by {
                    assert forall|q: int| 0 <= q < m - 1 implies l[a][q] == l[b][q] by {
                        let pos = if q < i { q } else { q + 1 };
                        assert(ins_b(l[a], i)[pos] == ins_b(l[b], i)[pos]);
                        assert(l[a][q] < m - 1 && l[b][q] < m - 1);
                    }
                }
            }
        }
        assert forall|a: int, b: int| 0 <= a < p.len() && 0 <= b < blk.len() implies p[a] != blk[b] by {
            assert(from_b(l, k1, p[a]));
            let (i2, j) = choose|i2: int, j: int| 0 <= i2 < k1 && 0 <= j < l.len() && p[a] == #[trigger] ins_b(l[j], i2);
            assert(blk[b] == ins_b(l[b], i));
            assert(p[a][m as int] == i2);
            assert(blk[b][m as int] == i);
        }
        lemma_no_dup_in_concat(p, blk);
        assert(part_b(l, k) == p + blk);
    }
}

/// No arrangement is built both ways: in `ins_b`, `n` and the position it
/// points to trade places, in `ins_a` they do not.
proof fn lemma_a_b_differ(d: Seq<usize>, i: int, e: Seq<usize>, i2: int, m: nat)
    requires
        m >= 1,
        is_index_derangement(d, m),
        is_index_derangement(e, (m - 1) as nat),
        0 <= i < m,
        0 <= i2 < m,
        m < usize::MAX,
    ensures
        ins_a(d, i) != ins_b(e, i2),
{
    let x = ins_a(d, i);
    let y = ins_b(e, i2);
    if x == y {
        assert(y[m as int] == i2);
        assert(y[i2] == m);
        assert(x[m as int] == d[i]);
        let j = d[i] as int;
        assert(j != i && j < m);
        assert(x[j] == d[j]);
        assert(d[j] < m);
    }
}

/// An arrangement of `0..n` holds every value below `n`.
pub proof fn lemma_arrangement_onto(s: Seq<usize>, n: nat, v: usize)
    requires
        s.len() == n,
        s.no_duplicates(),
        forall|q: int| 0 <= q < s.len() ==> #[trigger] s[q] < n,
        v < n,
    ensures
        s.contains(v),
{
    if !s.contains(v) {
        let t = s.map_values(|x: usize| x as int);
        assert(t.no_duplicates()) by {
            assert forall|a: int, b: int| 0 <= a < t.len() && 0 <= b < t.len() && a != b implies t[a] != t[b] by {
                assert(s[a] != s[b]);
            }
        }
        let r = set_int_range(0, n as int).remove(v as int);
        lemma_int_range(0, n as int);
        assert(t.to_set().subset_of(r)) by {
            assert forall|x: int| t.to_set().contains(x) implies r.contains(x) by {
                let q = choose|q: int| 0 <= q < t.len() && t[q] == x;
                assert(s[q] < n);
                if x == v as int {
                    assert(s[q] == v);
                }
            }
        }
        lemma_len_subset(t.to_set(), r);
        t.unique_seq_to_set();
    }
}

/// `v` moved down by one above `i`, closing the gap at `i`.
pub open spec fn unlift(v: usize, i: int) -> usize {
    if v < i {
        v
    } else {
        (v - 1) as usize
    }
}

/// A derangement of `0..=m` in which `m` and the position it points to trade
/// places comes from `ins_b`.
proof fn lemma_from_b(sg: Seq<usize>, m: nat) -> (e: Seq<usize>)
    requires
        m >= 1,
        m < usize::MAX,
        is_index_derangement(sg, m + 1),
        sg[sg[m as int] as int] == m,
    ensures
        is_index_derangement(e, (m - 1) as nat),
        ins_b(e, sg[m as int] as int) == sg,
{
    let j = sg[m as int] as int;
    assert(j < m) by {
        assert(sg[m as int] != m);
    }
    let e = Seq::new((m - 1) as nat, |q: int| unlift(sg[if q < j { q } else { q + 1 }], j));
    assert forall|q: int| 0 <= q < e.len() implies #[trigger] e[q] < m - 1 && e[q] != q && (q < j ==> lift(e[q], j) == sg[q])
        && (q >= j ==> lift(e[q], j) == sg[q + 1]) by {
        let pos = if q < j { q } else { q + 1 };
        let v = sg[pos];
        assert(v != m) by {
            assert(sg[j] == m);
        }
        assert(v != j) by {
            assert(sg[m as int] == j);
        }
        assert(v < m + 1 && v != pos);
    }
    assert forall|a: int, b: int| 0 <= a < e.len() && 0 <= b < e.len() && a != b implies e[a] != e[b] by {
        let pa = if a < j { a } else { a + 1 };
        let pb = if b < j { b } else { b + 1 };
        assert(sg[pa] != sg[pb]);
        assert(sg[pa] != j && sg[pb] != j) by {
            assert(sg[m as int] == j);
        }
    }
    let y = ins_b(e, j);
    assert(y =~= sg) by {
        assert forall|q: int| 0 <= q < sg.len() implies y[q] == sg[q] by {
            if q == j {
            } else if q == m {
            } else if q < j {
                assert(lift(e[q], j) == sg[q]);
            } else {
                assert(lift(e[q - 1], j) == sg[q]);
            }
        }
    }
    e
}

/// A derangement of `0..=m` in which `m` and the position it points to do not
/// trade places comes from `ins_a`.
proof fn lemma_from_a(sg: Seq<usize>, m: nat, i: int) -> (d: Seq<usize>)
    requires
        m >= 1,
        m < usize::MAX,
        is_index_derangement(sg, m + 1),
        sg[sg[m as int] as int] != m,
        0 <= i <= m,
        sg[i] == m,
    ensures
        i < m,
        is_index_derangement(d, m),
        ins_a(d, i) == sg,
{
    let j = sg[m as int] as int;
    assert(i != m) by {
        assert(sg[m as int] != m);
    }
    assert(j != i);
    let d = sg.update(i, j as usize).drop_last();
    assert forall|q: int| 0 <= q < d.len() implies #[trigger] d[q] < m && d[q] != q by {
        if q != i {
            assert(sg[q] != sg[i]);
        }
    }
    assert forall|a: int, b: int| 0 <= a < d.len() && 0 <= b < d.len() && a != b implies d[a] != d[b] by {
        if a == i {
            assert(sg[m as int] != sg[b]);
        } else if b == i {
            assert(sg[m as int] != sg[a]);
        } else {
            assert(sg[a] != sg[b]);
        }
    }
    assert(ins_a(d, i) =~= sg);
    d
}

/// The list holds the derangements of `0..n`, each exactly once, and nothing else.
proof fn lemma_der_list(n: nat)
    requires
        n <= usize::MAX,
    ensures
        der_list(n).no_duplicates(),
        forall|t: int| 0 <= t < der_list(n).len() ==> is_index_derangement(#[trigger] der_list(n)[t], n),
        forall|s: Seq<usize>| is_index_derangement(s, n) ==> #[trigger] der_list(n).contains(s),
    decreases n,
{
    if n == 0 {
        assert forall|s: Seq<usize>| is_index_derangement(s, n) implies #[trigger] der_list(n).contains(s) by {
            assert(s =~= Seq::<usize>::empty());
            assert(der_list(n)[0] == s);
        }
    } else if n == 1 {
        assert forall|s: Seq<usize>| is_index_derangement(s, n) implies #[trigger] der_list(n).contains(s) by {
            assert(s[0] < 1 && s[0] != 0);
        }
    } else {
        let m = (n - 1) as nat;
        let la = der_list(m);
        let lb = der_list((m - 1) as nat);
        lemma_der_list(m);
        lemma_der_list((m - 1) as nat);
        lemma_part_a_members(la, m);
        lemma_part_b_members(lb, m);
        lemma_part_a_distinct(la, m, m);
        lemma_part_b_distinct(lb, m, m);
        let pa = part_a(la, m);
        let pb = part_b(lb, m);
        assert(der_list(n) == pa + pb);
        assert forall|a: int, b: int| 0 <= a < pa.len() && 0 <= b < pb.len() implies pa[a] != pb[b] by {
            assert(from_a(la, m, pa[a]));
            assert(from_b(lb, m, pb[b]));
            let (i, j) = choose|i: int, j: int| 0 <= i < m && 0 <= j < la.len() && pa[a] == #[trigger] ins_a(la[j], i);
            let (i2, j2) = choose|i2: int, j2: int| 0 <= i2 < m && 0 <= j2 < lb.len() && pb[b] == #[trigger] ins_b(lb[j2], i2);
            lemma_a_b_differ(la[j], i, lb[j2], i2, m);
        }
        lemma_no_dup_in_concat(pa, pb);
        assert forall|t: int| 0 <= t < der_list(n).len() implies is_index_derangement(#[trigger] der_list(n)[t], n) by {
            if t < pa.len() {
                assert(from_a(la, m, pa[t]));
                let (i, j) = choose|i: int, j: int| 0 <= i < m && 0 <= j < la.len() && pa[t] == #[trigger] ins_a(la[j], i);
                lemma_ins_a_derangement(la[j], m, i);
            } else {
                let u = t - pa.len();
                assert(der_list(n)[t] == pb[u]);
                assert(from_b(lb, m, pb[u]));
                let (i, j) = choose|i: int, j: int| 0 <= i < m && 0 <= j < lb.len() && pb[u] == #[trigger] ins_b(lb[j], i);
                lemma_ins_b_derangement(lb[j], m, i);
            }
        }
        assert forall|s: Seq<usize>| is_index_derangement(s, n) implies #[trigger] der_list(n).contains(s) by {
            let j = s[m as int] as int;
            if s[j] == m {
                let e = lemma_from_b(s, m);
                assert(lb.contains(e));
                let q = choose|q: int| 0 <= q < lb.len() && lb[q] == e;
                assert(pb.contains(ins_b(lb[q], j)));
                let t = choose|t: int| 0 <= t < pb.len() && pb[t] == ins_b(lb[q], j);
                assert(der_list(n)[pa.len() + t] == s);
            } else {
                lemma_arrangement_onto(s, n, m as usize);
                let i = choose|i: int| 0 <= i < s.len() && s[i] == m as usize;
                let d = lemma_from_a(s, m, i);
                assert(la.contains(d));
                let q = choose|q: int| 0 <= q < la.len() && la[q] == d;
                assert(pa.contains(ins_a(la[q], i)));
                let t = choose|t: int| 0 <= t < pa.len() && pa[t] == ins_a(la[q], i);
                assert(der_list(n)[t] == s);
            }
        }
    }
}

/// There are `!n` derangements of `0..n`: the subfactorial counts the
/// arrangements of `0..n` in which no value stands at its own index.
pub proof fn lemma_derangement_count(n: nat)
    requires
        n <= usize::MAX,
    ensures
        derangements_of(n).finite(),
        derangements_of(n).len() == subfact(n),
{
    lemma_der_list(n);
    lemma_der_list_len(n);
    let l = der_list(n);
    assert(l.to_set() =~= derangements_of(n)) by {
        assert forall|s: Seq<usize>| l.to_set().contains(s) implies derangements_of(n).contains(s) by {
            let t = choose|t: int| 0 <= t < l.len() && l[t] == s;
        }
    }
    l.unique_seq_to_set();
}

/// A list that holds each derangement of `0..n` exactly once has `!n` entries.
pub proof fn lemma_derangement_list_len(l: Seq<Seq<usize>>, n: nat)
    requires
        n <= usize::MAX,
        l.no_duplicates(),
        forall|t: int| 0 <= t < l.len() ==> is_index_derangement(#[trigger] l[t], n),
        forall|s: Seq<usize>| is_index_derangement(s, n) ==> #[trigger] l.contains(s),
    ensures
        l.len() == subfact(n),
{
    lemma_derangement_count(n);
    assert(l.to_set() =~= derangements_of(n)) by {
        assert forall|s: Seq<usize>| l.to_set().contains(s) implies derangements_of(n).contains(s) by {
            let t = choose|t: int| 0 <= t < l.len() && l[t] == s;
        }
    }
    l.unique_seq_to_set();
}

} // verus!
