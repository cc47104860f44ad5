use datagen::gen::combinatorics::{CombinationGen, DerangementGen, PartitionGen, PermutationGen};
use rand::rngs::StdRng;
use rand::SeedableRng;

/// The adjacent swaps of the Steinhaus–Johnson–Trotter order on `n` items.
fn sjt_swaps(n: usize) -> Vec<usize> {
    if n < 2 {
        return Vec::new();
    }
    let mut perm: Vec<usize> = (0..n).collect();
    // direction: true = pointing left
    let mut left: Vec<bool> = vec![true; n];
    let mut swaps = Vec::new();
    loop {
        // find the largest mobile element
        let mut best: Option<usize> = None;
        for i in 0..n {
            let mobile = if left[i] { i > 0 && perm[i - 1] < perm[i] } else { i + 1 < n && perm[i + 1] < perm[i] };
            if mobile && best.map_or(true, |b| perm[i] > perm[b]) {
                best = Some(i);
            }
        }
        let i = match best {
            Some(i) => i,
            None => break,
        };
        let j = if left[i] { i - 1 } else { i + 1 };
        let moved = perm[i];
        perm.swap(i, j);
        left.swap(i, j);
        swaps.push(i.min(j));
        for k in 0..n {
            if perm[k] > moved {
                left[k] = !left[k];
            }
        }
    }
    swaps
}

/// The k-subsets of 0..n in revolving-door order, as bit vectors.
fn revolving_door(n: usize, k: usize) -> Vec<Vec<bool>> {
    if k == 0 {
        return vec![vec![false; n]];
    }
    if k == n {
        return vec![vec![true; n]];
    }
    let mut out: Vec<Vec<bool>> = revolving_door(n - 1, k)
        .into_iter()
        .map(|mut b| {
            b.push(false);
            b
        })
        .collect();
    let mut tail: Vec<Vec<bool>> = revolving_door(n - 1, k - 1)
        .into_iter()
        .map(|mut b| {
            b.push(true);
            b
        })
        .collect();
    tail.reverse();
    out.extend(tail);
    out
}

/// Position swaps that walk through all k-subsets of 0..n, starting at the first k.
fn combination_swaps(n: usize, k: usize) -> Vec<(usize, usize)> {
    let mut order = revolving_door(n, k);
    let first: Vec<bool> = (0..n).map(|i| i < k).collect();
    let at = order.iter().position(|b| *b == first).unwrap();
    order.rotate_left(at);
    let mut swaps = Vec::new();
    let mut cur = order[0].clone();
    for next in order.iter().skip(1) {
        let diff: Vec<usize> = (0..n).filter(|&i| cur[i] != next[i]).collect();
        if diff.len() == 2 {
            swaps.push((diff[0], diff[1]));
            cur.swap(diff[0], diff[1]);
        } else {
            // walk there with single swaps
            let ones: Vec<usize> = (0..n).filter(|&i| cur[i] && !next[i]).collect();
            let zeros: Vec<usize> = (0..n).filter(|&i| !cur[i] && next[i]).collect();
            for (a, b) in ones.into_iter().zip(zeros) {
                swaps.push((a, b));
                cur.swap(a, b);
            }
        }
    }
    swaps
}

#[test]
fn test_fisher_yates_deterministic() {
    let mut rng1 = StdRng::seed_from_u64(42);
    let mut rng2 = StdRng::seed_from_u64(42);
    let p1 = PermutationGen::fisher_yates(5, &mut rng1);
    let p2 = PermutationGen::fisher_yates(5, &mut rng2);
    assert_eq!(p1, p2);
}

#[test]
fn test_fisher_yates_valid() {
    let mut rng = StdRng::seed_from_u64(42);
    let p = PermutationGen::fisher_yates(5, &mut rng);
    assert_eq!(p.len(), 5);
    let mut sorted = p.clone();
    sorted.sort_unstable();
    assert_eq!(sorted, vec![1, 2, 3, 4, 5]);
}

#[test]
fn test_fisher_yates_zero() {
    let mut rng = StdRng::seed_from_u64(42);
    let p = PermutationGen::fisher_yates(0, &mut rng);
    assert!(p.is_empty());
}

#[test]
fn test_enumerate_permutations_count() {
    let perms: Vec<Vec<u32>> = PermutationGen::enumerate(4, &sjt_swaps(4));
    assert_eq!(perms.len(), 24); // 4! = 24
}

#[test]
fn test_enumerate_permutations_zero() {
    let perms: Vec<Vec<u32>> = PermutationGen::enumerate(0, &sjt_swaps(0));
    assert_eq!(perms.len(), 1); // 0! = 1
    assert_eq!(perms[0], Vec::<u32>::new());
}

#[test]
fn test_enumerate_permutations_one() {
    let perms: Vec<Vec<u32>> = PermutationGen::enumerate(1, &sjt_swaps(1));
    assert_eq!(perms.len(), 1);
    assert_eq!(perms[0], vec![1]);
}

#[test]
fn enumerate_permutations_all_distinct() {
    let mut perms: Vec<Vec<u32>> = PermutationGen::enumerate(4, &sjt_swaps(4));
    assert_eq!(perms[0], vec![1, 2, 3, 4]);
    assert_eq!(perms[1], vec![1, 2, 4, 3]);
    perms.sort();
    perms.dedup();
    assert_eq!(perms.len(), 24);
}

#[test]
fn enumerate_permutations_capped_at_factorial() {
    let mut swaps = sjt_swaps(3);
    swaps.extend([0, 1, 0]);
    let perms = PermutationGen::enumerate(3, &swaps);
    assert_eq!(perms.len(), 6);
}

#[test]
fn test_count_combinations_5_2() {
    assert_eq!(CombinationGen::count(5, 2), Some(10));
}

#[test]
fn test_count_combinations_100_50_overflow() {
    // C(100, 50) ≈ 1.0089e29 exceeds u64::MAX ≈ 1.84e19
    assert_eq!(CombinationGen::count(100, 50), None);
}

#[test]
fn test_count_combinations_200_100_overflow() {
    assert_eq!(CombinationGen::count(200, 100), None);
}

#[test]
fn test_count_combinations_edge() {
    assert_eq!(CombinationGen::count(0, 0), Some(1));
    assert_eq!(CombinationGen::count(5, 0), Some(1));
    assert_eq!(CombinationGen::count(5, 6), Some(0));
    assert_eq!(CombinationGen::count(5, 5), Some(1));
    assert_eq!(CombinationGen::count(5, 1), Some(5));
}

#[test]
fn count_combinations_largest_fitting() {
    assert_eq!(CombinationGen::count(67, 33), Some(14226520737620288370));
    assert_eq!(CombinationGen::count(68, 34), None);
    assert_eq!(CombinationGen::count(10, 7), Some(120));
}

#[test]
fn test_enumerate_combinations_5_2() {
    let combs: Vec<Vec<u32>> = CombinationGen::enumerate(5, 2, &combination_swaps(5, 2));
    assert_eq!(combs.len(), 10);
    assert_eq!(combs[0], vec![1, 2]);
}

#[test]
fn test_enumerate_combinations_k0() {
    let combs: Vec<Vec<u32>> = CombinationGen::enumerate(5, 0, &[]);
    assert_eq!(combs.len(), 1);
    assert_eq!(combs[0], Vec::<u32>::new());
}

#[test]
fn test_enumerate_combinations_kgt_n() {
    let combs: Vec<Vec<u32>> = CombinationGen::enumerate(5, 6, &[]);
    assert_eq!(combs.len(), 0);
}

#[test]
fn enumerate_combinations_follow_swaps() {
    let combs = CombinationGen::enumerate(4, 2, &[(1, 2), (0, 3)]);
    assert_eq!(combs, vec![vec![1, 2], vec![1, 3], vec![3, 4]]);
}

#[test]
fn test_random_derangement_4() {
    let mut rng = StdRng::seed_from_u64(42);
    let d = DerangementGen::random_derangement(4, &mut rng);
    assert_eq!(d.len(), 4);
    for (i, &val) in d.iter().enumerate() {
        assert_ne!(val, i as u32 + 1, "Element {} at position {}", val, i);
    }
}

#[test]
fn random_derangement_zero_and_two() {
    let mut rng = StdRng::seed_from_u64(7);
    assert!(DerangementGen::random_derangement(0, &mut rng).is_empty());
    assert_eq!(DerangementGen::random_derangement(2, &mut rng), vec![2, 1]);
}

#[test]
fn test_derangement_count_4() {
    assert_eq!(DerangementGen::count(4), 9);
}

#[test]
fn test_derangement_count_1() {
    assert_eq!(DerangementGen::count(1), 0);
}

#[test]
fn test_derangement_count_0() {
    assert_eq!(DerangementGen::count(0), 1);
}

#[test]
fn derangement_count_larger() {
    assert_eq!(DerangementGen::count(5), 44);
    assert_eq!(DerangementGen::count(10), 1334961);
    assert_eq!(DerangementGen::count(20), 895014631192902121);
}

#[test]
fn test_enumerate_derangements_4() {
    let der: Vec<Vec<u32>> = DerangementGen::enumerate(4);
    assert_eq!(der.len(), 9);
    for d in &der {
        assert_eq!(d.len(), 4);
        for (i, &val) in d.iter().enumerate() {
            assert_ne!(val, i as u32 + 1);
        }
    }
}

#[test]
fn test_enumerate_derangements_0() {
    let der: Vec<Vec<u32>> = DerangementGen::enumerate(0);
    assert_eq!(der.len(), 1);
    assert_eq!(der[0], Vec::<u32>::new());
}

#[test]
fn test_partition_count_5() {
    assert_eq!(PartitionGen::count_partitions(5), 7);
}

#[test]
fn test_partition_count_10() {
    assert_eq!(PartitionGen::count_partitions(10), 42);
}

#[test]
fn test_partition_count_0() {
    assert_eq!(PartitionGen::count_partitions(0), 1);
}

#[test]
fn test_partition_count_1() {
    assert_eq!(PartitionGen::count_partitions(1), 1);
}

#[test]
fn partition_count_matches_enumeration() {
    for n in 0..15u32 {
        let listed = PartitionGen::enumerate_partitions(n);
        assert_eq!(listed.len() as u64, PartitionGen::count_partitions(n));
        for p in &listed {
            assert_eq!(p.iter().sum::<u32>(), n);
            assert!(p.windows(2).all(|w| w[0] >= w[1]));
        }
    }
    assert_eq!(PartitionGen::count_partitions(100), 190569292);
}

#[test]
fn test_enumerate_partitions_3() {
    let partitions = PartitionGen::enumerate_partitions(3);
    assert_eq!(partitions, vec![vec![3], vec![2, 1], vec![1, 1, 1]]);
}

#[test]
fn test_enumerate_partitions_0() {
    let partitions = PartitionGen::enumerate_partitions(0);
    assert_eq!(partitions, vec![Vec::<u32>::new()]);
}

#[test]
fn test_enumerate_partitions_1() {
    let partitions = PartitionGen::enumerate_partitions(1);
    assert_eq!(partitions, vec![vec![1]]);
}

#[test]
fn derangement_count_matches_enumeration() {
    for n in 0..=8u32 {
        assert_eq!(DerangementGen::count(n) as usize, DerangementGen::enumerate(n).len());
    }
}

#[test]
fn partitions_listed_once_in_decreasing_order() {
    let p = PartitionGen::enumerate_partitions(5);
    assert_eq!(
        p,
        vec![vec![5], vec![4, 1], vec![3, 2], vec![3, 1, 1], vec![2, 2, 1], vec![2, 1, 1, 1], vec![1, 1, 1, 1, 1]]
    );
    for w in p.windows(2) {
        assert!(w[0] > w[1]);
    }
}
