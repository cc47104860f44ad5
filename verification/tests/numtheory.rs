use datagen::gen::numtheory::{
    gcd, mod_inv, unique_prime_factors, CRTGen, FactorGen, ModularGen, ModularOp, PrimeGen, PrimitiveRootGen,
};
use datagen::gen::Generator;
use rand::rngs::StdRng;
use rand::SeedableRng;

fn test_rng() -> StdRng {
    StdRng::seed_from_u64(42)
}

#[test]
fn test_prime_gen_small_range() {
    let mut gen = PrimeGen::new(1u64..=100);
    let primes = gen.generate(&mut test_rng());
    assert_eq!(primes.len(), 25);
    assert_eq!(primes[0], 2);
    assert_eq!(primes[1], 3);
    assert_eq!(primes[2], 5);
    assert_eq!(primes[3], 7);
    assert_eq!(primes[primes.len() - 1], 97);
}

#[test]
fn test_prime_gen_empty() {
    let mut gen = PrimeGen::new(10u64..=1);
    let primes = gen.generate(&mut test_rng());
    assert!(primes.is_empty());
}

#[test]
fn test_prime_gen_below_two() {
    let mut gen = PrimeGen::new(0u64..=1);
    let primes = gen.generate(&mut test_rng());
    assert!(primes.is_empty());
}

#[test]
fn prime_gen_window() {
    let mut gen = PrimeGen::new(90u64..=110);
    assert_eq!(gen.generate(&mut test_rng()), vec![97, 101, 103, 107, 109]);
}

#[test]
fn test_factor_84() {
    let mut gen = FactorGen::new(84);
    let mut factors = gen.generate(&mut test_rng());
    factors.sort_unstable();
    assert_eq!(factors, vec![2, 2, 3, 7]);
}

#[test]
fn test_factor_prime() {
    let mut gen = FactorGen::new(97);
    let factors = gen.generate(&mut test_rng());
    assert_eq!(factors, vec![97]);
}

#[test]
fn test_factor_zero() {
    let mut gen = FactorGen::new(0);
    let factors = gen.generate(&mut test_rng());
    assert!(factors.is_empty());
}

#[test]
fn test_factor_one() {
    let mut gen = FactorGen::new(1);
    let factors = gen.generate(&mut test_rng());
    assert!(factors.is_empty());
}

#[test]
fn test_factor_large_composite() {
    let n = 1_000_003u64 * 1_000_007;
    let mut gen = FactorGen::new(n);
    let mut factors = gen.generate(&mut test_rng());
    factors.sort_unstable();
    assert_eq!(factors, vec![29, 34483, 1_000_003]);
}

#[test]
fn factor_product_is_input() {
    for n in [2u64, 12, 360, 1024, 9_999_991, 600_851_475_143] {
        let mut gen = FactorGen::new(n);
        let factors = gen.generate(&mut test_rng());
        assert_eq!(factors.iter().product::<u64>(), n);
        assert!(factors.windows(2).all(|w| w[0] <= w[1]));
    }
}

#[test]
fn test_modular_add() {
    assert_eq!(ModularGen::add(3, 4, 7), 0);
}

#[test]
fn test_modular_sub() {
    assert_eq!(ModularGen::sub(3, 4, 7), 6);
}

#[test]
fn test_modular_mul() {
    assert_eq!(ModularGen::mul(3, 4, 7), 5);
}

#[test]
fn test_modular_pow() {
    assert_eq!(ModularGen::pow(2, 10, 1000), 24);
}

#[test]
fn modular_large_operands() {
    let m = u64::MAX - 58; // a large prime below 2^64
    assert_eq!(ModularGen::add(m - 1, m - 1, m), m - 2);
    assert_eq!(ModularGen::mul(m - 1, m - 1, m), 1);
    assert_eq!(ModularGen::pow(5, 0, 1), 0);
    assert_eq!(ModularGen::pow(5, 0, 7), 1);
}

#[test]
fn test_modular_inv_ok() {
    assert_eq!(ModularGen::inv(3, 7), Ok(5));
}

#[test]
fn test_modular_inv_err() {
    assert!(ModularGen::inv(2, 4).is_err());
}

#[test]
fn modular_inv_err_message() {
    assert_eq!(ModularGen::inv(2, 4), Err("2 is not invertible modulo 4".to_string()));
}

#[test]
fn test_modular_gen_trait() {
    let mut gen = ModularGen::new(ModularOp::Add(3, 4, 7));
    assert_eq!(gen.generate(&mut test_rng()), Ok(0));

    let mut gen = ModularGen::new(ModularOp::Sub(3, 4, 7));
    assert_eq!(gen.generate(&mut test_rng()), Ok(6));

    let mut gen = ModularGen::new(ModularOp::Mul(3, 4, 7));
    assert_eq!(gen.generate(&mut test_rng()), Ok(5));

    let mut gen = ModularGen::new(ModularOp::Pow(2, 10, 1000));
    assert_eq!(gen.generate(&mut test_rng()), Ok(24));

    let mut gen = ModularGen::new(ModularOp::Inv(3, 7));
    assert_eq!(gen.generate(&mut test_rng()), Ok(5));

    let mut gen = ModularGen::new(ModularOp::Inv(2, 4));
    assert!(gen.generate(&mut test_rng()).is_err());
}

#[test]
fn test_crt_valid() {
    let result = CRTGen::solve(&[2, 3, 1], &[3, 5, 7]);
    // 8 ≡ 2 (mod 3), 8 ≡ 3 (mod 5), 8 ≡ 1 (mod 7)
    assert_eq!(result, Some(8));
}

#[test]
fn test_crt_not_coprime() {
    let result = CRTGen::solve(&[1, 2], &[4, 6]);
    assert_eq!(result, None);
}

#[test]
fn test_crt_empty() {
    let result = CRTGen::solve(&[], &[]);
    assert_eq!(result, None);
}

#[test]
fn test_crt_mismatched_lengths() {
    let result = CRTGen::solve(&[1, 2], &[3]);
    assert_eq!(result, None);
}

#[test]
fn crt_solution_satisfies_every_congruence() {
    let rs = [3u64, 4, 5, 0];
    let ms = [7u64, 11, 13, 17];
    let x = CRTGen::solve(&rs, &ms).unwrap();
    assert!(x < 7 * 11 * 13 * 17);
    for (r, m) in rs.iter().zip(ms.iter()) {
        assert_eq!(x % m, r % m);
    }
}

#[test]
fn test_crt_gen_trait() {
    let mut gen = CRTGen::new(vec![2, 3, 1], vec![3, 5, 7]);
    // 8 ≡ 2 (mod 3), 8 ≡ 3 (mod 5), 8 ≡ 1 (mod 7)
    assert_eq!(gen.generate(&mut test_rng()), Some(8));

    let mut gen = CRTGen::new(vec![1, 2], vec![4, 6]);
    assert_eq!(gen.generate(&mut test_rng()), None);
}

#[test]
fn test_primitive_root_7() {
    let root = PrimitiveRootGen::find_root(7);
    assert!(root == Some(3) || root == Some(5));
}

#[test]
fn test_primitive_root_not_prime() {
    let root = PrimitiveRootGen::find_root(4);
    assert_eq!(root, None);
}

#[test]
fn test_primitive_root_two() {
    let root = PrimitiveRootGen::find_root(2);
    assert_eq!(root, Some(1));
}

#[test]
fn test_primitive_root_below_two() {
    let root = PrimitiveRootGen::find_root(1);
    assert_eq!(root, None);
}

#[test]
fn primitive_root_is_smallest() {
    assert_eq!(PrimitiveRootGen::find_root(7), Some(3));
    assert_eq!(PrimitiveRootGen::find_root(23), Some(5));
    assert_eq!(PrimitiveRootGen::find_root(41), Some(6));
}

#[test]
fn test_primitive_root_gen_trait() {
    let mut gen = PrimitiveRootGen::new(7);
    let root = gen.generate(&mut test_rng());
    assert!(root == Some(3) || root == Some(5));

    let mut gen = PrimitiveRootGen::new(4);
    assert_eq!(gen.generate(&mut test_rng()), None);
}

#[test]
fn test_gcd() {
    assert_eq!(gcd(12, 8), 4);
    assert_eq!(gcd(17, 5), 1);
    assert_eq!(gcd(0, 5), 5);
}

#[test]
fn gcd_edges() {
    assert_eq!(gcd(0, 0), 0);
    assert_eq!(gcd(5, 0), 5);
    assert_eq!(gcd(u64::MAX, u64::MAX - 1), 1);
}

#[test]
fn test_mod_inv() {
    assert_eq!(mod_inv(3, 7), Some(5));
    assert_eq!(mod_inv(2, 4), None);
}

#[test]
fn mod_inv_of_one_modulus() {
    assert_eq!(mod_inv(5, 1), Some(0));
    assert_eq!(mod_inv(10, 17).map(|x| 10 * x % 17), Some(1));
}

#[test]
fn test_unique_prime_factors() {
    let mut f = unique_prime_factors(12);
    f.sort_unstable();
    assert_eq!(f, vec![2, 3]);
    assert_eq!(unique_prime_factors(97), vec![97]);
}

#[test]
fn unique_prime_factors_edges() {
    assert_eq!(unique_prime_factors(1), Vec::<u64>::new());
    assert_eq!(unique_prime_factors(2 * 2 * 3 * 3 * 3 * 101), vec![2, 3, 101]);
    assert_eq!(unique_prime_factors(u64::MAX), vec![3, 5, 17, 257, 641, 65537, 6700417]);
}
