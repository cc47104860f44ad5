use datagen::gen::distribution::UniformIntGen;
use datagen::gen::Generator;
use rand::rngs::StdRng;
use rand::SeedableRng;

fn rng_fixed() -> StdRng {
    StdRng::seed_from_u64(42)
}

#[test]
fn uniform_int_single_value() {
    // min == max should always produce that value
    let mut gen = UniformIntGen::new(5, 5);
    let mut rng = rng_fixed();
    for _ in 0..100 {
        assert_eq!(gen.generate(&mut rng), 5);
    }
}

#[test]
fn uniform_int_deterministic_sequence() {
    let mut gen = UniformIntGen::new(1, 100);
    let mut rng1 = rng_fixed();
    let mut rng2 = rng_fixed();
    let seq1: Vec<i64> = (0..20).map(|_| gen.generate(&mut rng1)).collect();
    let seq2: Vec<i64> = (0..20).map(|_| gen.generate(&mut rng2)).collect();
    assert_eq!(seq1, seq2, "same seed must produce same sequence");
}

#[test]
fn uniform_int_in_range() {
    let mut gen = UniformIntGen::new(-10, 10);
    let mut rng = rng_fixed();
    for _ in 0..1000 {
        let val = gen.generate(&mut rng);
        assert!((-10..=10).contains(&val), "value {val} out of range [-10, 10]");
    }
}

#[test]
fn uniform_int_full_range() {
    let mut gen = UniformIntGen::new(i64::MIN, i64::MAX);
    let mut rng = rng_fixed();
    let a = gen.generate(&mut rng);
    let b = gen.generate(&mut rng);
    assert_ne!(a, b);
}
