use datagen::gen::numtheory::ModularGen;
use datagen::native::CompileError;
use datagen::orchestrator::{case_count_line, gen_scalar};
use datagen::text::{ends_with, eq_ignore_ascii_case, first_line, same_text};
use datagen::types::DataType;
use rand::rngs::StdRng;
use rand::SeedableRng;

#[test]
fn decimal_rendering() {
    assert_eq!(CompileError::Timeout(0).to_message(), "Compilation timed out after 0s");
    assert_eq!(
        ModularGen::inv(u64::MAX, 3),
        Err("18446744073709551615 is not invertible modulo 3".to_string())
    );
    assert_eq!(case_count_line(4096), "4096\n");
    let mut rng = StdRng::seed_from_u64(1);
    assert_eq!(gen_scalar(DataType::Int64, -42, -42, &mut rng), Some((-42, "-42".to_string())));
    assert_eq!(
        gen_scalar(DataType::Int64, i64::MIN, i64::MIN, &mut rng),
        Some((i64::MIN, "-9223372036854775808".to_string()))
    );
}

#[test]
fn text_comparisons() {
    assert!(same_text("abc", "abc"));
    assert!(!same_text("abc", "abd"));
    assert!(!same_text("ab", "abc"));
    assert!(eq_ignore_ascii_case("PyThOn", "python"));
    assert!(!eq_ignore_ascii_case("pythön", "PYTHÖN"));
    assert!(eq_ignore_ascii_case("", ""));
    assert!(ends_with("main.py", ".py"));
    assert!(!ends_with("py", ".py"));
    assert!(ends_with("héllo", "llo"));
}

#[test]
fn first_line_trimming() {
    assert_eq!(first_line(""), None);
    assert_eq!(first_line("  a b \t\nsecond"), Some("a b".to_string()));
    assert_eq!(first_line("\u{3000}wide\u{3000}"), Some("wide".to_string()));
    assert_eq!(first_line("   "), Some(String::new()));
}
