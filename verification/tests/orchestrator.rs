use datagen::orchestrator::{emit_field, file_name, gen_scalar, tc_count, topo_sort_fields};
use datagen::types::{DataType, Distribution, FieldDef, FieldSeparator, Range, RangeValue, TestCaseMode, TestConfig};
use rand::rngs::StdRng;
use rand::SeedableRng;

fn int_field(name: &str, depends_on: Option<&str>) -> FieldDef {
    FieldDef {
        name: name.into(),
        data_type: DataType::Int32,
        distribution: Distribution::Uniform,
        range: RangeValue::Int32(Range::new(1, 10)),
        depends_on: depends_on.map(|s| s.to_string()),
        separator: FieldSeparator::Space,
    }
}

fn count_field(name: &str, from: &str) -> FieldDef {
    FieldDef {
        name: name.into(),
        data_type: DataType::Int64,
        distribution: Distribution::Uniform,
        range: RangeValue::CountFrom { from_field: from.into(), elem_min: 1, elem_max: 5 },
        depends_on: None,
        separator: FieldSeparator::Newline,
    }
}

fn config(files_count: u32, suffix: &str) -> TestConfig {
    TestConfig {
        files_count,
        prefix: "case".into(),
        suffix: suffix.into(),
        testcase_mode: TestCaseMode::Disabled,
        fields: vec![int_field("n", None)],
        seed: None,
    }
}

#[test]
fn test_case_counts() {
    let mut rng = StdRng::seed_from_u64(1);
    assert_eq!(tc_count(&TestCaseMode::Disabled, &mut rng), 1);
    assert_eq!(tc_count(&TestCaseMode::Fixed(7), &mut rng), 7);
    for _ in 0..50 {
        let t = tc_count(
            &TestCaseMode::Random { distribution: Distribution::Uniform, range: Range::new(3, 5) },
            &mut rng,
        );
        assert!((3..=5).contains(&t));
    }
}

#[test]
fn file_names() {
    assert_eq!(file_name(&config(1, ""), 0), "case.in");
    assert_eq!(file_name(&config(1, "x"), 0), "case_x.in");
    assert_eq!(file_name(&config(3, ""), 2), "case3.in");
    assert_eq!(file_name(&config(12, "big"), 9), "case10_big.in");
}

#[test]
fn fields_sorted_by_dependency() {
    let fields = vec![count_field("arr", "n"), int_field("m", Some("n")), int_field("n", None)];
    let order = topo_sort_fields(&fields).unwrap();
    assert_eq!(order, vec![2, 0, 1]);
}

#[test]
fn unknown_dependency_reported() {
    let fields = vec![int_field("a", None), count_field("b", "zz")];
    assert_eq!(topo_sort_fields(&fields), Err("'b' depends on unknown 'zz'".to_string()));
}

#[test]
fn dependency_cycle_reported() {
    let fields = vec![int_field("a", Some("b")), int_field("b", Some("a"))];
    assert_eq!(topo_sort_fields(&fields), Err("circular dependency: 'a'".to_string()));
    let fields = vec![int_field("s", Some("s"))];
    assert_eq!(topo_sort_fields(&fields), Err("circular dependency: 's'".to_string()));
}

#[test]
fn scalars_by_type() {
    let mut rng = StdRng::seed_from_u64(3);
    for _ in 0..50 {
        let (v, s) = gen_scalar(DataType::Int32, -5, 5, &mut rng).unwrap();
        assert!((-5..=5).contains(&v));
        assert_eq!(s, v.to_string());
        let (v, s) = gen_scalar(DataType::Int64, -1_000_000_000_000, 7, &mut rng).unwrap();
        assert!((-1_000_000_000_000..=7).contains(&v));
        assert_eq!(s, v.to_string());
        let (code, c) = gen_scalar(DataType::Char, 0, 0, &mut rng).unwrap();
        assert_eq!(c.chars().count(), 1);
        let ch = c.chars().next().unwrap();
        assert!(ch.is_ascii_alphabetic());
        assert_eq!(code, ch as i64);
        let (len, text) = gen_scalar(DataType::String, 2, 6, &mut rng).unwrap();
        assert!((2..=6).contains(&len));
        assert_eq!(text.len() as i64, len);
        assert!(text.chars().all(|c| c.is_ascii_alphabetic()));
    }
    assert_eq!(gen_scalar(DataType::BigInt, 1, 9, &mut rng), Some((0, "0".to_string())));
    assert_eq!(gen_scalar(DataType::Float64, 1, 9, &mut rng), None);
    assert_eq!(gen_scalar(DataType::Float32, 1, 9, &mut rng), None);
}

#[test]
fn emit_field_skips_empty_and_tracks_first() {
    let mut content = String::new();
    let first = emit_field(&mut content, &vec![], FieldSeparator::Space, true);
    assert!(first);
    assert_eq!(content, "");
    let first = emit_field(&mut content, &vec!["3".to_string(), "4".to_string()], FieldSeparator::Space, first);
    assert!(!first);
    assert_eq!(content, "3 4");
    let first = emit_field(&mut content, &vec!["x".to_string()], FieldSeparator::Newline, first);
    assert!(!first);
    assert_eq!(content, "3 4 x\n");
}
