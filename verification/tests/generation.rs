use datagen::config::ConfigError;
use datagen::generation::{generate_start, generate_step, generation_order, GenAction};
use datagen::native::CompileResult;
use datagen::pipeline::{pipeline_input, run_target};
use datagen::types::{
    DataType, Distribution, FieldDef, FieldSeparator, GenFile, GenMetadata, GenResult, Range, RangeValue,
    TestCaseMode, TestConfig,
};
use rand::rngs::StdRng;
use rand::SeedableRng;

/// Generate the files of a configuration whose fields need no floating-point draw.
fn generate(c: &TestConfig) -> Result<Vec<GenFile>, ConfigError> {
    let order = generation_order(c)?;
    let mut rng = StdRng::seed_from_u64(c.seed.unwrap_or(0));
    let mut state = generate_start(c, order);
    loop {
        match generate_step(c, &mut state, &mut rng, None) {
            GenAction::Finished(files) => return Ok(files),
            GenAction::DrawFloat { .. } => panic!("no floating-point field expected"),
            GenAction::EmptyRange => panic!("cannot sample empty range"),
        }
    }
}

fn field(name: &str, data_type: DataType, range: RangeValue, depends_on: Option<&str>) -> FieldDef {
    FieldDef {
        name: name.into(),
        data_type,
        distribution: Distribution::Uniform,
        range,
        depends_on: depends_on.map(|s| s.to_string()),
        separator: FieldSeparator::default(),
    }
}

fn int_field(name: &str, min: i32, max: i32) -> FieldDef {
    field(name, DataType::Int32, RangeValue::Int32(Range::new(min, max)), None)
}

fn config(files_count: u32, mode: TestCaseMode, fields: Vec<FieldDef>, seed: u64) -> TestConfig {
    TestConfig { files_count, prefix: "t".into(), suffix: String::new(), testcase_mode: mode, fields, seed: Some(seed) }
}

#[test]
fn single_file_int() {
    let c = config(1, TestCaseMode::Fixed(1), vec![int_field("n", 1, 100)], 42);
    let r = generate(&c).unwrap();
    assert_eq!(r.len(), 1);
}

#[test]
fn count_from_parent() {
    let c = config(
        1,
        TestCaseMode::Fixed(1),
        vec![
            int_field("n", 3, 3),
            field("arr", DataType::Int32, RangeValue::CountFrom { from_field: "n".into(), elem_min: 1, elem_max: 100 }, None),
        ],
        42,
    );
    let r = generate(&c).unwrap();
    let parts: Vec<_> = r[0].content.trim().split(' ').collect();
    assert_eq!(parts.len(), 4, "n=3 + 3 values = 4 parts, got {:?}", parts);
    assert_eq!(parts[0], "3");
}

#[test]
fn count_from_with_random_expr() {
    let c = config(
        1,
        TestCaseMode::Fixed(1),
        vec![
            int_field("n", 3, 3),
            field("arr", DataType::Int32, RangeValue::CountFrom { from_field: "n".into(), elem_min: 10, elem_max: 20 }, None),
        ],
        42,
    );
    let r = generate(&c).unwrap();
    let parts: Vec<_> = r[0].content.trim().split(' ').collect();
    assert_eq!(parts.len(), 4);
    assert_eq!(parts[0], "3");
    for i in 1..4 {
        let v: i64 = parts[i].parse().unwrap();
        assert!(v >= 10 && v <= 20, "element {} = {} should be in [10,20]", i, v);
    }
}

#[test]
fn same_seed_identical() {
    let c = config(2, TestCaseMode::Fixed(3), vec![int_field("n", 1, 1000)], 12345);
    assert_eq!(generate(&c).unwrap(), generate(&c).unwrap());
}

#[test]
fn files_count_err() {
    assert!(generate(&config(1001, TestCaseMode::Fixed(1), vec![int_field("n", 1, 100)], 42)).is_err());
}

#[test]
fn empty_fields_err() {
    assert!(generate(&config(1, TestCaseMode::Fixed(1), vec![], 42)).is_err());
}

#[test]
fn circular_err() {
    let c = config(
        1,
        TestCaseMode::Fixed(1),
        vec![
            field("a", DataType::Int32, RangeValue::Int32(Range::new(1, 10)), Some("b")),
            field("b", DataType::Int32, RangeValue::Int32(Range::new(1, 10)), Some("a")),
        ],
        42,
    );
    assert!(generate(&c).is_err());
}

#[test]
fn unknown_dep_err() {
    let c = config(
        1,
        TestCaseMode::Fixed(1),
        vec![field("a", DataType::Int32, RangeValue::Int32(Range::new(1, 10)), Some("nonexistent"))],
        42,
    );
    assert!(generate(&c).is_err());
}

#[test]
fn multiple_files_with_expr() {
    let c = config(
        3,
        TestCaseMode::Fixed(1),
        vec![int_field("n", 1, 10), field("m", DataType::Int32, RangeValue::Int32(Range::new(10, 100)), Some("n"))],
        42,
    );
    let r = generate(&c).unwrap();
    assert_eq!(r.len(), 3);
}

#[test]
fn string_with_expr() {
    let c = config(1, TestCaseMode::Fixed(1), vec![field("s", DataType::String, RangeValue::StringLen(Range::new(3, 5)), None)], 42);
    let r = generate(&c).unwrap();
    let s = r[0].content.trim();
    assert!(s.len() >= 3 && s.len() <= 5, "String: len={} should be in [3,5]", s.len());
}

#[test]
fn char_with_expr() {
    let c = config(1, TestCaseMode::Fixed(1), vec![field("c", DataType::Char, RangeValue::Char(Range::new('a', 'z')), None)], 42);
    let r = generate(&c).unwrap();
    let c = r[0].content.trim().chars().next().unwrap();
    assert!(c.is_ascii_alphabetic(), "Char: should be a letter, got {:?}", c);
}

#[test]
fn int64_with_expr() {
    let c = config(
        1,
        TestCaseMode::Fixed(1),
        vec![field("x", DataType::Int64, RangeValue::Int64(Range::new(1000000, 2000000)), None)],
        42,
    );
    let r = generate(&c).unwrap();
    let v: i64 = r[0].content.trim().parse().unwrap();
    assert!(v >= 1000000 && v <= 2000000, "Int64: x={} should be in [1000000,2000000]", v);
}

#[test]
fn generation_files_names_and_counts() {
    let c = TestConfig {
        files_count: 2,
        prefix: "case".into(),
        suffix: "big".into(),
        testcase_mode: TestCaseMode::Fixed(3),
        fields: vec![int_field("n", 7, 7), field("m", DataType::Int32, RangeValue::Int32(Range::new(2, 2)), None)],
        seed: Some(1),
    };
    let r = generate(&c).unwrap();
    assert_eq!(r.len(), 2);
    assert_eq!(r[0].filename, "case1_big.in");
    assert_eq!(r[1].filename, "case2_big.in");
    assert_eq!(r[0].content, "3\n7 2\n7 2\n7 2\n");
}

#[test]
fn generation_newline_separator_and_empty_count() {
    let mut arr = field("arr", DataType::Int32, RangeValue::CountFrom { from_field: "n".into(), elem_min: 4, elem_max: 4 }, None);
    arr.separator = FieldSeparator::Newline;
    let c = config(1, TestCaseMode::Disabled, vec![int_field("n", 0, 0), arr, int_field("k", 5, 5)], 3);
    let r = generate(&c).unwrap();
    assert_eq!(r[0].filename, "t.in");
    assert_eq!(r[0].content, "0 5\n");
}

#[test]
fn generation_dependency_error_text() {
    let c = config(
        1,
        TestCaseMode::Fixed(1),
        vec![field("a", DataType::Int32, RangeValue::Int32(Range::new(1, 10)), Some("zz"))],
        42,
    );
    match generation_order(&c) {
        Err(ConfigError::ValidationError(m)) => assert_eq!(m, "dependency error: 'a' depends on unknown 'zz'"),
        _ => panic!("expected a dependency error"),
    }
}

#[test]
fn generation_hands_out_float_fields() {
    let c = config(
        1,
        TestCaseMode::Fixed(1),
        vec![int_field("n", 4, 4), field("x", DataType::Float64, RangeValue::Int32(Range::new(1, 2)), None)],
        42,
    );
    let order = generation_order(&c).unwrap();
    let mut rng = StdRng::seed_from_u64(42);
    let mut state = generate_start(&c, order);
    match generate_step(&c, &mut state, &mut rng, None) {
        GenAction::DrawFloat { field, parent } => {
            assert_eq!(field, 1);
            assert_eq!(parent, None);
        }
        _ => panic!("expected a floating-point draw"),
    }
    match generate_step(&c, &mut state, &mut rng, Some((vec!["1.500000".to_string()], 1))) {
        GenAction::Finished(files) => assert_eq!(files[0].content, "4 1.500000\n"),
        _ => panic!("expected the files"),
    }
}

#[test]
fn generation_reports_empty_case_range() {
    let c = config(
        1,
        TestCaseMode::Random { range: Range { min: 5, max: 2 }, distribution: Distribution::Uniform },
        vec![int_field("n", 1, 2)],
        42,
    );
    let order = generation_order(&c).unwrap();
    let mut rng = StdRng::seed_from_u64(42);
    let mut state = generate_start(&c, order);
    assert!(matches!(generate_step(&c, &mut state, &mut rng, None), GenAction::EmptyRange));
}

#[test]
fn pipeline_input_is_first_file() {
    let meta = GenMetadata { seed: 1, generated_at: "0".into(), config_hash: String::new() };
    let g = GenResult {
        files: vec![
            GenFile { filename: "a.in".into(), content: "1 2\n".into() },
            GenFile { filename: "b.in".into(), content: "3\n".into() },
        ],
        metadata: meta.clone(),
    };
    assert_eq!(pipeline_input(&g), "1 2\n");
    assert_eq!(pipeline_input(&GenResult { files: vec![], metadata: meta }), "");
}

#[test]
fn run_target_outcomes() {
    let failed = CompileResult { success: false, binary_path: None, stderr: "boom".into(), exit_code: Some(1) };
    assert_eq!(run_target(&failed), Err("Compilation failed: boom".to_string()));
    let no_bin = CompileResult { success: true, binary_path: None, stderr: String::new(), exit_code: Some(0) };
    assert_eq!(run_target(&no_bin), Err("Compilation succeeded but no binary path returned".to_string()));
    let ok = CompileResult { success: true, binary_path: Some("/tmp/a".into()), stderr: String::new(), exit_code: Some(0) };
    assert_eq!(run_target(&ok), Ok("/tmp/a".to_string()));
}
