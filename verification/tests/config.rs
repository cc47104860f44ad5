use datagen::config::ConfigError;
use datagen::types::{
    default_prefix, DataType, Distribution, FieldDef, FieldSeparator, Range, RangeValue, TestCaseMode, TestConfig,
};

fn field(name: &str, lo: i32, hi: i32) -> FieldDef {
    FieldDef {
        name: name.into(),
        data_type: DataType::Int32,
        distribution: Distribution::Uniform,
        range: RangeValue::Int32(Range::new(lo, hi)),
        depends_on: None,
        separator: FieldSeparator::default(),
    }
}

fn validation_message(r: Result<(), ConfigError>) -> String {
    match r {
        Err(ConfigError::ValidationError(m)) => m,
        other => panic!("expected a validation error, got {:?}", other),
    }
}

#[test]
fn test_range_valid() {
    let r = Range::new(1, 10);
    assert_eq!(r.min, 1);
    assert_eq!(r.max, 10);
}

#[test]
fn range_equal_bounds() {
    let r = Range::new('a', 'a');
    assert_eq!((r.min, r.max), ('a', 'a'));
}

#[test]
fn defaults() {
    assert_eq!(FieldSeparator::default(), FieldSeparator::Space);
    assert_eq!(TestCaseMode::default(), TestCaseMode::Disabled);
    assert_eq!(default_prefix(), "test");
}

#[test]
fn test_validate_files_count_too_large() {
    let config = TestConfig {
        files_count: 1001,
        prefix: "test".into(),
        suffix: String::new(),
        testcase_mode: TestCaseMode::Disabled,
        fields: vec![field("n", 1, 100)],
        seed: None,
    };
    assert!(config.validate().is_err());
}

#[test]
fn test_validate_no_fields() {
    let config = TestConfig {
        files_count: 10,
        prefix: "test".into(),
        suffix: String::new(),
        testcase_mode: TestCaseMode::Disabled,
        fields: vec![],
        seed: None,
    };
    assert!(config.validate().is_err());
}

#[test]
fn test_validate_valid_config() {
    let config = TestConfig {
        files_count: 10,
        prefix: "test".into(),
        suffix: String::new(),
        testcase_mode: TestCaseMode::Fixed(5),
        fields: vec![field("n", 1, 100)],
        seed: Some(42),
    };
    assert!(config.validate().is_ok());
}

#[test]
fn validate_messages_in_order() {
    let mut config = TestConfig {
        files_count: 1001,
        prefix: "test".into(),
        suffix: String::new(),
        testcase_mode: TestCaseMode::Fixed(1001),
        fields: vec![],
        seed: None,
    };
    assert_eq!(validation_message(config.validate()), "files_count must be <= 1000");
    config.files_count = 1000;
    assert_eq!(validation_message(config.validate()), "testcase count must be <= 1000");
    config.testcase_mode = TestCaseMode::Random { distribution: Distribution::Uniform, range: Range::new(1, 1001) };
    assert_eq!(validation_message(config.validate()), "testcase range max must be <= 1000");
    config.testcase_mode = TestCaseMode::Random { distribution: Distribution::Uniform, range: Range::new(1, 1000) };
    assert_eq!(validation_message(config.validate()), "at least one field is required");
    config.fields.push(field("n", 1, 2));
    assert!(config.validate().is_ok());
}

#[test]
fn config_error_messages() {
    assert_eq!(ConfigError::ParseError("bad".into()).to_message(), "TOML parse error: bad");
    assert_eq!(ConfigError::ValidationError("x".into()).to_message(), "Config validation error: x");
}
