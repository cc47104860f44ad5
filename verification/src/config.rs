//! Validation of test configurations.

use vstd::prelude::*;

use crate::types::{TestCaseMode, TestConfig};

verus! {

#[derive(Debug)]
pub enum ConfigError {
    ParseError(String),
    ValidationError(String),
}

/// The message of the first limit that `c` breaks, if any.
pub open spec fn validation_failure(c: TestConfig) -> Option<Seq<char>> {
    if c.files_count > 1000 {
        Some("files_count must be <= 1000"@)
    } else if c.testcase_mode matches TestCaseMode::Fixed(t) && t > 1000 {
        Some("testcase count must be <= 1000"@)
    } else if c.testcase_mode matches TestCaseMode::Random { range, .. } && range.max > 1000 {
        Some("testcase range max must be <= 1000"@)
    } else if c.fields@.len() == 0 {
        Some("at least one field is required"@)
    } else {
        None
    }
}

/// The limits of a configuration, stated directly: at most 1000 files, at most
/// 1000 test cases per file (fixed, or as the top of a random range), and at
/// least one field.
pub open spec fn within_limits(c: TestConfig) -> bool {
    &&& c.files_count <= 1000
    &&& (c.testcase_mode matches TestCaseMode::Fixed(t) ==> t <= 1000)
    &&& (c.testcase_mode matches TestCaseMode::Random { range, .. } ==> range.max <= 1000)
    &&& c.fields@.len() >= 1
}

/// A configuration passes validation exactly when it keeps the limits: up to
/// 1000 files, up to 1000 test cases, at least one field. The message names the
/// first limit broken, in the order files, fixed count, random range, fields.
pub proof fn lemma_validation_limits(c: TestConfig)
    ensures
        validation_failure(c) is None <==> within_limits(c),
        c.files_count > 1000 ==> validation_failure(c) == Some("files_count must be <= 1000"@),
        c.files_count <= 1000 && (c.testcase_mode matches TestCaseMode::Fixed(t) && t > 1000) ==> validation_failure(c)
            == Some("testcase count must be <= 1000"@),
        c.files_count <= 1000 && (c.testcase_mode matches TestCaseMode::Random { range, .. } && range.max > 1000)
            ==> validation_failure(c) == Some("testcase range max must be <= 1000"@),
        c.files_count <= 1000 && (c.testcase_mode matches TestCaseMode::Fixed(t) ==> t <= 1000)
            && (c.testcase_mode matches TestCaseMode::Random { range, .. } ==> range.max <= 1000) && c.fields@.len() == 0
            ==> validation_failure(c) == Some("at least one field is required"@),
{
}

/// The text shown for an error.
pub open spec fn config_error_text(e: ConfigError) -> Seq<char> {
    match e {
        ConfigError::ParseError(m) => "TOML parse error: "@ + m@,
        ConfigError::ValidationError(m) => "Config validation error: "@ + m@,
    }
}

impl ConfigError {
    /// The text shown for this error.
    pub fn to_message(&self) -> (s: String)
        ensures
            s@ == config_error_text(*self),
    {
        let mut s = String::new();
        match self {
            ConfigError::ParseError(m) => {
                s.append("TOML parse error: ");
                s.append(m.as_str());
            },
            ConfigError::ValidationError(m) => {
                s.append("Config validation error: ");
                s.append(m.as_str());
            },
        }
        s
    }
}

/// A validation error with message `msg`.
fn invalid(msg: &str) -> (r: Result<(), ConfigError>)
    ensures
        r matches Err(ConfigError::ValidationError(m)) && m@ == msg@,
{
    let mut m = String::new();
    m.append(msg);
    Err(ConfigError::ValidationError(m))
}

impl TestConfig {
    /// Check the limits of a configuration: at most 1000 files and test cases,
    /// and at least one field.
    pub fn validate(&self) -> (r: Result<(), ConfigError>)
        ensures
            r is Ok <==> validation_failure(*self) is None,
            r is Err ==> (r matches Err(ConfigError::ValidationError(m)) && validation_failure(*self) == Some(
                m@,
            )),
            r is Ok <==> (self.files_count <= 1000 && (self.testcase_mode matches TestCaseMode::Fixed(t) ==> t <= 1000)
                && (self.testcase_mode matches TestCaseMode::Random { range, .. } ==> range.max <= 1000)
                && self.fields@.len() >= 1),
    {
        proof {
            lemma_validation_limits(*self);
        }
        if self.files_count > 1000 {
            return invalid("files_count must be <= 1000");
        }
        if let TestCaseMode::Fixed(t) = self.testcase_mode {
            if t > 1000 {
                return invalid("testcase count must be <= 1000");
            }
        }
        if let TestCaseMode::Random { range, .. } = &self.testcase_mode {
            if range.max > 1000 {
                return invalid("testcase range max must be <= 1000");
            }
        }
        if self.fields.len() == 0 {
            return invalid("at least one field is required");
        }
        Ok(())
    }
}

} // verus!
