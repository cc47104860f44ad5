//! The configuration and result types of the data generator.

use vstd::prelude::*;

verus! {

#[derive(Debug, Clone, Copy, PartialEq, Eq, Structural)]
pub enum DataType {
    Int32,
    Int64,
    BigInt,
    Float32,
    Float64,
    Char,
    String,
}

#[derive(Debug, Clone, Copy, PartialEq, Eq, Structural)]
pub enum Distribution {
    Uniform,
    Normal,
    Exponential,
    Poisson,
}

/// A type whose values a `Range` can be bounded by.
pub trait RangeBound: Sized {
    /// `self <= other` in the type's order.
    spec fn bound_le(self, other: Self) -> bool;

    fn le(&self, other: &Self) -> (b: bool)
        ensures
            b == self.bound_le(*other),
    ;
}

impl RangeBound for i32 {
    open spec fn bound_le(self, other: Self) -> bool {
        self <= other
    }

    fn le(&self, other: &Self) -> (b: bool) {
        *self <= *other
    }
}

impl RangeBound for i64 {
    open spec fn bound_le(self, other: Self) -> bool {
        self <= other
    }

    fn le(&self, other: &Self) -> (b: bool) {
        *self <= *other
    }
}

impl RangeBound for u32 {
    open spec fn bound_le(self, other: Self) -> bool {
        self <= other
    }

    fn le(&self, other: &Self) -> (b: bool) {
        *self <= *other
    }
}

impl RangeBound for usize {
    open spec fn bound_le(self, other: Self) -> bool {
        self <= other
    }

    fn le(&self, other: &Self) -> (b: bool) {
        *self <= *other
    }
}

impl RangeBound for char {
    open spec fn bound_le(self, other: Self) -> bool {
        (self as u32) <= (other as u32)
    }

    fn le(&self, other: &Self) -> (b: bool) {
        (*self as u32) <= (*other as u32)
    }
}

#[derive(Debug, Clone, Copy, PartialEq, Eq, Structural)]
pub struct Range<T> {
    pub min: T,
    pub max: T,
}

impl<T: RangeBound> Range<T> {
    /// A range from `min` to `max`; the bounds must be ordered.
    pub fn new(min: T, max: T) -> (r: Self)
        requires
            min.bound_le(max),
        ensures
            r.min == min,
            r.max == max,
    {
        Self { min, max }
    }
}

/// The bounds of a `f32` range, as IEEE-754 bit patterns.
#[derive(Debug, Clone, Copy, PartialEq, Eq, Structural)]
pub struct FloatBits32 {
    pub min_bits: u32,
    pub max_bits: u32,
}

/// The bounds of a `f64` range, as IEEE-754 bit patterns.
#[derive(Debug, Clone, Copy, PartialEq, Eq, Structural)]
pub struct FloatBits64 {
    pub min_bits: u64,
    pub max_bits: u64,
}

#[derive(Debug, Clone, PartialEq)]
pub enum RangeValue {
    Int32(Range<i32>),
    Int64(Range<i64>),
    Float32(FloatBits32),
    Float64(FloatBits64),
    Char(Range<char>),
    StringLen(Range<usize>),
    /// Array/string: count = generated value of from_field.
    /// Each element value in [elem_min, elem_max].
    /// E.g. "N followed by N numbers": field "n" Int32 1..100,
    /// then field "arr" with CountFrom { from_field: "n", elem_min: 1, elem_max: 1000000 }
    CountFrom { from_field: String, elem_min: i64, elem_max: i64 },
    /// Single value: max = parent_value * multiplier (as i64), min = 1.
    /// E.g. "M where M ≤ 2*N": ValueFrom { from_field: "n", multiplier_bits } with the
    /// multiplier `2.0` as `f64` bits.
    ValueFrom { from_field: String, multiplier_bits: u64 },
}

#[derive(Debug, Clone, Copy, PartialEq, Eq, Structural)]
pub enum FieldSeparator {
    Space,
    Newline,
}

impl Default for FieldSeparator {
    fn default() -> (s: Self)
        ensures
            s == FieldSeparator::Space,
    {
        Self::Space
    }
}

#[derive(Debug, Clone, PartialEq)]
pub struct FieldDef {
    pub name: String,
    pub data_type: DataType,
    pub distribution: Distribution,
    pub range: RangeValue,
    pub depends_on: Option<String>,
    pub separator: FieldSeparator,
}

#[derive(Debug, Clone, Copy, PartialEq, Eq, Structural)]
pub enum TestCaseMode {
    Disabled,
    Fixed(u32),
    Random { distribution: Distribution, range: Range<u32> },
}

impl Default for TestCaseMode {
    fn default() -> (m: Self)
        ensures
            m == TestCaseMode::Disabled,
    {
        Self::Disabled
    }
}

#[derive(Debug, Clone, PartialEq)]
pub struct TestConfig {
    pub files_count: u32,
    pub prefix: String,
    pub suffix: String,
    pub testcase_mode: TestCaseMode,
    pub fields: Vec<FieldDef>,
    pub seed: Option<u64>,
}

/// The file name prefix used when a configuration names none.
pub fn default_prefix() -> (s: String)
    ensures
        s@ == "test"@,
{
    let mut s = String::new();
    s.append("test");
    s
}

#[derive(Debug, Clone, PartialEq)]
pub struct GenFile {
    pub filename: String,
    pub content: String,
}

#[derive(Debug, Clone, PartialEq)]
pub struct GenMetadata {
    pub seed: u64,
    pub generated_at: String,
    pub config_hash: String,
}

#[derive(Debug, Clone, PartialEq)]
pub struct GenResult {
    pub files: Vec<GenFile>,
    pub metadata: GenMetadata,
}

#[derive(Debug, Clone, Copy, PartialEq, Eq, Structural)]
pub enum GraphType {
    Tree,
    Random,
    Connected,
    DAG,
    Bipartite,
}

#[derive(Debug, Clone, PartialEq)]
pub struct WeightConfig {
    pub distribution: Distribution,
    pub range: RangeValue,
}

#[derive(Debug, Clone, PartialEq)]
pub struct GraphConfig {
    pub graph_type: GraphType,
    pub nodes: u32,
    pub edges: Option<u32>,
    pub weighted: Option<WeightConfig>,
    pub left_nodes: Option<u32>,
    pub right_nodes: Option<u32>,
}

} // verus!
