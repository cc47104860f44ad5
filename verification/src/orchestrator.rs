//! Test-file generation: test case counts, field ordering by dependency,
//! scalar values and file names.

use vstd::prelude::*;
use vstd::string::StrSliceExecFns;
use rand::rngs::StdRng;

use crate::rng::{random_i32_in, random_i64_in, random_u32_in, random_usize_below, random_usize_in};
use crate::types::FieldSeparator;
use crate::text::{dec, dec_int, i64_to_string, same_text, u32_to_string};
use crate::types::{DataType, FieldDef, RangeValue, TestCaseMode, TestConfig};

verus! {

// ---------------------------------------------------------------------------
// Test case counts
// ---------------------------------------------------------------------------

/// Number of test cases in one file: one when disabled, the fixed count, or a
/// draw from the range.
pub fn tc_count(mode: &TestCaseMode, rng: &mut StdRng) -> (t: u32)
    requires
        mode matches TestCaseMode::Random { range, .. } ==> range.min <= range.max,
    ensures
        *mode is Disabled ==> t == 1,
        *mode matches TestCaseMode::Fixed(n) ==> t == n,
        *mode matches TestCaseMode::Random { range, .. } ==> range.min <= t <= range.max,
{
    match mode {
        TestCaseMode::Disabled => 1,
        TestCaseMode::Fixed(n) => *n,
        TestCaseMode::Random { range, .. } => random_u32_in(rng, range.min, range.max),
    }
}

// ---------------------------------------------------------------------------
// File names
// ---------------------------------------------------------------------------

/// The name of file `i` (0-based): the prefix, the 1-based number unless there is
/// a single file, `_suffix` when the suffix is not empty, and `.in`.
pub open spec fn file_name_text(prefix: Seq<char>, suffix: Seq<char>, files_count: nat, i: nat) -> Seq<char> {
    let sfx = if suffix.len() == 0 {
        Seq::empty()
    } else {
        seq!['_'] + suffix
    };
    if files_count == 1 {
        prefix + sfx + ".in"@
    } else {
        prefix + dec(i + 1) + sfx + ".in"@
    }
}

/// The name of file `i` (0-based) of a configuration.
pub fn file_name(config: &TestConfig, i: u32) -> (name: String)
    requires
        i < config.files_count,
    ensures
        name@ == file_name_text(config.prefix@, config.suffix@, config.files_count as nat, i as nat),
{
    let mut sfx = String::new();
    if config.suffix.as_str().unicode_len() > 0 {
        sfx.append("_");
        sfx.append(config.suffix.as_str());
        proof {
            reveal_strlit("_");
        }
    }
    let mut name = config.prefix.clone();
    if config.files_count != 1 {
        let num = u32_to_string(i + 1);
        name.append(num.as_str());
    }
    name.append(sfx.as_str());
    name.append(".in");
    proof {
        let spec_sfx = if config.suffix@.len() == 0 {
            Seq::<char>::empty()
        } else {
            seq!['_'] + config.suffix@
        };
        assert(sfx@ =~= spec_sfx);
    }
    name
}

// ---------------------------------------------------------------------------
// Scalar values
// ---------------------------------------------------------------------------

/// The letters that character and string values are made of.
pub open spec fn letters() -> Seq<char> {
    "abcdefghijklmnopqrstuvwxyzABCDEFGHIJKLMNOPQRSTUVWXYZ"@
}

/// The code of letter `idx`: `a..z` for `0..26`, `A..Z` for `26..52`.
pub open spec fn letter_code(idx: int) -> int {
    if idx < 26 {
        97 + idx
    } else {
        65 + (idx - 26)
    }
}

/// Letter `idx` as a one-character text.
fn letter_text(idx: usize) -> (s: String)
    requires
        idx < 52,
    ensures
        s@ == seq![letters()[idx as int]],
{
    let alphabet = "abcdefghijklmnopqrstuvwxyzABCDEFGHIJKLMNOPQRSTUVWXYZ";
    proof {
        reveal_strlit("abcdefghijklmnopqrstuvwxyzABCDEFGHIJKLMNOPQRSTUVWXYZ");
    }
    let t = alphabet.substring_char(idx, idx + 1);
    let s = t.to_owned();
    assert(s@ =~= seq![letters()[idx as int]]);
    s
}

/// A random letter: its code and its text.
fn random_letter(rng: &mut StdRng) -> (r: (i64, String))
    ensures
        exists|idx: int| 0 <= idx < 52 && r.0 == letter_code(idx) && r.1@ == seq![letters()[idx]],
{
    let idx = random_usize_below(rng, 0, 52);
    let code: i64 = if idx < 26 {
        97 + idx as i64
    } else {
        65 + (idx as i64 - 26)
    };
    let s = letter_text(idx);
    assert(code == letter_code(idx as int));
    (code, s)
}

/// The data types whose values are floating-point numbers.
pub open spec fn is_float_type(t: DataType) -> bool {
    t == DataType::Float32 || t == DataType::Float64
}

/// What `gen_scalar` may produce for a non-floating-point data type: `num` is
/// the number the value stands for, `text` how it is printed.
pub open spec fn scalar_outcome(data_type: DataType, lo: i64, hi: i64, num: i64, text: Seq<char>) -> bool {
    match data_type {
        DataType::Int32 => (lo as i32) <= num <= (hi as i32) && text == dec_int(num as int),
        DataType::Int64 => lo <= num <= hi && text == dec_int(num as int),
        DataType::Char => exists|idx: int| 0 <= idx < 52 && num == letter_code(idx) && text == seq![letters()[idx]],
        DataType::String => (lo as usize) <= text.len() <= (hi as usize) && num == text.len() as i64 && forall|j: int|
            0 <= j < text.len() ==> letters().contains(#[trigger] text[j]),
        DataType::BigInt => num == 0 && text == "0"@,
        _ => false,
    }
}

/// The bounds that `gen_scalar` accepts for a data type.
pub open spec fn scalar_bounds_ok(data_type: DataType, lo: i64, hi: i64) -> bool {
    &&& data_type == DataType::Int32 ==> (lo as i32) <= (hi as i32)
    &&& data_type == DataType::Int64 ==> lo <= hi
    &&& data_type == DataType::String ==> (lo as usize) <= (hi as usize)
}

/// A random value of a non-floating-point data type with bounds `lo..=hi`, as
/// the number it stands for and its text; `None` for floating-point types.
///
/// - `Int32`, `Int64`: a number of the range (`Int32` after narrowing the bounds to `i32`);
/// - `Char`: one of the 52 ASCII letters, standing for its code;
/// - `String`: a length of the range (bounds taken as `usize`), then that many letters;
/// - `BigInt`: `0`.
pub fn gen_scalar(data_type: DataType, lo: i64, hi: i64, rng: &mut StdRng) -> (r: Option<(i64, String)>)
    requires
        data_type == DataType::Int32 ==> (lo as i32) <= (hi as i32),
        data_type == DataType::Int64 ==> lo <= hi,
        data_type == DataType::String ==> (lo as usize) <= (hi as usize),
    ensures
        is_float_type(data_type) <==> r is None,
        data_type == DataType::Int32 ==> (r matches Some(p) && (lo as i32) <= p.0 <= (hi as i32) && p.1@ == dec_int(
            p.0 as int,
        )),
        data_type == DataType::Int64 ==> (r matches Some(p) && lo <= p.0 <= hi && p.1@ == dec_int(p.0 as int)),
        data_type == DataType::Char ==> (r matches Some(p) && exists|idx: int|
            0 <= idx < 52 && p.0 == letter_code(idx) && p.1@ == seq![letters()[idx]]),
        data_type == DataType::String ==> (r matches Some(p) && (lo as usize) <= p.1@.len() <= (hi as usize) && p.0
            == p.1@.len() as i64 && forall|j: int| 0 <= j < p.1@.len() ==> letters().contains(#[trigger] p.1@[j])),
        data_type == DataType::BigInt ==> (r matches Some(p) && p.0 == 0 && p.1@ == "0"@),
        r matches Some(p) ==> scalar_outcome(data_type, lo, hi, p.0, p.1@),
{
    match data_type {
        DataType::Int32 => {
            let v = random_i32_in(rng, lo as i32, hi as i32);
            let s = i64_to_string(v as i64);
            Some((v as i64, s))
        },
        DataType::Int64 => {
            let v = random_i64_in(rng, lo, hi);
            let s = i64_to_string(v);
            Some((v, s))
        },
        DataType::Float32 => None,
        DataType::Float64 => None,
        DataType::Char => Some(random_letter(rng)),
        DataType::String => {
            let len = random_usize_in(rng, lo as usize, hi as usize);
            proof {
                reveal_strlit("abcdefghijklmnopqrstuvwxyzABCDEFGHIJKLMNOPQRSTUVWXYZ");
            }
            let mut s = String::new();
            let mut k: usize = 0;
            while k < len
                invariant
                    0 <= k <= len,
                    s@.len() == k,
                    letters().len() == 52,
                    forall|j: int| 0 <= j < s@.len() ==> letters().contains(#[trigger] s@[j]),
                decreases len - k,
            {
                let idx = random_usize_below(rng, 0, 52);
                let letter = letter_text(idx);
                let ghost before = s@;
                s.append(letter.as_str());
                proof {
                    assert(s@ == before + seq![letters()[idx as int]]);
                    assert forall|j: int| 0 <= j < s@.len() implies letters().contains(#[trigger] s@[j]) by {
                        if j < before.len() {
                            assert(s@[j] == before[j]);
                        } else {
                            assert(s@[j] == letters()[idx as int]);
                            assert(letters()[idx as int] == letters()[idx as int]);
                        }
                    }
                }
                k = k + 1;
            }
            Some((len as i64, s))
        },
        DataType::BigInt => {
            let mut s = String::new();
            s.append("0");
            Some((0, s))
        },
    }
}

// ---------------------------------------------------------------------------
// Field ordering
// ---------------------------------------------------------------------------

/// The names a field depends on: its `depends_on`, then the field its range
/// reads its count or bound from.
pub open spec fn field_deps(f: FieldDef) -> Seq<Seq<char>> {
    let own = match f.depends_on {
        Some(d) => seq![d@],
        None => Seq::empty(),
    };
    let from_range = match f.range {
        RangeValue::CountFrom { from_field, .. } => seq![from_field@],
        RangeValue::ValueFrom { from_field, .. } => seq![from_field@],
        _ => Seq::empty(),
    };
    own + from_range
}

/// The names of the fields.
pub open spec fn names_of(fields: Seq<FieldDef>) -> Seq<Seq<char>> {
    fields.map_values(|f: FieldDef| f.name@)
}

/// The views of a list of texts.
pub open spec fn texts(v: Seq<String>) -> Seq<Seq<char>> {
    v.map_values(|s: String| s@)
}

/// Some field among the first `k` of `order` is named `name`.
pub open spec fn named_before(fields: Seq<FieldDef>, order: Seq<usize>, k: int, name: Seq<char>) -> bool {
    exists|k2: int| 0 <= k2 < k && fields[order[k2] as int].name@ == name
}

/// Every field of `order` comes after fields named by each of its dependencies.
pub open spec fn deps_first(fields: Seq<FieldDef>, order: Seq<usize>) -> bool {
    forall|k: int, d: int|
        0 <= k < order.len() && 0 <= d < field_deps(fields[order[k] as int]).len() ==> #[trigger] named_before(
            fields,
            order,
            k,
            field_deps(fields[order[k] as int])[d],
        )
}

/// `order` lists valid field indices.
pub open spec fn valid_indices(fields: Seq<FieldDef>, order: Seq<usize>) -> bool {
    forall|k: int| 0 <= k < order.len() ==> #[trigger] order[k] < fields.len()
}

/// The state of the depth-first walk: the names entered, the names finished
/// (those of `sorted`, in order), the finished fields in dependency order.
pub open spec fn walk_state(
    fields: Seq<FieldDef>,
    visiting: Seq<Seq<char>>,
    done: Seq<Seq<char>>,
    sorted: Seq<usize>,
) -> bool {
    &&& valid_indices(fields, sorted)
    &&& done.len() == sorted.len()
    &&& forall|k: int| 0 <= k < done.len() ==> #[trigger] done[k] == fields[sorted[k] as int].name@
    &&& done.no_duplicates()
    &&& deps_first(fields, sorted)
    &&& forall|k: int| 0 <= k < done.len() ==> visiting.contains(#[trigger] done[k])
    &&& visiting.no_duplicates()
    &&& forall|k: int| 0 <= k < visiting.len() ==> names_of(fields).contains(#[trigger] visiting[k])
}

/// The error for a dependency cycle through the field named `name`.
pub open spec fn circular_text(name: Seq<char>) -> Seq<char> {
    "circular dependency: '"@ + name + "'"@
}

/// The error for a dependency on a field that does not exist.
pub open spec fn unknown_text(name: Seq<char>, dep: Seq<char>) -> Seq<char> {
    "'"@ + name + "' depends on unknown '"@ + dep + "'"@
}

/// Field `b` carries a name that field `a` depends on.
pub open spec fn depends(fields: Seq<FieldDef>, a: int, b: int) -> bool {
    &&& 0 <= a < fields.len()
    &&& 0 <= b < fields.len()
    &&& field_deps(fields[a]).contains(fields[b].name@)
}

/// `w` is a closed walk of field indices along dependencies: each field
/// depends on the next, and the walk ends where it began.
pub open spec fn dependency_cycle(fields: Seq<FieldDef>, w: Seq<usize>) -> bool {
    &&& w.len() >= 2
    &&& w[0] == w.last()
    &&& forall|k: int| 0 <= k < w.len() - 1 ==> #[trigger] depends(fields, w[k] as int, w[k + 1] as int)
}

/// Every dependency of every field names some field.
pub open spec fn deps_known(fields: Seq<FieldDef>) -> bool {
    forall|i: int, d: int|
        0 <= i < fields.len() && 0 <= d < field_deps(fields[i]).len() ==> names_of(fields).contains(
            #[trigger] field_deps(fields[i])[d],
        )
}

/// What a failed ordering reports: a field on a dependency cycle, or a field
/// with a dependency that names no field.
pub open spec fn ordering_error(fields: Seq<FieldDef>, msg: Seq<char>) -> bool {
    ||| exists|w: Seq<usize>| #[trigger] dependency_cycle(fields, w) && msg == circular_text(fields[w[0] as int].name@)
    ||| exists|i: int, d: int|
        0 <= i < fields.len() && 0 <= d < field_deps(fields[i]).len() && !names_of(fields).contains(
            field_deps(fields[i])[d],
        ) && msg == #[trigger] unknown_text(fields[i].name@, field_deps(fields[i])[d])
}

/// A distinct list of names all taken from `names` is no longer than it.
proof fn lemma_distinct_bound(vis: Seq<Seq<char>>, names: Seq<Seq<char>>)
    requires
        vis.no_duplicates(),
        forall|k: int| 0 <= k < vis.len() ==> names.contains(#[trigger] vis[k]),
    ensures
        vis.len() <= names.len(),
{
    vis.unique_seq_to_set();
    assert(vis.to_set().subset_of(names.to_set())) by {
        assert forall|x: Seq<char>| vis.to_set().contains(x) implies names.to_set().contains(x) by {
            let k = choose|k: int| 0 <= k < vis.len() && vis[k] == x;
            assert(names.contains(vis[k]));
        }
    }
    vstd::set_lib::lemma_len_subset(vis.to_set(), names.to_set());
    names.lemma_cardinality_of_set();
}

/// The list holds the text `s`.
fn contains_text(v: &Vec<String>, s: &str) -> (b: bool)
    ensures
        b == texts(v@).contains(s@),
{
    let mut i: usize = 0;
    while i < v.len()
        invariant
            0 <= i <= v@.len(),
            forall|j: int| 0 <= j < i ==> v@[j]@ != s@,
        decreases v@.len() - i,
    {
        if same_text(v[i].as_str(), s) {
            assert(texts(v@)[i as int] == s@);
            return true;
        }
        i = i + 1;
    }
    proof {
        if texts(v@).contains(s@) {
            let j = choose|j: int| 0 <= j < texts(v@).len() && texts(v@)[j] == s@;
            assert(v@[j]@ == s@);
        }
    }
    false
}

/// The index of the first field named `name`.
fn find_field(fields: &[FieldDef], name: &str) -> (r: Option<usize>)
    ensures
        r matches Some(p) ==> p < fields@.len() && fields@[p as int].name@ == name@,
        r is None ==> !names_of(fields@).contains(name@),
{
    let mut i: usize = 0;
    while i < fields.len()
        invariant
            0 <= i <= fields@.len(),
            forall|j: int| 0 <= j < i ==> fields@[j].name@ != name@,
        decreases fields@.len() - i,
    {
        if same_text(fields[i].name.as_str(), name) {
            return Some(i);
        }
        i = i + 1;
    }
    proof {
        if names_of(fields@).contains(name@) {
            let j = choose|j: int| 0 <= j < names_of(fields@).len() && names_of(fields@)[j] == name@;
            assert(fields@[j].name@ == name@);
        }
    }
    None
}

/// The names a field depends on.
fn dependencies(f: &FieldDef) -> (d: Vec<String>)
    ensures
        texts(d@) == field_deps(*f),
{
    let mut d: Vec<String> = Vec::new();
    match &f.depends_on {
        Some(n) => d.push(n.clone()),
        None => {},
    }
    match &f.range {
        RangeValue::CountFrom { from_field, .. } => d.push(from_field.clone()),
        RangeValue::ValueFrom { from_field, .. } => d.push(from_field.clone()),
        _ => {},
    }
    assert(texts(d@) =~= field_deps(*f));
    d
}

/// Extending the finished list with a field whose dependencies are all
/// finished keeps the walk state.
proof fn lemma_finish_field(
    fields: Seq<FieldDef>,
    visiting: Seq<Seq<char>>,
    done: Seq<Seq<char>>,
    sorted: Seq<usize>,
    i: usize,
)
    requires
        walk_state(fields, visiting, done, sorted),
        i < fields.len(),
        visiting.contains(fields[i as int].name@),
        !done.contains(fields[i as int].name@),
        forall|d: int| 0 <= d < field_deps(fields[i as int]).len() ==> done.contains(#[trigger] field_deps(fields[i as int])[d]),
    ensures
        walk_state(fields, visiting, done.push(fields[i as int].name@), sorted.push(i)),
{
    let done1 = done.push(fields[i as int].name@);
    let sorted1 = sorted.push(i);
    assert forall|k: int, d: int|
        0 <= k < sorted1.len() && 0 <= d < field_deps(fields[sorted1[k] as int]).len() implies #[trigger] named_before(
        fields,
        sorted1,
        k,
        field_deps(fields[sorted1[k] as int])[d],
    ) by {
        if k < sorted.len() {
            assert(sorted1[k] == sorted[k]);
            assert(named_before(fields, sorted, k, field_deps(fields[sorted[k] as int])[d]));
            let k2 = choose|k2: int| 0 <= k2 < k && fields[sorted[k2] as int].name@ == field_deps(fields[sorted[k] as int])[d];
            assert(sorted1[k2] == sorted[k2]);
        } else {
            let name = field_deps(fields[i as int])[d];
            assert(done.contains(name));
            let k2 = choose|k2: int| 0 <= k2 < done.len() && done[k2] == name;
            assert(done[k2] == fields[sorted[k2] as int].name@);
            assert(sorted1[k2] == sorted[k2]);
        }
    }
    assert forall|k: int| 0 <= k < done1.len() implies #[trigger] done1[k] == fields[sorted1[k] as int].name@ by {
        if k < done.len() {
            assert(done1[k] == done[k]);
        }
    }
    assert forall|k: int| 0 <= k < done1.len() implies visiting.contains(#[trigger] done1[k]) by {
        if k < done.len() {
            assert(done1[k] == done[k]);
        }
    }
}

/// Some field of `path` is named `x`.
spec fn on_path(fields: Seq<FieldDef>, path: Seq<usize>, x: Seq<char>) -> bool {
    exists|k: int| 0 <= k < path.len() && fields[#[trigger] path[k] as int].name@ == x
}

/// Each field of `path` depends on the next one.
spec fn path_walk(fields: Seq<FieldDef>, path: Seq<usize>) -> bool {
    forall|k: int| 0 <= k < path.len() - 1 ==> #[trigger] depends(fields, path[k] as int, path[k + 1] as int)
}

/// Every name entered but not finished is that of a field on `path`.
spec fn open_on_path(fields: Seq<FieldDef>, visiting: Seq<Seq<char>>, done: Seq<Seq<char>>, path: Seq<usize>) -> bool {
    forall|x: Seq<char>| #[trigger] visiting.contains(x) && !done.contains(x) ==> on_path(fields, path, x)
}

/// Every name finished in `done` that was entered in `vis0` was already finished in `done0`.
spec fn done_within(done: Seq<Seq<char>>, vis0: Seq<Seq<char>>, done0: Seq<Seq<char>>) -> bool {
    forall|x: Seq<char>| #[trigger] done.contains(x) && vis0.contains(x) ==> done0.contains(x)
}

/// Every name entered but not finished in the new state was entered in `vis0`.
spec fn opened_within(visiting: Seq<Seq<char>>, done: Seq<Seq<char>>, vis0: Seq<Seq<char>>) -> bool {
    forall|x: Seq<char>| #[trigger] visiting.contains(x) && !done.contains(x) ==> vis0.contains(x)
}

/// A list that starts with `a` holds what `a` holds.
proof fn lemma_prefix_contains(a: Seq<Seq<char>>, b: Seq<Seq<char>>, x: Seq<char>)
    requires
        a.len() <= b.len(),
        b.take(a.len() as int) == a,
        a.contains(x),
    ensures
        b.contains(x),
{
    let q = choose|q: int| 0 <= q < a.len() && a[q] == x;
    assert(b.take(a.len() as int)[q] == b[q]);
}

/// Depth-first visit of field `i`: its dependencies first, then the field.
/// `path` is the chain of fields whose visit is under way, each depending on
/// the next and the last on field `i`.
fn visit(
    fields: &[FieldDef],
    i: usize,
    visiting: &mut Vec<String>,
    done: &mut Vec<String>,
    sorted: &mut Vec<usize>,
    Ghost(path): Ghost<Seq<usize>>,
) -> (r: Result<(), String>)
    requires
        i < fields@.len(),
        walk_state(fields@, texts(old(visiting)@), texts(old(done)@), old(sorted)@),
        path_walk(fields@, path),
        path.len() > 0 ==> depends(fields@, path.last() as int, i as int),
        open_on_path(fields@, texts(old(visiting)@), texts(old(done)@), path),
    ensures
        r is Ok ==> opened_within(texts(final(visiting)@), texts(final(done)@), texts(old(visiting)@)),
        r is Ok ==> done_within(texts(final(done)@), texts(old(visiting)@), texts(old(done)@)),
        walk_state(fields@, texts(final(visiting)@), texts(final(done)@), final(sorted)@),
        final(visiting)@.len() >= old(visiting)@.len(),
        final(done)@.len() >= old(done)@.len(),
        final(sorted)@.len() >= old(sorted)@.len(),
        texts(final(visiting)@).take(old(visiting)@.len() as int) == texts(old(visiting)@),
        texts(final(done)@).take(old(done)@.len() as int) == texts(old(done)@),
        final(sorted)@.take(old(sorted)@.len() as int) == old(sorted)@,
        r is Ok ==> texts(final(done)@).contains(fields@[i as int].name@),
        r matches Err(msg) ==> ordering_error(fields@, msg@),
    decreases fields@.len() - old(visiting)@.len(),
{
    proof {
        lemma_distinct_bound(texts(visiting@), names_of(fields@));
    }
    let name = fields[i].name.as_str();
    if contains_text(done, name) {
        return Ok(());
    }
    if contains_text(visiting, name) {
        let mut msg = String::new();
        msg.append("circular dependency: '");
        msg.append(name);
        msg.append("'");
        proof {
            let x = fields@[i as int].name@;
            assert(on_path(fields@, path, x));
            let k = choose|k: int| 0 <= k < path.len() && fields@[#[trigger] path[k] as int].name@ == x;
            let w = path.subrange(k, path.len() as int).push(path[k]);
            assert forall|j: int| 0 <= j < w.len() - 1 implies #[trigger] depends(fields@, w[j] as int, w[j + 1] as int) by {
                assert(w[j] == path[k + j]);
                if j < path.len() - k - 1 {
                    assert(w[j + 1] == path[k + j + 1]);
                    assert(depends(fields@, path[k + j] as int, path[k + j + 1] as int));
                } else {
                    assert(w[j + 1] == path[k]);
                    assert(depends(fields@, path.last() as int, i as int));
                    if k < path.len() - 1 {
                        assert(depends(fields@, path[k] as int, path[k + 1] as int));
                    }
                    assert(fields@[path[k] as int].name@ == fields@[i as int].name@);
                }
            }
            assert(dependency_cycle(fields@, w));
            assert(msg@ == circular_text(fields@[w[0] as int].name@));
        }
        return Err(msg);
    }
    let ghost vis0 = visiting@;
    let ghost done0 = done@;
    let ghost sorted0 = sorted@;
    visiting.push(fields[i].name.clone());
    proof {
        assert(texts(visiting@) =~= texts(vis0).push(name@));
        assert(texts(visiting@)[vis0.len() as int] == name@);
        assert(texts(visiting@).take(vis0.len() + 1int) =~= texts(vis0).push(name@));
        assert(names_of(fields@)[i as int] == name@);
        assert(texts(visiting@).no_duplicates());
        assert forall|k: int| 0 <= k < texts(done@).len() implies texts(visiting@).contains(#[trigger] texts(done@)[k]) by {
            assert(texts(vis0).contains(texts(done@)[k]));
            let q = choose|q: int| 0 <= q < texts(vis0).len() && texts(vis0)[q] == texts(done@)[k];
            assert(texts(visiting@)[q] == texts(vis0)[q]);
        }
    }
    let deps = dependencies(&fields[i]);
    let mut k: usize = 0;
    while k < deps.len()
        invariant
            0 <= k <= deps@.len(),
            i < fields@.len(),
            texts(deps@) == field_deps(fields@[i as int]),
            walk_state(fields@, texts(visiting@), texts(done@), sorted@),
            texts(visiting@).contains(fields@[i as int].name@),
            vis0 == old(visiting)@,
            texts(visiting@).take(vis0.len() + 1int) == texts(vis0).push(fields@[i as int].name@),
            done0 == old(done)@,
            sorted0 == old(sorted)@,
            visiting@.len() >= vis0.len() + 1,
            done@.len() >= done0.len(),
            sorted@.len() >= sorted0.len(),
            texts(done@).take(done0.len() as int) == texts(done0),
            sorted@.take(sorted0.len() as int) == sorted0,
            forall|d: int| 0 <= d < k ==> texts(done@).contains(#[trigger] field_deps(fields@[i as int])[d]),
            path_walk(fields@, path),
            path.len() > 0 ==> depends(fields@, path.last() as int, i as int),
            open_on_path(fields@, texts(vis0), texts(done0), path),
            opened_within(texts(visiting@), texts(done@), texts(vis0).push(fields@[i as int].name@)),
            !texts(done@).contains(fields@[i as int].name@),
            !texts(vis0).contains(fields@[i as int].name@),
            done_within(texts(done@), texts(vis0), texts(done0)),
        decreases deps@.len() - k,
    {
        let dep = deps[k].as_str();
        assert(dep@ == field_deps(fields@[i as int])[k as int]);
        match find_field(fields, dep) {
            None => {
                let mut msg = String::new();
                msg.append("'");
                msg.append(fields[i].name.as_str());
                msg.append("' depends on unknown '");
                msg.append(dep);
                msg.append("'");
                proof {
                    assert(msg@ == unknown_text(fields@[i as int].name@, field_deps(fields@[i as int])[k as int]));
                }
                return Err(msg);
            },
            Some(p) => {
                let ghost done_k = done@;
                let ghost sorted_k = sorted@;
                let ghost vis_k = visiting@;
                proof {
                    lemma_distinct_bound(texts(visiting@), names_of(fields@));
                    let path1 = path.push(i);
                    assert(field_deps(fields@[i as int])[k as int] == fields@[p as int].name@);
                    assert(depends(fields@, i as int, p as int));
                    assert forall|q: int| 0 <= q < path1.len() - 1 implies #[trigger] depends(
                        fields@,
                        path1[q] as int,
                        path1[q + 1] as int,
                    ) by {
                        if q < path.len() - 1 {
                            assert(depends(fields@, path[q] as int, path[q + 1] as int));
                        }
                    }
                    assert forall|x: Seq<char>| #[trigger] texts(visiting@).contains(x) && !texts(done@).contains(x) implies on_path(
                        fields@,
                        path1,
                        x,
                    ) by {
                        if x == fields@[i as int].name@ {
                            assert(path1[path.len() as int] == i);
                        } else {
                            assert(texts(vis0).push(fields@[i as int].name@).contains(x));
                            assert(texts(vis0).contains(x)) by {
                                let q = choose|q: int| 0 <= q < texts(vis0).len() + 1 && texts(vis0).push(fields@[i as int].name@)[q] == x;
                                assert(texts(vis0)[q] == x);
                            }
                            if texts(done0).contains(x) {
                                lemma_prefix_contains(texts(done0), texts(done@), x);
                            }
                            assert(on_path(fields@, path, x));
                            let q = choose|q: int| 0 <= q < path.len() && fields@[#[trigger] path[q] as int].name@ == x;
                            assert(path1[q] == path[q]);
                        }
                    }
                }
                let res = visit(fields, p, visiting, done, sorted, Ghost(path.push(i)));
                proof {
                    assert(texts(visiting@).take(vis0.len() + 1int) =~= texts(vis0).push(fields@[i as int].name@)) by {
                        assert forall|q: int| 0 <= q < vis0.len() + 1 implies texts(visiting@)[q] == texts(vis0).push(
                            fields@[i as int].name@,
                        )[q] by {
                            assert(texts(visiting@).take(vis_k.len() as int)[q] == texts(vis_k)[q]);
                            assert(texts(vis_k).take(vis0.len() + 1int)[q] == texts(vis0).push(fields@[i as int].name@)[q]);
                        }
                    }
                    assert(texts(visiting@).take(vis0.len() + 1int)[vis0.len() as int] == texts(visiting@)[vis0.len() as int]);
                    assert(texts(visiting@)[vis0.len() as int] == fields@[i as int].name@);
                    assert(texts(visiting@).contains(fields@[i as int].name@));
                    assert(texts(visiting@).take(vis0.len() as int) =~= texts(vis0)) by {
                        assert forall|q: int| 0 <= q < vis0.len() implies texts(visiting@)[q] == texts(vis0)[q] by {
                            assert(texts(visiting@).take(vis0.len() + 1int)[q] == texts(vis0).push(fields@[i as int].name@)[q]);
                        }
                    }
                    assert(texts(done@).take(done0.len() as int) =~= texts(done0)) by {
                        assert forall|q: int| 0 <= q < done0.len() implies texts(done@)[q] == texts(done0)[q] by {
                            assert(texts(done@).take(done_k.len() as int)[q] == texts(done_k)[q]);
                            assert(texts(done_k).take(done0.len() as int)[q] == texts(done0)[q]);
                        }
                    }
                    assert(sorted@.take(sorted0.len() as int) =~= sorted0) by {
                        assert forall|q: int| 0 <= q < sorted0.len() implies sorted@[q] == sorted0[q] by {
                            assert(sorted@.take(sorted_k.len() as int)[q] == sorted_k[q]);
                            assert(sorted_k.take(sorted0.len() as int)[q] == sorted0[q]);
                        }
                    }
                }
                match res {
                    Ok(()) => {},
                    Err(e) => {
                        return Err(e);
                    },
                }
                proof {
                    assert forall|x: Seq<char>| #[trigger] texts(visiting@).contains(x) && !texts(done@).contains(
                        x,
                    ) implies texts(vis0).push(fields@[i as int].name@).contains(x) by {
                        assert(texts(vis_k).contains(x));
                        if texts(done_k).contains(x) {
                            lemma_prefix_contains(texts(done_k), texts(done@), x);
                        }
                    }
                    assert(texts(vis_k).contains(fields@[i as int].name@));
                    assert(!texts(done@).contains(fields@[i as int].name@));
                    assert forall|x: Seq<char>| #[trigger] texts(done@).contains(x) && texts(vis0).contains(x) implies texts(
                        done0,
                    ).contains(x) by {
                        assert(texts(vis_k).take(vis0.len() as int) =~= texts(vis0)) by {
                            assert forall|q: int| 0 <= q < vis0.len() implies texts(vis_k)[q] == texts(vis0)[q] by {
                                assert(texts(vis_k).take(vis0.len() + 1int)[q] == texts(vis0).push(fields@[i as int].name@)[q]);
                            }
                        }
                        lemma_prefix_contains(texts(vis0), texts(vis_k), x);
                        assert(texts(done_k).contains(x));
                    }
                    assert forall|d: int| 0 <= d < k + 1 implies texts(done@).contains(#[trigger] field_deps(fields@[i as int])[d]) by {
                        if d < k {
                            let x = field_deps(fields@[i as int])[d];
                            assert(texts(done_k).contains(x));
                            let q = choose|q: int| 0 <= q < texts(done_k).len() && texts(done_k)[q] == x;
                            assert(texts(done@).take(done_k.len() as int)[q] == texts(done_k)[q]);
                        } else {
                            assert(fields@[p as int].name@ == dep@);
                        }
                    }
                }
            },
        }
        k = k + 1;
    }
    let ghost done_end = done@;
    let ghost sorted_end = sorted@;
    proof {
        lemma_finish_field(fields@, texts(visiting@), texts(done@), sorted@, i);
    }
    done.push(fields[i].name.clone());
    sorted.push(i);
    proof {
        assert(texts(visiting@).take(vis0.len() as int) =~= texts(vis0)) by {
            assert forall|q: int| 0 <= q < vis0.len() implies texts(visiting@)[q] == texts(vis0)[q] by {
                assert(texts(visiting@).take(vis0.len() + 1int)[q] == texts(vis0).push(fields@[i as int].name@)[q]);
            }
        }
        assert(texts(done@) =~= texts(done_end).push(fields@[i as int].name@));
        assert(texts(done@).last() == fields@[i as int].name@);
        assert(texts(done@).take(done0.len() as int) =~= texts(done0)) by {
            assert forall|q: int| 0 <= q < done0.len() implies texts(done@)[q] == texts(done0)[q] by {
                assert(texts(done_end).take(done0.len() as int)[q] == texts(done0)[q]);
            }
        }
        assert(sorted@.take(sorted0.len() as int) =~= sorted0) by {
            assert forall|q: int| 0 <= q < sorted0.len() implies sorted@[q] == sorted0[q] by {
                assert(sorted_end.take(sorted0.len() as int)[q] == sorted0[q]);
            }
        }
        assert forall|x: Seq<char>| #[trigger] texts(visiting@).contains(x) && !texts(done@).contains(x) implies texts(
            vis0,
        ).contains(x) by {
            if x == fields@[i as int].name@ {
                assert(texts(done@)[done_end.len() as int] == x);
            } else {
                if texts(done_end).contains(x) {
                    let q = choose|q: int| 0 <= q < texts(done_end).len() && texts(done_end)[q] == x;
                    assert(texts(done@)[q] == x);
                }
                assert(texts(vis0).push(fields@[i as int].name@).contains(x));
                let q = choose|q: int| 0 <= q < texts(vis0).len() + 1 && texts(vis0).push(fields@[i as int].name@)[q] == x;
                assert(texts(vis0)[q] == x);
            }
        }
    }
    Ok(())
}

/// An ordering error names a real problem: with every dependency known and
/// no dependency cycle, no ordering error can be reported.
proof fn lemma_error_has_cause(fields: Seq<FieldDef>, msg: Seq<char>)
    requires
        ordering_error(fields, msg),
    ensures
        !deps_known(fields) || exists|w: Seq<usize>| #[trigger] dependency_cycle(fields, w),
{
    if deps_known(fields) {
        if !exists|w: Seq<usize>| #[trigger] dependency_cycle(fields, w) {
            let (i, d) = choose|i: int, d: int|
                0 <= i < fields.len() && 0 <= d < field_deps(fields[i]).len() && !names_of(fields).contains(
                    field_deps(fields[i])[d],
                ) && msg == #[trigger] unknown_text(fields[i].name@, field_deps(fields[i])[d]);
            assert(names_of(fields).contains(field_deps(fields[i])[d]));
        }
    }
}

/// Order the fields so that every field comes after the fields it depends on.
///
/// Returns the field indices in that order, or the first dependency problem met:
/// a dependency cycle or a dependency on an unknown field.
pub fn topo_sort_fields(fields: &[FieldDef]) -> (r: Result<Vec<usize>, String>)
    ensures
        r matches Ok(order) ==> order@.no_duplicates(),
        r matches Ok(order) ==> valid_indices(fields@, order@) && deps_first(fields@, order@) && forall|i: int|
            0 <= i < fields@.len() ==> #[trigger] named_before(fields@, order@, order@.len() as int, fields@[i].name@),
        r matches Err(msg) ==> ordering_error(fields@, msg@),
        deps_known(fields@) && (forall|w: Seq<usize>| !#[trigger] dependency_cycle(fields@, w)) ==> r is Ok,
{
    let mut visiting: Vec<String> = Vec::new();
    let mut done: Vec<String> = Vec::new();
    let mut sorted: Vec<usize> = Vec::new();
    proof {
        assert(texts(visiting@) =~= Seq::<Seq<char>>::empty());
        assert(texts(done@) =~= Seq::<Seq<char>>::empty());
    }
    let mut i: usize = 0;
    while i < fields.len()
        invariant
            0 <= i <= fields@.len(),
            walk_state(fields@, texts(visiting@), texts(done@), sorted@),
            forall|j: int| 0 <= j < i ==> texts(done@).contains(#[trigger] fields@[j].name@),
            forall|x: Seq<char>| #[trigger] texts(visiting@).contains(x) ==> texts(done@).contains(x),
        decreases fields@.len() - i,
    {
        let ghost done_i = done@;
        let ghost vis_i = visiting@;
        match visit(fields, i, &mut visiting, &mut done, &mut sorted, Ghost(Seq::empty())) {
            Ok(()) => {},
            Err(e) => {
                proof {
                    lemma_error_has_cause(fields@, e@);
                }
                return Err(e);
            },
        }
        proof {
            assert forall|x: Seq<char>| #[trigger] texts(visiting@).contains(x) implies texts(done@).contains(x) by {
                if !texts(done@).contains(x) {
                    assert(texts(vis_i).contains(x));
                    lemma_prefix_contains(texts(done_i), texts(done@), x);
                }
            }
            assert forall|j: int| 0 <= j < i + 1 implies texts(done@).contains(#[trigger] fields@[j].name@) by {
                if j < i {
                    let x = fields@[j].name@;
                    assert(texts(done_i).contains(x));
                    let q = choose|q: int| 0 <= q < texts(done_i).len() && texts(done_i)[q] == x;
                    assert(texts(done@).take(done_i.len() as int)[q] == texts(done_i)[q]);
                }
            }
        }
        i = i + 1;
    }
    proof {
        assert forall|j: int| 0 <= j < fields@.len() implies #[trigger] named_before(
            fields@,
            sorted@,
            sorted@.len() as int,
            fields@[j].name@,
        ) by {
            let x = fields@[j].name@;
            assert(texts(done@).contains(x));
            let q = choose|q: int| 0 <= q < texts(done@).len() && texts(done@)[q] == x;
            assert(texts(done@)[q] == fields@[sorted@[q] as int].name@);
        }
        assert forall|a: int, b: int| 0 <= a < sorted@.len() && 0 <= b < sorted@.len() && a != b implies sorted@[a]
            != sorted@[b] by {
            assert(texts(done@)[a] != texts(done@)[b]);
            assert(texts(done@)[a] == fields@[sorted@[a] as int].name@);
            assert(texts(done@)[b] == fields@[sorted@[b] as int].name@);
        }
    }
    Ok(sorted)
}

// ---------------------------------------------------------------------------
// Field values
// ---------------------------------------------------------------------------

/// The values of the fields generated so far in a test case, by name (a later
/// entry for a name replaces an earlier one).
pub open spec fn value_map(entries: Seq<(String, i64)>) -> Map<Seq<char>, i64>
    decreases entries.len(),
{
    if entries.len() == 0 {
        Map::empty()
    } else {
        value_map(entries.drop_last()).insert(entries.last().0@, entries.last().1)
    }
}

/// The values generated so far in a test case, by field name.
pub struct FieldValues {
    entries: Vec<(String, i64)>,
}

/// No entry from index `i` on has key `k`: the map up to `i` decides `k`.
proof fn lemma_value_map_prefix(entries: Seq<(String, i64)>, i: int, k: Seq<char>)
    requires
        0 <= i <= entries.len(),
        forall|j: int| i <= j < entries.len() ==> (#[trigger] entries[j]).0@ != k,
    ensures
        value_map(entries).contains_key(k) == value_map(entries.take(i)).contains_key(k),
        value_map(entries).contains_key(k) ==> value_map(entries)[k] == value_map(entries.take(i))[k],
    decreases entries.len() - i,
{
    if i < entries.len() {
        assert(entries.drop_last().take(i) =~= entries.take(i));
        lemma_value_map_prefix(entries.drop_last(), i, k);
    } else {
        assert(entries.take(i) =~= entries);
    }
}

impl FieldValues {
    /// The values by name.
    pub closed spec fn view(&self) -> Map<Seq<char>, i64> {
        value_map(self.entries@)
    }

    /// No values yet.
    pub fn new() -> (v: Self)
        ensures
            v.view() == Map::<Seq<char>, i64>::empty(),
    {
        FieldValues { entries: Vec::new() }
    }

    /// The value of the field named `name`, if it has one.
    pub fn get(&self, name: &str) -> (r: Option<i64>)
        ensures
            self.view().contains_key(name@) ==> r == Some(self.view()[name@]),
            !self.view().contains_key(name@) ==> r is None,
    {
        let mut i: usize = self.entries.len();
        while i > 0
            invariant
                0 <= i <= self.entries@.len(),
                forall|j: int| i <= j < self.entries@.len() ==> (#[trigger] self.entries@[j]).0@ != name@,
            decreases i,
        {
            if same_text(self.entries[i - 1].0.as_str(), name) {
                proof {
                    let e = self.entries@;
                    lemma_value_map_prefix(e, i as int, name@);
                    assert(e.take(i as int).drop_last() =~= e.take(i - 1));
                    assert(e.take(i as int).last() == e[i - 1]);
                }
                return Some(self.entries[i - 1].1);
            }
            i = i - 1;
        }
        proof {
            lemma_value_map_prefix(self.entries@, 0, name@);
            assert(self.entries@.take(0) =~= Seq::<(String, i64)>::empty());
        }
        None
    }

    /// Record the value of the field named `name`.
    pub fn insert(&mut self, name: &str, value: i64)
        ensures
            final(self).view() == old(self).view().insert(name@, value),
    {
        let ghost e0 = self.entries@;
        self.entries.push((name.to_owned(), value));
        proof {
            assert(self.entries@.drop_last() =~= e0);
        }
    }
}

/// The bounds of a range in order: the smaller first.
pub open spec fn ordered(lo: i64, hi: i64) -> (i64, i64) {
    if lo <= hi {
        (lo, hi)
    } else {
        (hi, hi)
    }
}

/// The bounds a field's range gives its scalar value, for the integer-valued
/// ranges; `None` for the others.
pub open spec fn scalar_bounds(range: RangeValue) -> Option<(i64, i64)> {
    match range {
        RangeValue::Int32(r) => Some((r.min as i64, r.max as i64)),
        RangeValue::Int64(r) => Some((r.min, r.max)),
        RangeValue::Char(r) => Some(((r.min as u32) as i64, (r.max as u32) as i64)),
        RangeValue::StringLen(r) => Some((r.min as i64, r.max as i64)),
        _ => None,
    }
}

/// The bounds of a range in order: the smaller first.
pub fn ordered_bounds(lo: i64, hi: i64) -> (b: (i64, i64))
    ensures
        b == ordered(lo, hi),
{
    if lo <= hi {
        (lo, hi)
    } else {
        (hi, hi)
    }
}

/// Whether `gen_scalar` accepts these bounds for the data type.
pub fn bounds_suit(data_type: DataType, lo: i64, hi: i64) -> (b: bool)
    ensures
        b == scalar_bounds_ok(data_type, lo, hi),
{
    match data_type {
        DataType::Int32 => (lo as i32) <= (hi as i32),
        DataType::Int64 => lo <= hi,
        DataType::String => (lo as usize) <= (hi as usize),
        _ => true,
    }
}

/// The integer bounds of a range, for the integer-valued ranges.
pub fn integer_bounds(range: &RangeValue) -> (b: Option<(i64, i64)>)
    ensures
        b == scalar_bounds(*range),
{
    match range {
        RangeValue::Int32(r) => Some((r.min as i64, r.max as i64)),
        RangeValue::Int64(r) => Some((r.min, r.max)),
        RangeValue::Char(r) => Some(((r.min as u32) as i64, (r.max as u32) as i64)),
        RangeValue::StringLen(r) => Some((r.min as i64, r.max as i64)),
        _ => None,
    }
}

/// The field can be generated without a floating-point computation.
pub open spec fn integer_field(f: FieldDef) -> bool {
    &&& !is_float_type(f.data_type)
    &&& (scalar_bounds(f.range) is Some || f.range is CountFrom)
}

/// A field can be generated: its bounds (in order) suit its data type.
pub open spec fn field_bounds_ok(f: FieldDef) -> bool {
    scalar_bounds(f.range) matches Some(b) ==> scalar_bounds_ok(
        f.data_type,
        ordered(b.0, b.1).0,
        ordered(b.0, b.1).1,
    )
}

/// `s` is the decimal text of a number between `lo` and `hi`.
pub open spec fn number_text_in(s: Seq<char>, lo: i64, hi: i64) -> bool {
    exists|v: i64| lo <= v <= hi && s == dec_int(v as int)
}

/// The count a `CountFrom` field takes from its parent: the parent's value, or
/// 0 when it has none, and never below 0.
pub open spec fn count_from(values: Map<Seq<char>, i64>, from: Seq<char>) -> i64 {
    let v = if values.contains_key(from) {
        values[from]
    } else {
        0
    };
    if v < 0 {
        0
    } else {
        v
    }
}

/// Generate the values of one field of a test case and record the number it
/// stands for under its name.
///
/// - An integer-valued range gives one scalar of the field's data type between
///   its bounds (taken in order);
/// - `CountFrom` gives as many numbers between its element bounds (in order) as
///   its parent's value, and records that count;
/// - floating-point data types, float ranges and `ValueFrom` need floating-point
///   arithmetic: the result is `None` and nothing is recorded.
pub fn gen_field(field: &FieldDef, values: &mut FieldValues, rng: &mut StdRng) -> (r: Option<Vec<String>>)
    requires
        field_bounds_ok(*field),
    ensures
        integer_field(*field) <==> r is Some,
        r is None ==> final(values).view() == old(values).view(),
        field.range matches RangeValue::CountFrom { from_field, elem_min, elem_max } ==> (r matches Some(parts) ==> {
            let cnt = count_from(old(values).view(), from_field@);
            &&& final(values).view() == old(values).view().insert(field.name@, cnt)
            &&& parts@.len() == cnt
            &&& forall|j: int|
                0 <= j < parts@.len() ==> number_text_in(
                    (#[trigger] parts@[j])@,
                    ordered(elem_min, elem_max).0,
                    ordered(elem_min, elem_max).1,
                )
        }),
        scalar_bounds(field.range) matches Some(b) ==> (r matches Some(parts) ==> {
            &&& parts@.len() == 1
            &&& exists|num: i64|
                {
                    &&& scalar_outcome(
                        field.data_type,
                        ordered(b.0, b.1).0,
                        ordered(b.0, b.1).1,
                        num,
                        parts@[0]@,
                    )
                    &&& final(values).view() == old(values).view().insert(field.name@, num)
                }
        }),
{
    if field.data_type == DataType::Float32 || field.data_type == DataType::Float64 {
        return None;
    }
    let bounds: Option<(i64, i64)> = match &field.range {
        RangeValue::Int32(r) => Some((r.min as i64, r.max as i64)),
        RangeValue::Int64(r) => Some((r.min, r.max)),
        RangeValue::Char(r) => Some(((r.min as u32) as i64, (r.max as u32) as i64)),
        RangeValue::StringLen(r) => Some((r.min as i64, r.max as i64)),
        _ => None,
    };
    match bounds {
        Some((a, b)) => {
            let lo = if a <= b {
                a
            } else {
                b
            };
            let hi = if b >= lo {
                b
            } else {
                lo
            };
            assert((lo, hi) == ordered(a, b));
            match gen_scalar(field.data_type, lo, hi, rng) {
                Some((num, s)) => {
                    values.insert(field.name.as_str(), num);
                    let mut parts: Vec<String> = Vec::new();
                    parts.push(s);
                    Some(parts)
                },
                None => None,
            }
        },
        None => {
            match &field.range {
                RangeValue::CountFrom { from_field, elem_min, elem_max } => {
                    let parent = values.get(from_field.as_str());
                    let v = match parent {
                        Some(x) => x,
                        None => 0,
                    };
                    let cnt: i64 = if v < 0 {
                        0
                    } else {
                        v
                    };
                    assert(cnt == count_from(old(values).view(), from_field@));
                    values.insert(field.name.as_str(), cnt);
                    let lo = if *elem_min <= *elem_max {
                        *elem_min
                    } else {
                        *elem_max
                    };
                    let hi = *elem_max;
                    let hi = if hi >= lo {
                        hi
                    } else {
                        lo
                    };
                    assert((lo, hi) == ordered(*elem_min, *elem_max));
                    let mut parts: Vec<String> = Vec::new();
                    let mut k: i64 = 0;
                    while k < cnt
                        invariant
                            0 <= k <= cnt,
                            lo <= hi,
                            lo == ordered(*elem_min, *elem_max).0,
                            hi == ordered(*elem_min, *elem_max).1,
                            cnt == count_from(old(values).view(), from_field@),
                            values.view() == old(values).view().insert(field.name@, cnt),
                            parts@.len() == k,
                            forall|j: int| 0 <= j < parts@.len() ==> number_text_in((#[trigger] parts@[j])@, lo, hi),
                        decreases cnt - k,
                    {
                        let x = random_i64_in(rng, lo, hi);
                        let s = i64_to_string(x);
                        parts.push(s);
                        proof {
                            assert forall|j: int| 0 <= j < parts@.len() implies number_text_in((#[trigger] parts@[j])@, lo, hi) by {
                                if j == k {
                                    assert(lo <= x <= hi && parts@[j]@ == dec_int(x as int));
                                }
                            }
                        }
                        k = k + 1;
                    }
                    Some(parts)
                },
                _ => None,
            }
        },
    }
}

/// The parts joined by single spaces.
pub open spec fn joined(parts: Seq<Seq<char>>) -> Seq<char>
    decreases parts.len(),
{
    if parts.len() == 0 {
        Seq::empty()
    } else if parts.len() == 1 {
        parts[0]
    } else {
        joined(parts.drop_last()) + seq![' '] + parts.last()
    }
}

/// What a test case line gets for one field: a space before it unless it is
/// the first field, its parts joined by spaces, and a newline after it when
/// its separator asks for one.
pub open spec fn field_text(parts: Seq<Seq<char>>, separator: FieldSeparator, first: bool) -> Seq<char> {
    (if first {
        Seq::empty()
    } else {
        seq![' ']
    }) + joined(parts) + if separator == FieldSeparator::Newline {
        seq!['\n']
    } else {
        Seq::empty()
    }
}

/// Append the values of one field to a test case.
pub fn append_field(content: &mut String, parts: &Vec<String>, separator: FieldSeparator, first: bool)
    ensures
        final(content)@ == old(content)@ + field_text(texts(parts@), separator, first),
{
    proof {
        reveal_strlit(" ");
        reveal_strlit("\n");
    }
    if !first {
        content.append(" ");
    }
    let ghost start = content@;
    let mut j: usize = 0;
    while j < parts.len()
        invariant
            0 <= j <= parts@.len(),
            content@ == start + joined(texts(parts@.take(j as int))),
            " "@ == seq![' '],
        decreases parts@.len() - j,
    {
        if j > 0 {
            content.append(" ");
        }
        content.append(parts[j].as_str());
        proof {
            let t = texts(parts@.take(j + 1));
            assert(t.drop_last() =~= texts(parts@.take(j as int)));
            assert(t.last() == parts@[j as int]@);
            if j == 0 {
                assert(t.len() == 1);
            }
            assert(content@ =~= start + joined(t));
        }
        j = j + 1;
    }
    if separator == FieldSeparator::Newline {
        content.append("\n");
    }
    assert(parts@.take(parts@.len() as int) =~= parts@);
    proof {
        assert(content@ =~= old(content)@ + field_text(texts(parts@), separator, first));
    }
}

/// One step of writing a test case: a field that produced values is appended
/// (after a space unless it is the first written), one that produced none is
/// skipped. Returns whether the next field written is still the first.
pub fn emit_field(content: &mut String, parts: &Vec<String>, separator: FieldSeparator, first: bool) -> (still_first: bool)
    ensures
        parts@.len() == 0 ==> final(content)@ == old(content)@ && still_first == first,
        parts@.len() > 0 ==> final(content)@ == old(content)@ + field_text(texts(parts@), separator, first) && !still_first,
{
    if parts.len() == 0 {
        return first;
    }
    append_field(content, parts, separator, first);
    false
}

/// Close a test case: a newline unless the text already ends with one.
pub fn end_case(content: &mut String)
    ensures
        old(content)@.len() > 0 && old(content)@.last() == '\n' ==> final(content)@ == old(content)@,
        !(old(content)@.len() > 0 && old(content)@.last() == '\n') ==> final(content)@ == old(content)@ + seq!['\n'],
{
    proof {
        reveal_strlit("\n");
    }
    let n = content.as_str().unicode_len();
    if n > 0 && content.as_str().get_char(n - 1) == '\n' {
        return;
    }
    content.append("\n");
}

/// The count line that starts a file of several test cases.
pub fn case_count_line(t: u32) -> (line: String)
    ensures
        t > 1 ==> line@ == dec(t as nat) + seq!['\n'],
        t <= 1 ==> line@ == Seq::<char>::empty(),
{
    if t > 1 {
        let mut line = u32_to_string(t);
        line.append("\n");
        proof {
            reveal_strlit("\n");
        }
        line
    } else {
        String::new()
    }
}

} // verus!
