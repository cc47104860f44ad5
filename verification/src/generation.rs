//! Generating the test files of a configuration, step by step.
//!
//! `generation_order` checks the configuration and orders its fields;
//! `generate_start` and `generate_step` then write the files one field at a
//! time. A field whose values need a floating-point draw is handed out with
//! `GenAction::DrawFloat`, and its values come back in the next step.

use vstd::prelude::*;
use rand::rngs::StdRng;

use crate::config::{validation_failure, ConfigError};
use crate::orchestrator::{
    case_count_line, deps_first, deps_known, dependency_cycle, emit_field, end_case, field_bounds_ok,
    bounds_suit, field_text, file_name, file_name_text, gen_field, integer_bounds, named_before, ordered_bounds,
    ordering_error,
    tc_count, texts, topo_sort_fields, valid_indices, FieldValues,
};
use crate::text::dec;
use crate::types::{FieldDef, FieldSeparator, GenFile, RangeValue, TestCaseMode, TestConfig};

verus! {

// ---------------------------------------------------------------------------
// What the files hold
// ---------------------------------------------------------------------------

/// The separators of the fields, in generation order.
pub open spec fn separators(fields: Seq<FieldDef>, order: Seq<usize>) -> Seq<FieldSeparator> {
    order.map_values(|k: usize| fields[k as int].separator)
}

/// The text that the fields of one test case write, given the parts each field
/// produced (in generation order): a field with no parts writes nothing, the
/// others are written as `field_text` says. Also whether no field was written.
pub open spec fn emitted(seps: Seq<FieldSeparator>, ps: Seq<Seq<Seq<char>>>) -> (Seq<char>, bool)
    decreases ps.len(),
{
    if ps.len() == 0 {
        (Seq::empty(), true)
    } else {
        let prev = emitted(seps, ps.drop_last());
        let k = ps.len() - 1;
        if ps[k].len() == 0 {
            prev
        } else {
            (prev.0 + field_text(ps[k], seps[k], prev.1), false)
        }
    }
}

/// A text closed as a test case ends: with a newline added unless it already
/// ends with one.
pub open spec fn closed_case(c: Seq<char>) -> Seq<char> {
    if c.len() > 0 && c.last() == '\n' {
        c
    } else {
        c.push('\n')
    }
}

/// The count line of a file of `t` test cases: `t` and a newline when there
/// are several, nothing otherwise.
pub open spec fn count_text(t: nat) -> Seq<char> {
    if t > 1 {
        dec(t) + seq!['\n']
    } else {
        Seq::empty()
    }
}

/// The text of a file of `t` test cases whose fields produced `cases`: the
/// count line, then each case in turn, closed.
pub open spec fn file_text(seps: Seq<FieldSeparator>, t: nat, cases: Seq<Seq<Seq<Seq<char>>>>) -> Seq<char>
    decreases cases.len(),
{
    if cases.len() == 0 {
        count_text(t)
    } else {
        closed_case(file_text(seps, t, cases.drop_last()) + emitted(seps, cases.last()).0)
    }
}

/// `t` is a number of test cases that the mode allows.
pub open spec fn cases_fit(mode: TestCaseMode, t: nat) -> bool {
    match mode {
        TestCaseMode::Disabled => t == 1,
        TestCaseMode::Fixed(n) => t == n,
        TestCaseMode::Random { range, .. } => range.min <= t <= range.max,
    }
}

/// File `i` of a configuration, with `t` test cases whose fields (in `order`)
/// produced `cases`.
pub open spec fn file_made(
    config: TestConfig,
    order: Seq<usize>,
    i: nat,
    f: GenFile,
    t: nat,
    cases: Seq<Seq<Seq<Seq<char>>>>,
) -> bool {
    &&& cases_fit(config.testcase_mode, t)
    &&& cases.len() == t
    &&& forall|c: int| 0 <= c < cases.len() ==> (#[trigger] cases[c]).len() == order.len()
    &&& f.filename@ == file_name_text(config.prefix@, config.suffix@, config.files_count as nat, i)
    &&& f.content@ == file_text(separators(config.fields@, order), t, cases)
}

/// Each file is made as `file_made` says, with the counts and parts of `rec`.
pub open spec fn files_made(
    config: TestConfig,
    order: Seq<usize>,
    files: Seq<GenFile>,
    rec: Seq<(nat, Seq<Seq<Seq<Seq<char>>>>)>,
) -> bool {
    &&& rec.len() == files.len()
    &&& forall|i: int| 0 <= i < files.len() ==> file_made(config, order, i as nat, #[trigger] files[i], rec[i].0, rec[i].1)
}

// ---------------------------------------------------------------------------
// Checking and ordering
// ---------------------------------------------------------------------------

/// The error for a configuration whose fields cannot be ordered.
pub open spec fn dependency_text(msg: Seq<char>) -> Seq<char> {
    "dependency error: "@ + msg
}

/// Check a configuration and order its fields for generation.
///
/// A configuration that breaks a limit gives that limit's validation error; one
/// whose fields cannot be ordered gives `dependency error: ` and the ordering
/// problem.
pub fn generation_order(config: &TestConfig) -> (r: Result<Vec<usize>, ConfigError>)
    ensures
        validation_failure(*config) matches Some(m) ==> (r matches Err(ConfigError::ValidationError(e)) && e@ == m),
        validation_failure(*config) is None ==> (r matches Ok(order) ==> {
            &&& order@.no_duplicates()
            &&& valid_indices(config.fields@, order@)
            &&& deps_first(config.fields@, order@)
            &&& forall|i: int|
                0 <= i < config.fields@.len() ==> #[trigger] named_before(
                    config.fields@,
                    order@,
                    order@.len() as int,
                    config.fields@[i].name@,
                )
        }),
        validation_failure(*config) is None ==> (r matches Err(e) ==> (e matches ConfigError::ValidationError(m)
            && exists|p: Seq<char>| ordering_error(config.fields@, p) && m@ == dependency_text(p))),
        validation_failure(*config) is None && deps_known(config.fields@) && (forall|w: Seq<usize>|
            !#[trigger] dependency_cycle(config.fields@, w)) ==> r is Ok,
{
    match config.validate() {
        Ok(()) => {},
        Err(e) => {
            return Err(e);
        },
    }
    match topo_sort_fields(config.fields.as_slice()) {
        Ok(order) => Ok(order),
        Err(p) => {
            let mut m = String::new();
            m.append("dependency error: ");
            m.append(p.as_str());
            proof {
                reveal_strlit("dependency error: ");
                assert(m@ == dependency_text(p@));
            }
            Err(ConfigError::ValidationError(m))
        },
    }
}

// ---------------------------------------------------------------------------
// The generation steps
// ---------------------------------------------------------------------------

/// What the generation asks of its caller.
pub enum GenAction {
    /// The values of the field at this index of the configuration need a
    /// floating-point draw; `parent` is the value of the field its `ValueFrom`
    /// range reads, when it has one. The next step takes the values and the
    /// number they stand for.
    DrawFloat { field: usize, parent: Option<i64> },
    /// The next draw has an empty range: generation cannot go on.
    EmptyRange,
    /// All files are written.
    Finished(Vec<GenFile>),
}

/// Where the generation of a configuration's files stands.
pub struct GenState {
    order: Vec<usize>,
    files: Vec<GenFile>,
    started: bool,
    cases: u32,
    case: u32,
    pos: usize,
    content: String,
    values: FieldValues,
    first: bool,
    pending: bool,
    rec: Ghost<Seq<(nat, Seq<Seq<Seq<Seq<char>>>>)>>,
    done: Ghost<Seq<Seq<Seq<Seq<char>>>>>,
    cur: Ghost<Seq<Seq<Seq<char>>>>,
}

/// The value that a `ValueFrom` field reads, when it has one.
pub open spec fn parent_value(f: FieldDef, values: Map<Seq<char>, i64>) -> Option<i64> {
    match f.range {
        RangeValue::ValueFrom { from_field, .. } => if values.contains_key(from_field@) {
            Some(values[from_field@])
        } else {
            None
        },
        _ => None,
    }
}

impl GenState {
    /// The fields, in generation order.
    pub closed spec fn order(&self) -> Seq<usize> {
        self.order@
    }

    /// The values generated so far in the current test case.
    pub closed spec fn values(&self) -> Map<Seq<char>, i64> {
        self.values.view()
    }

    /// The field whose floating-point values the generation waits for, if any.
    pub closed spec fn waiting_for(&self) -> Option<usize> {
        if self.pending {
            Some(self.order@[self.pos as int])
        } else {
            None
        }
    }

    /// The state is consistent with the configuration.
    pub closed spec fn wf(&self, config: TestConfig) -> bool {
        let seps = separators(config.fields@, self.order@);
        &&& valid_indices(config.fields@, self.order@)
        &&& self.files@.len() <= config.files_count
        &&& files_made(config, self.order@, self.files@, self.rec@)
        &&& self.started ==> {
            &&& self.files@.len() < config.files_count
            &&& cases_fit(config.testcase_mode, self.cases as nat)
            &&& self.case <= self.cases
            &&& self.done@.len() == self.case
            &&& forall|c: int| 0 <= c < self.done@.len() ==> (#[trigger] self.done@[c]).len() == self.order@.len()
            &&& self.pos <= self.order@.len()
            &&& self.cur@.len() == self.pos
            &&& self.case == self.cases ==> self.pos == 0
            &&& self.content@ == file_text(seps, self.cases as nat, self.done@) + emitted(seps, self.cur@).0
            &&& self.first == emitted(seps, self.cur@).1
        }
        &&& self.pending ==> self.started && self.case < self.cases && self.pos < self.order@.len()
    }
}

/// Start generating the files of a configuration, its fields in `order`.
pub fn generate_start(config: &TestConfig, order: Vec<usize>) -> (s: GenState)
    requires
        valid_indices(config.fields@, order@),
    ensures
        s.wf(*config),
        s.order() == order@,
        s.waiting_for() is None,
{
    let s = GenState {
        order,
        files: Vec::new(),
        started: false,
        cases: 0,
        case: 0,
        pos: 0,
        content: String::new(),
        values: FieldValues::new(),
        first: true,
        pending: false,
        rec: Ghost(Seq::empty()),
        done: Ghost(Seq::empty()),
        cur: Ghost(Seq::empty()),
    };
    assert(files_made(*config, s.order@, s.files@, s.rec@));
    s
}

/// Whether a field's bounds (in order) suit its data type.
fn bounds_usable(field: &FieldDef) -> (b: bool)
    ensures
        b == field_bounds_ok(*field),
{
    match integer_bounds(&field.range) {
        None => true,
        Some((a, b)) => {
            let (lo, hi) = ordered_bounds(a, b);
            bounds_suit(field.data_type, lo, hi)
        },
    }
}

/// The value a `ValueFrom` field reads.
fn parent_of(field: &FieldDef, values: &FieldValues) -> (p: Option<i64>)
    ensures
        p == parent_value(*field, values.view()),
{
    match &field.range {
        RangeValue::ValueFrom { from_field, .. } => values.get(from_field.as_str()),
        _ => None,
    }
}

/// Appending the parts of the next field keeps the state's text in step.
proof fn lemma_emit_next(seps: Seq<FieldSeparator>, cur: Seq<Seq<Seq<char>>>, p: Seq<Seq<char>>)
    ensures
        p.len() == 0 ==> emitted(seps, cur.push(p)) == emitted(seps, cur),
        p.len() > 0 ==> emitted(seps, cur.push(p)) == (
        emitted(seps, cur).0 + field_text(p, seps[cur.len() as int], emitted(seps, cur).1),
        false,
        ),
{
    assert(cur.push(p).drop_last() =~= cur);
}

impl GenState {
    /// Record the parts of the field at `pos` and move to the next field.
    fn take_parts(&mut self, config: &TestConfig, parts: &Vec<String>)
        requires
            old(self).wf(*config),
            old(self).started,
            old(self).case < old(self).cases,
            old(self).pos < old(self).order@.len(),
            !old(self).pending,
        ensures
            final(self).wf(*config),
            final(self).order@ == old(self).order@,
            final(self).files@ == old(self).files@,
            final(self).started,
            final(self).case == old(self).case,
            final(self).cases == old(self).cases,
            final(self).pos == old(self).pos + 1,
            final(self).pending == old(self).pending,
            final(self).values.view() == old(self).values.view(),
    {
        let ghost seps = separators(config.fields@, self.order@);
        let k = self.order[self.pos];
        let sep = config.fields[k].separator;
        assert(seps[self.pos as int] == sep);
        proof {
            lemma_emit_next(seps, self.cur@, texts(parts@));
        }
        let ghost c0 = self.cur@;
        let f = emit_field(&mut self.content, parts, sep, self.first);
        self.first = f;
        self.cur = Ghost(self.cur@.push(texts(parts@)));
        assert(self.pos < self.order.len());
        self.pos = self.pos + 1;
        proof {
            assert(texts(parts@).len() == parts@.len());
            assert(self.content@ =~= file_text(seps, self.cases as nat, self.done@) + emitted(seps, self.cur@).0);
            assert(!self.pending);
        }
    }
}

/// Run the generation until it needs a floating-point draw, meets an empty
/// range, or has written every file.
///
/// `float_parts` holds the values (and the number they stand for) of the field
/// that the previous step handed out with `DrawFloat`; it is read only then.
///
/// The files come out as the configuration asks: `files_count` of them, named
/// by `file_name_text`, each the count line of its number of test cases (a
/// number the test-case mode allows) followed by that many test cases, each
/// with one list of values per field in generation order, written and closed
/// as `file_text` says.
pub fn generate_step(
    config: &TestConfig,
    s: &mut GenState,
    rng: &mut StdRng,
    float_parts: Option<(Vec<String>, i64)>,
) -> (a: GenAction)
    requires
        old(s).wf(*config),
    ensures
        final(s).wf(*config),
        final(s).order() == old(s).order(),
        a matches GenAction::DrawFloat { field, parent } ==> {
            &&& final(s).waiting_for() == Some(field)
            &&& field < config.fields@.len()
            &&& parent == parent_value(config.fields@[field as int], final(s).values())
        },
        !(a is DrawFloat) ==> final(s).waiting_for() is None,
        a matches GenAction::Finished(files) ==> files@.len() == config.files_count && exists|
            rec: Seq<(nat, Seq<Seq<Seq<Seq<char>>>>)>,
        |
            files_made(*config, old(s).order(), files@, rec),
        a is EmptyRange ==> (config.testcase_mode matches TestCaseMode::Random { range, .. } && range.min > range.max)
            || exists|k: int| 0 <= k < old(s).order().len() && !field_bounds_ok(
            #[trigger] config.fields@[old(s).order()[k] as int],
        ),
{
    let ghost order0 = s.order@;
    if s.pending {
        match float_parts {
            Some((parts, num)) => {
                let k = s.order[s.pos];
                s.pending = false;
                s.values.insert(config.fields[k].name.as_str(), num);
                s.take_parts(config, &parts);
            },
            None => {
                let k = s.order[s.pos];
                let parent = parent_of(&config.fields[k], &s.values);
                return GenAction::DrawFloat { field: k, parent };
            },
        }
    }
    loop
        invariant
            s.wf(*config),
            !s.pending,
            s.order@ == order0,
            order0 == old(s).order@,
        decreases config.files_count - s.files@.len(), (if s.started {
            0int
        } else {
            1int
        }), s.cases - s.case, s.order@.len() - s.pos,
    {
        if !s.started {
            if s.files.len() >= config.files_count as usize {
                let mut out: Vec<GenFile> = Vec::new();
                std::mem::swap(&mut out, &mut s.files);
                let ghost rec = s.rec@;
                s.rec = Ghost(Seq::empty());
                proof {
                    assert(files_made(*config, s.order@, s.files@, s.rec@));
                    assert(files_made(*config, old(s).order(), out@, rec));
                    assert(out@.len() == config.files_count);
                }
                return GenAction::Finished(out);
            }
            match config.testcase_mode {
                TestCaseMode::Random { range, .. } => {
                    if range.min > range.max {
                        return GenAction::EmptyRange;
                    }
                },
                _ => {},
            }
            let t = tc_count(&config.testcase_mode, rng);
            s.content = case_count_line(t);
            s.cases = t;
            s.case = 0;
            s.pos = 0;
            s.values = FieldValues::new();
            s.first = true;
            s.started = true;
            s.done = Ghost(Seq::empty());
            s.cur = Ghost(Seq::empty());
            proof {
                assert(emitted(separators(config.fields@, s.order@), s.cur@).0 =~= Seq::<char>::empty());
                assert(s.content@ =~= file_text(separators(config.fields@, s.order@), t as nat, s.done@) + emitted(
                    separators(config.fields@, s.order@),
                    s.cur@,
                ).0);
            }
        } else if s.case == s.cases {
            let i = s.files.len() as u32;
            let name = file_name(config, i);
            let mut content = String::new();
            std::mem::swap(&mut content, &mut s.content);
            let ghost seps = separators(config.fields@, s.order@);
            proof {
                assert(s.cur@ =~= Seq::<Seq<Seq<char>>>::empty());
                assert(content@ =~= file_text(seps, s.cases as nat, s.done@));
            }
            let ghost files0 = s.files@;
            let ghost rec0 = s.rec@;
            s.files.push(GenFile { filename: name, content });
            s.rec = Ghost(s.rec@.push((s.cases as nat, s.done@)));
            s.started = false;
            proof {
                assert forall|q: int| 0 <= q < s.files@.len() implies file_made(
                    *config,
                    s.order@,
                    q as nat,
                    #[trigger] s.files@[q],
                    s.rec@[q].0,
                    s.rec@[q].1,
                ) by {
                    if q < files0.len() {
                        assert(s.files@[q] == files0[q]);
                        assert(s.rec@[q] == rec0[q]);
                    }
                }
            }
        } else if s.pos == s.order.len() {
            let ghost seps = separators(config.fields@, s.order@);
            let ghost before = s.content@;
            end_case(&mut s.content);
            let ghost done0 = s.done@;
            s.done = Ghost(s.done@.push(s.cur@));
            s.cur = Ghost(Seq::empty());
            s.case = s.case + 1;
            s.pos = 0;
            s.values = FieldValues::new();
            s.first = true;
            proof {
                assert(s.done@.drop_last() =~= done0);
                assert(s.content@ == closed_case(before));
                assert(emitted(seps, s.cur@).0 =~= Seq::<char>::empty());
                assert(s.content@ =~= file_text(seps, s.cases as nat, s.done@) + emitted(seps, s.cur@).0);
                assert forall|c: int| 0 <= c < s.done@.len() implies (#[trigger] s.done@[c]).len() == s.order@.len() by {
                    if c < done0.len() {
                        assert(s.done@[c] == done0[c]);
                    }
                }
            }
        } else {
            let k = s.order[s.pos];
            if !bounds_usable(&config.fields[k]) {
                assert(!field_bounds_ok(config.fields@[old(s).order()[s.pos as int] as int]));
                return GenAction::EmptyRange;
            }
            match gen_field(&config.fields[k], &mut s.values, rng) {
                Some(parts) => {
                    s.take_parts(config, &parts);
                },
                None => {
                    s.pending = true;
                    let parent = parent_of(&config.fields[k], &s.values);
                    return GenAction::DrawFloat { field: k, parent };
                },
            }
        }
    }
}

} // verus!
