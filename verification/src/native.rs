//! Compiling and running user programs: the decisions around the compiler and
//! process calls, and the detection of system compilers.
//!
//! The process work itself (temporary files, spawning, waiting, `which`) is done
//! by the caller, which hands the outcomes back to the functions here.

use vstd::prelude::*;

use crate::text::{
    dec, ends_with, eq_ascii_case_insensitive, eq_ignore_ascii_case, first_line, first_line_trimmed, has_suffix, same_text,
    u64_to_string,
};

verus! {

/// A copy of a literal.
fn text(lit: &str) -> (s: String)
    ensures
        s@ == lit@,
{
    lit.to_owned()
}

// ---------------------------------------------------------------------------
// Compilation
// ---------------------------------------------------------------------------

/// Result of a compilation attempt.
#[derive(Debug, Clone, PartialEq)]
pub struct CompileResult {
    pub success: bool,
    pub binary_path: Option<String>,
    pub stderr: String,
    pub exit_code: Option<i32>,
}

/// Errors that can occur during compilation.
#[derive(Debug)]
pub enum CompileError {
    /// A file or process operation failed, with the error's text.
    Io(String),
    /// The compiler process did not finish within the timeout.
    Timeout(u64),
    /// The specified compiler binary was not found on the system.
    CompilerNotFound(String),
}

/// The text shown for a compile error.
pub open spec fn compile_error_text(e: CompileError) -> Seq<char> {
    match e {
        CompileError::Io(m) => "IO error: "@ + m@,
        CompileError::Timeout(s) => "Compilation timed out after "@ + dec(s as nat) + "s"@,
        CompileError::CompilerNotFound(p) => "Compiler not found: "@ + p@,
    }
}

impl CompileError {
    /// The text shown for this error.
    pub fn to_message(&self) -> (s: String)
        ensures
            s@ == compile_error_text(*self),
    {
        match self {
            CompileError::Io(m) => {
                let mut s = text("IO error: ");
                s.append(m.as_str());
                s
            },
            CompileError::Timeout(secs) => {
                let mut s = text("Compilation timed out after ");
                let d = u64_to_string(*secs);
                s.append(d.as_str());
                s.append("s");
                s
            },
            CompileError::CompilerNotFound(p) => {
                let mut s = text("Compiler not found: ");
                s.append(p.as_str());
                s
            },
        }
    }
}

/// How long a compilation may take, in seconds.
pub const COMPILE_TIMEOUT_SECS: u64 = 30;

/// The language is Python, in any letter case: nothing to compile.
pub open spec fn is_python(language: Seq<char>) -> bool {
    eq_ascii_case_insensitive(language, "python"@)
}

/// The extension of the source file for `language`.
pub open spec fn source_extension_of(language: Seq<char>) -> Seq<char> {
    if language == "c"@ {
        "c"@
    } else {
        "cpp"@
    }
}

/// The successful result of a Python "compilation".
pub open spec fn is_passthrough_result(r: CompileResult) -> bool {
    &&& r.success
    &&& r.binary_path is None
    &&& r.stderr@ == Seq::<char>::empty()
    &&& r.exit_code == Some(0i32)
}

/// What the caller does next while compiling.
pub enum CompileStep {
    /// The compilation is over, with this result.
    Finished(Result<CompileResult, CompileError>),
    /// Look the compiler up on the system and report whether it was found.
    ProbeCompiler,
    /// Write the source to a temporary file with this extension and run the compiler.
    Build { extension: String },
}

/// How a compiler process ended.
pub enum CompileOutcome {
    /// It exited; `success` is the exit status's success.
    Exited { success: bool, exit_code: Option<i32>, stderr: String },
    /// Waiting for it failed, with the error's text.
    WaitFailed(String),
    /// It did not finish within the timeout and was killed.
    TimedOut,
}

/// The arguments of a compiler call: `-o binary source`, then the extra ones.
pub open spec fn compiler_arg_texts(binary: Seq<char>, source: Seq<char>, extra: Seq<String>) -> Seq<Seq<char>> {
    seq!["-o"@, binary, source] + extra.map_values(|a: String| a@)
}

/// Compiles source code using a system compiler.
///
/// Supports C, C++, and Python (passthrough).
pub struct CompileRunner;

impl CompileRunner {
    /// The first step of compiling `language` code: Python needs no
    /// compilation; anything else needs the compiler.
    pub fn start(&self, language: &str) -> (step: CompileStep)
        ensures
            is_python(language@) ==> (step matches CompileStep::Finished(Ok(r)) && is_passthrough_result(r)),
            !is_python(language@) ==> step is ProbeCompiler,
    {
        if eq_ignore_ascii_case(language, "python") {
            CompileStep::Finished(
                Ok(CompileResult { success: true, binary_path: None, stderr: String::new(), exit_code: Some(0) }),
            )
        } else {
            CompileStep::ProbeCompiler
        }
    }

    /// The step after looking the compiler up: a missing compiler ends the
    /// compilation, otherwise the source is built with its extension.
    pub fn after_probe(&self, language: &str, compiler_path: &str, found: bool) -> (step: CompileStep)
        ensures
            !found ==> (step matches CompileStep::Finished(Err(CompileError::CompilerNotFound(p)))
                && p@ == compiler_path@),
            found ==> (step matches CompileStep::Build { extension } && extension@ == source_extension_of(
                language@,
            )),
    {
        if !found {
            return CompileStep::Finished(Err(CompileError::CompilerNotFound(compiler_path.to_owned())));
        }
        let extension = if same_text(language, "c") {
            text("c")
        } else {
            text("cpp")
        };
        CompileStep::Build { extension }
    }

    /// The compiler's arguments: `-o binary_path source_path`, then `args`.
    pub fn compiler_args(binary_path: &str, source_path: &str, args: &[String]) -> (all: Vec<String>)
        ensures
            all@.map_values(|a: String| a@) == compiler_arg_texts(binary_path@, source_path@, args@),
    {
        let mut all: Vec<String> = Vec::new();
        all.push(text("-o"));
        all.push(binary_path.to_owned());
        all.push(source_path.to_owned());
        let mut i: usize = 0;
        while i < args.len()
            invariant
                0 <= i <= args@.len(),
                all@.map_values(|a: String| a@) == seq!["-o"@, binary_path@, source_path@] + args@.take(
                    i as int,
                ).map_values(|a: String| a@),
            decreases args@.len() - i,
        {
            let a = args[i].clone();
            let ghost before = all@;
            all.push(a);
            proof {
                let f = |a: String| a@;
                assert(all@.map_values(f) =~= before.map_values(f).push(a@));
                assert(args@.take(i + 1).map_values(f) =~= args@.take(i as int).map_values(f).push(args@[i as int]@));
                assert(all@.map_values(f) =~= seq!["-o"@, binary_path@, source_path@] + args@.take(i + 1).map_values(f));
            }
            i = i + 1;
        }
        assert(args@.take(args@.len() as int) =~= args@);
        all
    }

    /// The result of a compilation from how the compiler process ended: the
    /// binary path is reported only on success.
    pub fn finish(&self, outcome: CompileOutcome, binary_path: String) -> (r: Result<CompileResult, CompileError>)
        ensures
            outcome matches CompileOutcome::Exited { success, exit_code, stderr } ==> (r matches Ok(res) && res.success
                == success && res.exit_code == exit_code && res.stderr == stderr && (success ==> res.binary_path
                == Some(binary_path)) && (!success ==> res.binary_path is None)),
            outcome matches CompileOutcome::WaitFailed(m) ==> r == Err::<CompileResult, CompileError>(
                CompileError::Io(m),
            ),
            outcome is TimedOut ==> r == Err::<CompileResult, CompileError>(CompileError::Timeout(COMPILE_TIMEOUT_SECS)),
    {
        match outcome {
            CompileOutcome::Exited { success, exit_code, stderr } => Ok(
                CompileResult {
                    success,
                    binary_path: if success {
                        Some(binary_path)
                    } else {
                        None
                    },
                    stderr,
                    exit_code,
                },
            ),
            CompileOutcome::WaitFailed(m) => Err(CompileError::Io(m)),
            CompileOutcome::TimedOut => Err(CompileError::Timeout(COMPILE_TIMEOUT_SECS)),
        }
    }
}

// ---------------------------------------------------------------------------
// Execution
// ---------------------------------------------------------------------------

/// Result of executing a binary or script.
#[derive(Debug, Clone, PartialEq)]
pub struct ExecResult {
    pub stdout: String,
    pub stderr: String,
    pub exit_code: Option<i32>,
    pub timed_out: bool,
    pub killed: bool,
}

/// Errors from running a program.
#[derive(Debug)]
pub enum ExecError {
    /// A process operation failed, with the error's text.
    Io(String),
}

impl ExecError {
    /// The text shown for this error.
    pub fn to_message(&self) -> (s: String)
        ensures
            self matches ExecError::Io(m) && s@ == "IO error: "@ + m@,
    {
        match self {
            ExecError::Io(m) => {
                let mut s = text("IO error: ");
                s.append(m.as_str());
                s
            },
        }
    }
}

/// Runs compiled binaries or Python scripts with piped I/O and timeout.
///
/// - If `binary_path` ends with `.py`, it is run as `python3 <path>`.
/// - Otherwise it is run directly as a binary (e.g. `./binary`).
pub struct ExecRunner;

impl ExecRunner {
    /// The program to start and its arguments.
    pub fn command_for(&self, binary_path: &str) -> (cmd: (String, Vec<String>))
        ensures
            has_suffix(binary_path@, ".py"@) ==> cmd.0@ == "python3"@ && cmd.1@.len() == 1 && cmd.1@[0]@
                == binary_path@,
            !has_suffix(binary_path@, ".py"@) ==> cmd.0@ == binary_path@ && cmd.1@.len() == 0,
    {
        if ends_with(binary_path, ".py") {
            let mut args: Vec<String> = Vec::new();
            args.push(binary_path.to_owned());
            (text("python3"), args)
        } else {
            (binary_path.to_owned(), Vec::new())
        }
    }

    /// The result of a run that finished in time.
    pub fn completed(&self, stdout: String, stderr: String, exit_code: Option<i32>) -> (r: ExecResult)
        ensures
            r == (ExecResult { stdout, stderr, exit_code, timed_out: false, killed: false }),
    {
        ExecResult { stdout, stderr, exit_code, timed_out: false, killed: false }
    }

    /// The result of a run that was killed at the timeout: no output.
    pub fn timed_out(&self) -> (r: ExecResult)
        ensures
            r.stdout@ == Seq::<char>::empty(),
            r.stderr@ == Seq::<char>::empty(),
            r.exit_code is None,
            r.timed_out,
            r.killed,
    {
        ExecResult { stdout: String::new(), stderr: String::new(), exit_code: None, timed_out: true, killed: true }
    }
}

// ---------------------------------------------------------------------------
// Compiler detection
// ---------------------------------------------------------------------------

/// Information about a detected compiler.
#[derive(Debug, Clone, PartialEq)]
pub struct CompilerInfo {
    pub name: String,
    pub path: String,
    pub version: String,
}

/// Result of compiler detection.
#[derive(Debug, Clone, PartialEq)]
pub struct DetectionResult {
    pub found: Vec<CompilerInfo>,
    pub missing: Vec<String>,
}

/// The compilers that detection looks for.
pub open spec fn compiler_name_texts() -> Seq<Seq<char>> {
    seq!["gcc"@, "g++"@, "clang"@, "clang++"@, "python3"@]
}

/// Compilers we attempt to detect.
pub fn compiler_names() -> (names: Vec<String>)
    ensures
        names@.map_values(|s: String| s@) == compiler_name_texts(),
{
    let mut names: Vec<String> = Vec::new();
    names.push(text("gcc"));
    names.push(text("g++"));
    names.push(text("clang"));
    names.push(text("clang++"));
    names.push(text("python3"));
    assert(names@.map_values(|s: String| s@) =~= compiler_name_texts());
    names
}

/// The version line of a `--version` probe: the first line of standard output
/// when the probe succeeded, else of standard error (some compilers print
/// their version there), trimmed.
pub fn version_line(success: bool, stdout: &str, stderr: &str) -> (v: Option<String>)
    ensures
        v matches Some(t) ==> first_line_trimmed(if success { stdout@ } else { stderr@ }) == Some(t@),
        v is None ==> first_line_trimmed(if success { stdout@ } else { stderr@ }) is None,
{
    if success {
        first_line(stdout)
    } else {
        first_line(stderr)
    }
}

/// The view of a compiler record.
pub open spec fn info_view(c: CompilerInfo) -> (Seq<char>, Seq<char>, Seq<char>) {
    (c.name@, c.path@, c.version@)
}

/// The compilers found, in probe order: name, path and version.
pub open spec fn found_of(probes: Seq<(String, Option<(String, String)>)>) -> Seq<(Seq<char>, Seq<char>, Seq<char>)>
    decreases probes.len(),
{
    if probes.len() == 0 {
        Seq::empty()
    } else {
        let rest = found_of(probes.drop_last());
        match probes.last().1 {
            Some(pv) => rest.push((probes.last().0@, pv.0@, pv.1@)),
            None => rest,
        }
    }
}

/// The names of the compilers not found, in probe order.
pub open spec fn missing_of(probes: Seq<(String, Option<(String, String)>)>) -> Seq<Seq<char>>
    decreases probes.len(),
{
    if probes.len() == 0 {
        Seq::empty()
    } else {
        let rest = missing_of(probes.drop_last());
        match probes.last().1 {
            Some(_) => rest,
            None => rest.push(probes.last().0@),
        }
    }
}

impl DetectionResult {
    /// Sort the probes into found compilers (with their path and version) and
    /// missing ones, keeping their order.
    pub fn from_probes(probes: Vec<(String, Option<(String, String)>)>) -> (d: DetectionResult)
        ensures
            d.found@.map_values(|c: CompilerInfo| info_view(c)) == found_of(probes@),
            d.missing@.map_values(|s: String| s@) == missing_of(probes@),
    {
        let mut found: Vec<CompilerInfo> = Vec::new();
        let mut missing: Vec<String> = Vec::new();
        let mut i: usize = 0;
        while i < probes.len()
            invariant
                0 <= i <= probes@.len(),
                found@.map_values(|c: CompilerInfo| info_view(c)) == found_of(probes@.take(i as int)),
                missing@.map_values(|s: String| s@) == missing_of(probes@.take(i as int)),
            decreases probes@.len() - i,
        {
            let name = probes[i].0.clone();
            proof {
                assert(probes@.take(i + 1).drop_last() =~= probes@.take(i as int));
                assert(probes@.take(i + 1).last() == probes@[i as int]);
            }
            match &probes[i].1 {
                Some((p, v)) => {
                    let path = p.clone();
                    let version = v.clone();
                    found.push(CompilerInfo { name, path, version });
                    proof {
                        assert(found@.map_values(|c: CompilerInfo| info_view(c)) =~= found_of(probes@.take(i + 1)));
                        assert(missing@.map_values(|s: String| s@) =~= missing_of(probes@.take(i + 1)));
                    }
                },
                None => {
                    missing.push(name);
                    proof {
                        assert(found@.map_values(|c: CompilerInfo| info_view(c)) =~= found_of(probes@.take(i + 1)));
                        assert(missing@.map_values(|s: String| s@) =~= missing_of(probes@.take(i + 1)));
                    }
                },
            }
            i = i + 1;
        }
        assert(probes@.take(probes@.len() as int) =~= probes@);
        DetectionResult { found, missing }
    }
}

/// The operating systems with install instructions.
#[derive(Debug, Clone, Copy, PartialEq, Eq, Structural)]
pub enum TargetOs {
    Linux,
    MacOs,
    Windows,
    Other,
}

/// The install instruction for each compiler on `os`.
pub open spec fn guidance_table(os: TargetOs) -> Seq<(Seq<char>, Seq<char>)> {
    match os {
        TargetOs::Linux => seq![
            ("gcc"@, "apt install gcc"@),
            ("g++"@, "apt install g++"@),
            ("clang"@, "apt install clang"@),
            ("clang++"@, "apt install clang++"@),
            ("python3"@, "apt install python3"@),
        ],
        TargetOs::MacOs => seq![
            ("gcc"@, "brew install gcc"@),
            ("g++"@, "brew install gcc"@),
            ("clang"@, "brew install llvm"@),
            ("clang++"@, "brew install llvm"@),
            ("python3"@, "brew install python"@),
        ],
        TargetOs::Windows => seq![
            ("gcc"@, "Install MinGW-w64 from https://winlibs.com/"@),
            ("g++"@, "Install MinGW-w64 from https://winlibs.com/"@),
            ("clang"@, "Install LLVM from https://releases.llvm.org/"@),
            ("clang++"@, "Install LLVM from https://releases.llvm.org/"@),
            ("python3"@, "Install Python from https://python.org/"@),
        ],
        TargetOs::Other => Seq::empty(),
    }
}

/// A pair of texts.
fn entry(name: &str, instruction: &str) -> (e: (String, String))
    ensures
        e.0@ == name@,
        e.1@ == instruction@,
{
    (text(name), text(instruction))
}

/// Return install guidance for each compiler on `os`, as (compiler, instruction) pairs.
pub fn install_guidance(os: TargetOs) -> (g: Vec<(String, String)>)
    ensures
        g@.map_values(|e: (String, String)| (e.0@, e.1@)) == guidance_table(os),
{
    let mut g: Vec<(String, String)> = Vec::new();
    match os {
        TargetOs::Linux => {
            g.push(entry("gcc", "apt install gcc"));
            g.push(entry("g++", "apt install g++"));
            g.push(entry("clang", "apt install clang"));
            g.push(entry("clang++", "apt install clang++"));
            g.push(entry("python3", "apt install python3"));
        },
        TargetOs::MacOs => {
            g.push(entry("gcc", "brew install gcc"));
            g.push(entry("g++", "brew install gcc"));
            g.push(entry("clang", "brew install llvm"));
            g.push(entry("clang++", "brew install llvm"));
            g.push(entry("python3", "brew install python"));
        },
        TargetOs::Windows => {
            g.push(entry("gcc", "Install MinGW-w64 from https://winlibs.com/"));
            g.push(entry("g++", "Install MinGW-w64 from https://winlibs.com/"));
            g.push(entry("clang", "Install LLVM from https://releases.llvm.org/"));
            g.push(entry("clang++", "Install LLVM from https://releases.llvm.org/"));
            g.push(entry("python3", "Install Python from https://python.org/"));
        },
        TargetOs::Other => {},
    }
    assert(g@.map_values(|e: (String, String)| (e.0@, e.1@)) =~= guidance_table(os));
    g
}

} // verus!
