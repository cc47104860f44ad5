//! The decisions of the web API: request and response types, error statuses,
//! compiler selection, multipart form collection, the run plan of the full
//! pipeline, rate-limit replies and streaming progress.
//!
//! The HTTP plumbing itself is the caller's; it hands requests in and turns
//! the values returned here into responses.

use vstd::prelude::*;

use crate::config::{config_error_text, ConfigError};
use crate::native::{is_python, CompileResult, ExecResult};
use crate::text::{ascii_lower, dec, eq_ignore_ascii_case, same_text, u32_to_string};
use crate::types::{GenFile, GenResult};

verus! {

/// A copy of a literal.
fn text(lit: &str) -> (s: String)
    ensures
        s@ == lit@,
{
    lit.to_owned()
}

// ---------------------------------------------------------------------------
// Request / Response types
// ---------------------------------------------------------------------------

/// Request body for `POST /api/run`.
pub struct RunRequest {
    pub binary_path: String,
    pub input: String,
    pub timeout: u64,
}

/// Response body for `POST /api/generate-and-run`.
pub struct GenerateAndRunResponse {
    pub generation: GenResult,
    pub compilation: CompileResult,
    pub execution: Vec<ExecResult>,
}

// ---------------------------------------------------------------------------
// Error type
// ---------------------------------------------------------------------------

/// Unified API error type that renders as `{"error": "..."}` with appropriate status codes.
pub enum ApiError {
    BadRequest(String),
    Unprocessable(String),
    Internal(String),
    Timeout(String),
    /// 429 Too Many Requests — rate limit exceeded.
    RateLimited(String),
    /// 503 Service Unavailable — concurrency limit reached.
    Busy(String),
}

/// The HTTP status of an error.
pub open spec fn status_of(e: ApiError) -> u16 {
    match e {
        ApiError::BadRequest(_) => 400,
        ApiError::Unprocessable(_) => 422,
        ApiError::Internal(_) => 500,
        ApiError::Timeout(_) => 408,
        ApiError::RateLimited(_) => 429,
        ApiError::Busy(_) => 503,
    }
}

/// The message of an error.
pub open spec fn message_of(e: ApiError) -> Seq<char> {
    match e {
        ApiError::BadRequest(m) => m@,
        ApiError::Unprocessable(m) => m@,
        ApiError::Internal(m) => m@,
        ApiError::Timeout(m) => m@,
        ApiError::RateLimited(m) => m@,
        ApiError::Busy(m) => m@,
    }
}

impl ApiError {
    /// The HTTP status code the error is answered with.
    pub fn status_code(&self) -> (code: u16)
        ensures
            code == status_of(*self),
    {
        match self {
            ApiError::BadRequest(_) => 400,
            ApiError::Unprocessable(_) => 422,
            ApiError::Internal(_) => 500,
            ApiError::Timeout(_) => 408,
            ApiError::RateLimited(_) => 429,
            ApiError::Busy(_) => 503,
        }
    }

    /// The message put under `"error"` in the response body.
    pub fn message(&self) -> (m: String)
        ensures
            m@ == message_of(*self),
    {
        match self {
            ApiError::BadRequest(m) => m.clone(),
            ApiError::Unprocessable(m) => m.clone(),
            ApiError::Internal(m) => m.clone(),
            ApiError::Timeout(m) => m.clone(),
            ApiError::RateLimited(m) => m.clone(),
            ApiError::Busy(m) => m.clone(),
        }
    }
}

/// The answer when every compile slot is taken.
pub fn busy_compilations() -> (e: ApiError)
    ensures
        e matches ApiError::Busy(m) && m@ == "Server busy, too many concurrent compilations. Try again later."@,
{
    ApiError::Busy(text("Server busy, too many concurrent compilations. Try again later."))
}

/// The answer when every run slot is taken.
pub fn busy_executions() -> (e: ApiError)
    ensures
        e matches ApiError::Busy(m) && m@ == "Server busy, too many concurrent executions. Try again later."@,
{
    ApiError::Busy(text("Server busy, too many concurrent executions. Try again later."))
}

/// The answer when the generation of the full pipeline fails.
pub fn generation_failure(e: &ConfigError) -> (r: ApiError)
    ensures
        r matches ApiError::Unprocessable(m) && m@ == "Generation error: "@ + config_error_text(*e),
{
    let mut m = text("Generation error: ");
    let t = e.to_message();
    m.append(t.as_str());
    ApiError::Unprocessable(m)
}

// ---------------------------------------------------------------------------
// Compiler selection
// ---------------------------------------------------------------------------

/// What `str::to_lowercase` returns for a text.
pub uninterp spec fn lowercase(s: Seq<char>) -> Seq<char>;

/// `str::to_lowercase`: the text with every character mapped to its Unicode
/// lower-case form, a function of the text alone. On ASCII text that form maps
/// `A`-`Z` to `a`-`z` and keeps every other character.
#[verifier::external_body]
fn to_lowercase(s: &str) -> (r: String)
    ensures
        r@ == lowercase(s@),
        (forall|i: int| 0 <= i < s@.len() ==> (#[trigger] s@[i] as u32) < 128) ==> r@.len() == s@.len() && forall|i: int|
            0 <= i < s@.len() ==> (#[trigger] r@[i] as u32) == ascii_lower(s@[i]),
{
    s.to_lowercase()
}

/// The compiler program for a lower-cased language name, if it is supported.
pub open spec fn compiler_text_for(lang: Seq<char>) -> Option<Seq<char>> {
    if lang == "c"@ {
        Some("gcc"@)
    } else if lang == "cpp"@ || lang == "c++"@ {
        Some("g++"@)
    } else if lang == "python"@ {
        Some("python3"@)
    } else {
        None
    }
}

/// The compiler and its extra arguments (none) for an already lower-cased
/// language name; other names are refused as unsupported.
pub fn compiler_for(lang: &str) -> (r: Result<(String, Vec<String>), ApiError>)
    ensures
        compiler_text_for(lang@) matches Some(c) ==> (r matches Ok(p) && p.0@ == c && p.1@.len() == 0),
        compiler_text_for(lang@) is None ==> (r matches Err(ApiError::BadRequest(m)) && m@
            == "Unsupported language: "@ + lang@),
{
    if same_text(lang, "c") {
        Ok((text("gcc"), Vec::new()))
    } else if same_text(lang, "cpp") || same_text(lang, "c++") {
        Ok((text("g++"), Vec::new()))
    } else if same_text(lang, "python") {
        Ok((text("python3"), Vec::new()))
    } else {
        let mut m = text("Unsupported language: ");
        m.append(lang);
        Err(ApiError::BadRequest(m))
    }
}

/// Auto-select the compiler for a language, matched in lower case.
pub fn select_compiler(language: &str) -> (r: Result<(String, Vec<String>), ApiError>)
    ensures
        compiler_text_for(lowercase(language@)) matches Some(c) ==> (r matches Ok(p) && p.0@ == c && p.1@.len()
            == 0),
        compiler_text_for(lowercase(language@)) is None ==> (r matches Err(ApiError::BadRequest(m)) && m@
            == "Unsupported language: "@ + lowercase(language@)),
        (forall|i: int| 0 <= i < language@.len() ==> (#[trigger] language@[i] as u32) < 128) ==> lowercase(language@).len()
            == language@.len() && forall|i: int|
            0 <= i < language@.len() ==> (#[trigger] lowercase(language@)[i] as u32) == ascii_lower(language@[i]),
{
    let lower = to_lowercase(language);
    compiler_for(lower.as_str())
}

// ---------------------------------------------------------------------------
// Multipart compile form
// ---------------------------------------------------------------------------

/// The fields of a compile request collected so far.
pub struct CompileForm {
    pub source: Option<String>,
    pub language: Option<String>,
    pub compiler: Option<String>,
    pub args: Vec<String>,
}

/// The fields of a complete compile request.
pub struct CompileRequest {
    pub source: String,
    pub language: String,
    pub compiler: String,
    pub args: Vec<String>,
}

impl CompileForm {
    /// An empty form.
    pub fn new() -> (f: Self)
        ensures
            f.source is None,
            f.language is None,
            f.compiler is None,
            f.args@.len() == 0,
    {
        CompileForm { source: None, language: None, compiler: None, args: Vec::new() }
    }

    /// The field `name` is one whose text the form reads.
    pub fn wants(name: &str) -> (b: bool)
        ensures
            b == (name@ == "source"@ || name@ == "language"@ || name@ == "compiler"@ || name@ == "args"@),
    {
        same_text(name, "source") || same_text(name, "language") || same_text(name, "compiler") || same_text(
            name,
            "args",
        )
    }

    /// Take the text of a field.
    pub fn accept(&mut self, name: &str, t: String)
        ensures
            name@ == "source"@ ==> final(self).source == Some(t) && final(self).language == old(self).language
                && final(self).compiler == old(self).compiler && final(self).args@ == old(self).args@,
            name@ == "language"@ ==> final(self).language == Some(t) && final(self).source == old(self).source
                && final(self).compiler == old(self).compiler && final(self).args@ == old(self).args@,
            name@ == "compiler"@ ==> final(self).compiler == Some(t) && final(self).source == old(self).source
                && final(self).language == old(self).language && final(self).args@ == old(self).args@,
            name@ == "args"@ ==> final(self).args@ == old(self).args@.push(t)
                && final(self).source == old(self).source
                && final(self).language == old(self).language
                && final(self).compiler == old(self).compiler,
            !(name@ == "source"@ || name@ == "language"@ || name@ == "compiler"@ || name@ == "args"@)
                ==> final(self).source == old(self).source
                && final(self).language == old(self).language
                && final(self).compiler == old(self).compiler
                && final(self).args@ == old(self).args@,
    {
        proof {
            reveal_strlit("source");
            reveal_strlit("language");
            reveal_strlit("compiler");
            reveal_strlit("args");
            assert("source"@.len() == 6 && "language"@.len() == 8 && "compiler"@.len() == 8 && "args"@.len() == 4);
            assert("language"@[0] != "compiler"@[0]);
        }
        if same_text(name, "source") {
            self.source = Some(t);
        } else if same_text(name, "language") {
            self.language = Some(t);
        } else if same_text(name, "compiler") {
            self.compiler = Some(t);
        } else if same_text(name, "args") {
            self.args.push(t);
        }
    }

    /// The complete request, or the first missing field (source, then
    /// language, then compiler).
    pub fn finish(self) -> (r: Result<CompileRequest, ApiError>)
        ensures
            self.source is None ==> (r matches Err(ApiError::BadRequest(m)) && m@ == "Missing field: source"@),
            self.source is Some && self.language is None ==> (r matches Err(ApiError::BadRequest(m)) && m@
                == "Missing field: language"@),
            self.source is Some && self.language is Some && self.compiler is None ==> (r matches Err(
                ApiError::BadRequest(m),
            ) && m@ == "Missing field: compiler"@),
            self.source is Some && self.language is Some && self.compiler is Some ==> (r matches Ok(req)
                && Some(req.source) == self.source && Some(req.language) == self.language && Some(req.compiler)
                == self.compiler && req.args@ == self.args@),
    {
        let source = match self.source {
            Some(s) => s,
            None => {
                return Err(ApiError::BadRequest(text("Missing field: source")));
            },
        };
        let language = match self.language {
            Some(s) => s,
            None => {
                return Err(ApiError::BadRequest(text("Missing field: language")));
            },
        };
        let compiler = match self.compiler {
            Some(s) => s,
            None => {
                return Err(ApiError::BadRequest(text("Missing field: compiler")));
            },
        };
        Ok(CompileRequest { source, language, compiler, args: self.args })
    }
}

/// The answer when reading the next multipart field fails.
pub fn multipart_failure(err: &str) -> (e: ApiError)
    ensures
        e matches ApiError::BadRequest(m) && m@ == "Failed to read multipart field: "@ + err@,
{
    let mut m = text("Failed to read multipart field: ");
    m.append(err);
    ApiError::BadRequest(m)
}

/// The answer when reading the text of field `name` fails.
pub fn field_failure(name: &str, err: &str) -> (e: ApiError)
    ensures
        e matches ApiError::BadRequest(m) && m@ == "Failed to read "@ + name@ + ": "@ + err@,
{
    let mut m = text("Failed to read ");
    m.append(name);
    m.append(": ");
    m.append(err);
    ApiError::BadRequest(m)
}

// ---------------------------------------------------------------------------
// Full pipeline
// ---------------------------------------------------------------------------

/// What the pipeline runs against each generated file after compiling.
pub enum RunPlan {
    /// The compiled binary at this path.
    Binary(String),
    /// The source itself, written out as a Python script.
    PythonScript,
    /// Nothing: the compilation produced no binary.
    Nothing,
}

/// A compiled binary is run; failing that, Python source is run as a script.
pub fn run_plan(compiled: &CompileResult, language: &str) -> (p: RunPlan)
    ensures
        compiled.binary_path matches Some(b) ==> (p matches RunPlan::Binary(q) && q == b),
        compiled.binary_path is None && is_python(language@) ==> p is PythonScript,
        compiled.binary_path is None && !is_python(language@) ==> p is Nothing,
{
    match &compiled.binary_path {
        Some(b) => RunPlan::Binary(b.clone()),
        None => {
            if eq_ignore_ascii_case(language, "python") {
                RunPlan::PythonScript
            } else {
                RunPlan::Nothing
            }
        },
    }
}

/// How long each run of the pipeline may take, in seconds.
pub const PIPELINE_RUN_TIMEOUT_SECS: u64 = 5;

// ---------------------------------------------------------------------------
// Rate limiting
// ---------------------------------------------------------------------------

/// Why the rate limiter refused a request.
pub enum RateLimitRejection {
    /// Too many requests; retry after this many seconds.
    TooManyRequests { wait_time: u64 },
    /// The client address could not be determined.
    UnableToExtractKey,
    /// Another refusal, with its status code and message.
    Other { code: u16, msg: Option<String> },
}

/// The reply to a refused request.
pub struct RateLimitReply {
    pub status: u16,
    pub error: String,
    /// The `Retry-After` seconds, when the reply carries them.
    pub retry_after: Option<u64>,
}

/// The reply to a rate-limit refusal: 429 with the wait time, 400 when the
/// client is unknown, or the limiter's own status and message.
pub fn rate_limit_reply(r: RateLimitRejection) -> (reply: RateLimitReply)
    ensures
        r matches RateLimitRejection::TooManyRequests { wait_time } ==> (reply.status == 429 && reply.error@
            == "Rate limit exceeded. Try again later."@ && reply.retry_after == Some(wait_time)),
        r is UnableToExtractKey ==> (reply.status == 400 && reply.error@ == "Could not determine client IP"@
            && reply.retry_after is None),
        r matches RateLimitRejection::Other { code, msg } ==> (reply.status == code && reply.retry_after is None
            && (msg matches Some(m) ==> reply.error == m) && (msg is None ==> reply.error@
            == "Rate limiting error"@)),
{
    match r {
        RateLimitRejection::TooManyRequests { wait_time } => RateLimitReply {
            status: 429,
            error: text("Rate limit exceeded. Try again later."),
            retry_after: Some(wait_time),
        },
        RateLimitRejection::UnableToExtractKey => RateLimitReply {
            status: 400,
            error: text("Could not determine client IP"),
            retry_after: None,
        },
        RateLimitRejection::Other { code, msg } => RateLimitReply {
            status: code,
            error: match msg {
                Some(m) => m,
                None => text("Rate limiting error"),
            },
            retry_after: None,
        },
    }
}

// ---------------------------------------------------------------------------
// Streaming progress
// ---------------------------------------------------------------------------

/// One progress event: the file name, its 1-based index and the total.
pub struct Progress {
    pub file: String,
    pub index: u32,
    pub total: u32,
}

/// The progress events for the generated files, in order.
pub fn progress_events(files: &[GenFile]) -> (events: Vec<Progress>)
    requires
        files@.len() < u32::MAX,
    ensures
        events@.len() == files@.len(),
        forall|i: int|
            0 <= i < events@.len() ==> (#[trigger] events@[i]).file == files@[i].filename && events@[i].index == i + 1
                && events@[i].total == files@.len(),
{
    let total = files.len() as u32;
    let mut events: Vec<Progress> = Vec::new();
    let mut i: usize = 0;
    while i < files.len()
        invariant
            0 <= i <= files@.len(),
            files@.len() < u32::MAX,
            total == files@.len(),
            events@.len() == i,
            forall|j: int|
                0 <= j < i ==> (#[trigger] events@[j]).file == files@[j].filename && events@[j].index == j + 1
                    && events@[j].total == total,
        decreases files@.len() - i,
    {
        events.push(Progress { file: files[i].filename.clone(), index: i as u32 + 1, total });
        i = i + 1;
    }
    events
}

} // verus!
