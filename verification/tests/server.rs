use datagen::config::ConfigError;
use datagen::native::CompileResult;
use datagen::server::{
    busy_compilations, busy_executions, compiler_for, field_failure, generation_failure, multipart_failure,
    progress_events, rate_limit_reply, run_plan, select_compiler, ApiError, CompileForm, RateLimitRejection, RunPlan,
};
use datagen::types::GenFile;

fn bad_request(e: ApiError) -> String {
    match e {
        ApiError::BadRequest(m) => m,
        _ => panic!("expected a bad request"),
    }
}

#[test]
fn api_error_statuses() {
    assert_eq!(ApiError::BadRequest("a".into()).status_code(), 400);
    assert_eq!(ApiError::Unprocessable("a".into()).status_code(), 422);
    assert_eq!(ApiError::Internal("a".into()).status_code(), 500);
    assert_eq!(ApiError::Timeout("a".into()).status_code(), 408);
    assert_eq!(ApiError::RateLimited("a".into()).status_code(), 429);
    assert_eq!(ApiError::Busy("msg".into()).status_code(), 503);
    assert_eq!(ApiError::Busy("msg".into()).message(), "msg");
}

#[test]
fn compiler_selection() {
    assert_eq!(select_compiler("C").ok().unwrap().0, "gcc");
    assert_eq!(select_compiler("CPP").ok().unwrap().0, "g++");
    assert_eq!(select_compiler("c++").ok().unwrap().0, "g++");
    let (c, args) = select_compiler("Python").ok().unwrap();
    assert_eq!(c, "python3");
    assert!(args.is_empty());
    assert_eq!(bad_request(select_compiler("Rust").err().unwrap()), "Unsupported language: rust");
    assert_eq!(bad_request(compiler_for("go").err().unwrap()), "Unsupported language: go");
}

#[test]
fn compile_form_collects_fields() {
    let mut form = CompileForm::new();
    form.accept("source", "int main(){}".into());
    form.accept("language", "cpp".into());
    form.accept("other", "ignored".into());
    form.accept("args", "-O2".into());
    form.accept("args", "-Wall".into());
    assert!(!CompileForm::wants("other"));
    assert!(CompileForm::wants("args"));
    assert_eq!(bad_request(form.finish().err().unwrap()), "Missing field: compiler");

    let mut form = CompileForm::new();
    form.accept("compiler", "g++".into());
    form.accept("language", "c".into());
    form.accept("language", "cpp".into());
    form.accept("source", "x".into());
    form.accept("args", "-O2".into());
    let req = form.finish().ok().unwrap();
    assert_eq!(req.language, "cpp");
    assert_eq!(req.compiler, "g++");
    assert_eq!(req.source, "x");
    assert_eq!(req.args, vec!["-O2"]);
}

#[test]
fn compile_form_missing_order() {
    let form = CompileForm::new();
    assert_eq!(bad_request(form.finish().err().unwrap()), "Missing field: source");
    let mut form = CompileForm::new();
    form.accept("source", "x".into());
    assert_eq!(bad_request(form.finish().err().unwrap()), "Missing field: language");
}

#[test]
fn failure_messages() {
    assert_eq!(bad_request(multipart_failure("eof")), "Failed to read multipart field: eof");
    assert_eq!(bad_request(field_failure("source", "utf8")), "Failed to read source: utf8");
    match busy_compilations() {
        ApiError::Busy(m) => assert_eq!(m, "Server busy, too many concurrent compilations. Try again later."),
        _ => panic!(),
    }
    match busy_executions() {
        ApiError::Busy(m) => assert_eq!(m, "Server busy, too many concurrent executions. Try again later."),
        _ => panic!(),
    }
    match generation_failure(&ConfigError::ValidationError("files_count must be <= 1000".into())) {
        ApiError::Unprocessable(m) => {
            assert_eq!(m, "Generation error: Config validation error: files_count must be <= 1000")
        }
        _ => panic!(),
    }
}

#[test]
fn pipeline_run_plan() {
    let compiled = CompileResult { success: true, binary_path: Some("/tmp/bin".into()), stderr: String::new(), exit_code: Some(0) };
    assert!(matches!(run_plan(&compiled, "cpp"), RunPlan::Binary(p) if p == "/tmp/bin"));
    let python = CompileResult { success: true, binary_path: None, stderr: String::new(), exit_code: Some(0) };
    assert!(matches!(run_plan(&python, "PYTHON"), RunPlan::PythonScript));
    assert!(matches!(run_plan(&python, "cpp"), RunPlan::Nothing));
}

#[test]
fn rate_limit_replies() {
    let r = rate_limit_reply(RateLimitRejection::TooManyRequests { wait_time: 6 });
    assert_eq!((r.status, r.error.as_str(), r.retry_after), (429, "Rate limit exceeded. Try again later.", Some(6)));
    let r = rate_limit_reply(RateLimitRejection::UnableToExtractKey);
    assert_eq!((r.status, r.error.as_str(), r.retry_after), (400, "Could not determine client IP", None));
    let r = rate_limit_reply(RateLimitRejection::Other { code: 500, msg: None });
    assert_eq!((r.status, r.error.as_str()), (500, "Rate limiting error"));
    let r = rate_limit_reply(RateLimitRejection::Other { code: 503, msg: Some("slow down".into()) });
    assert_eq!((r.status, r.error.as_str()), (503, "slow down"));
}

#[test]
fn progress_for_files() {
    let files = vec![
        GenFile { filename: "test1.in".into(), content: "1\n".into() },
        GenFile { filename: "test2.in".into(), content: "2\n".into() },
    ];
    let events = progress_events(&files);
    assert_eq!(events.len(), 2);
    assert_eq!((events[1].file.as_str(), events[1].index, events[1].total), ("test2.in", 2, 2));
    assert_eq!(events[0].index, 1);
}
