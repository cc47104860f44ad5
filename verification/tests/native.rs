use datagen::native::{
    compiler_names, install_guidance, version_line, CompileError, CompileOutcome, CompileRunner, CompileStep,
    DetectionResult, ExecError, ExecRunner, TargetOs,
};

const ALL_OS: [TargetOs; 3] = [TargetOs::Linux, TargetOs::MacOs, TargetOs::Windows];

#[test]
fn test_install_guidance_has_all_compilers() {
    for os in ALL_OS {
        let guidance = install_guidance(os);
        for name in compiler_names() {
            assert!(
                guidance.iter().any(|(n, _)| *n == name),
                "install_guidance missing entry for '{}'",
                name
            );
        }
    }
}

#[test]
fn test_install_guidance_instructions_non_empty() {
    for os in ALL_OS {
        let guidance = install_guidance(os);
        for (name, instruction) in &guidance {
            assert!(!instruction.is_empty(), "install_guidance for '{}' is empty", name);
        }
    }
}

#[test]
fn install_guidance_entries() {
    let linux = install_guidance(TargetOs::Linux);
    assert_eq!(linux[0], ("gcc".to_string(), "apt install gcc".to_string()));
    let mac = install_guidance(TargetOs::MacOs);
    assert_eq!(mac[1], ("g++".to_string(), "brew install gcc".to_string()));
    assert!(install_guidance(TargetOs::Other).is_empty());
}

#[test]
fn compiler_names_list() {
    assert_eq!(compiler_names(), vec!["gcc", "g++", "clang", "clang++", "python3"]);
}

#[test]
fn python_needs_no_compilation() {
    let runner = CompileRunner;
    match runner.start("PyThOn") {
        CompileStep::Finished(Ok(r)) => {
            assert!(r.success);
            assert_eq!(r.binary_path, None);
            assert_eq!(r.stderr, "");
            assert_eq!(r.exit_code, Some(0));
        }
        _ => panic!("python must pass through"),
    }
    assert!(matches!(runner.start("cpp"), CompileStep::ProbeCompiler));
    assert!(matches!(runner.start("pythonx"), CompileStep::ProbeCompiler));
}

#[test]
fn compiler_probe_outcomes() {
    let runner = CompileRunner;
    match runner.after_probe("cpp", "nonexistent_compiler_xyz", false) {
        CompileStep::Finished(Err(CompileError::CompilerNotFound(p))) => assert_eq!(p, "nonexistent_compiler_xyz"),
        _ => panic!("missing compiler must be reported"),
    }
    match runner.after_probe("c", "gcc", true) {
        CompileStep::Build { extension } => assert_eq!(extension, "c"),
        _ => panic!("expected a build"),
    }
    for lang in ["cpp", "c++", "rust", "C"] {
        match runner.after_probe(lang, "g++", true) {
            CompileStep::Build { extension } => assert_eq!(extension, "cpp"),
            _ => panic!("expected a build"),
        }
    }
}

#[test]
fn compiler_argument_order() {
    let args = CompileRunner::compiler_args("/tmp/out", "/tmp/src.cpp", &["-O2".to_string(), "-std=c++17".to_string()]);
    assert_eq!(args, vec!["-o", "/tmp/out", "/tmp/src.cpp", "-O2", "-std=c++17"]);
}

#[test]
fn compile_finish_outcomes() {
    let runner = CompileRunner;
    let ok = runner
        .finish(CompileOutcome::Exited { success: true, exit_code: Some(0), stderr: String::new() }, "/tmp/b".into())
        .unwrap();
    assert_eq!(ok.binary_path, Some("/tmp/b".to_string()));
    let failed = runner
        .finish(CompileOutcome::Exited { success: false, exit_code: Some(1), stderr: "error".into() }, "/tmp/b".into())
        .unwrap();
    assert!(!failed.success);
    assert_eq!(failed.binary_path, None);
    assert_eq!(failed.stderr, "error");
    assert!(matches!(runner.finish(CompileOutcome::TimedOut, "/tmp/b".into()), Err(CompileError::Timeout(30))));
    match runner.finish(CompileOutcome::WaitFailed("boom".into()), "/tmp/b".into()) {
        Err(CompileError::Io(m)) => assert_eq!(m, "boom"),
        _ => panic!("expected an IO error"),
    }
}

#[test]
fn compile_error_messages() {
    assert_eq!(CompileError::Timeout(30).to_message(), "Compilation timed out after 30s");
    assert_eq!(CompileError::CompilerNotFound("cc".into()).to_message(), "Compiler not found: cc");
    assert_eq!(CompileError::Io("x".into()).to_message(), "IO error: x");
    assert_eq!(ExecError::Io("y".into()).to_message(), "IO error: y");
}

#[test]
fn exec_command_selection() {
    let runner = ExecRunner;
    assert_eq!(runner.command_for("/tmp/script.py"), ("python3".to_string(), vec!["/tmp/script.py".to_string()]));
    assert_eq!(runner.command_for("/tmp/a.out"), ("/tmp/a.out".to_string(), vec![]));
    assert_eq!(runner.command_for(".py"), ("python3".to_string(), vec![".py".to_string()]));
}

#[test]
fn exec_results() {
    let runner = ExecRunner;
    let t = runner.timed_out();
    assert!(t.timed_out && t.killed);
    assert_eq!(t.exit_code, None);
    assert_eq!(t.stdout, "");
    let c = runner.completed("8\n".into(), String::new(), Some(0));
    assert!(!c.timed_out && !c.killed);
    assert_eq!(c.stdout, "8\n");
}

#[test]
fn version_line_choice() {
    assert_eq!(version_line(true, "gcc (GCC) 13.2.0\nCopyright", "err"), Some("gcc (GCC) 13.2.0".to_string()));
    assert_eq!(version_line(false, "out", "  Python 3.12.1  \r\n"), Some("Python 3.12.1".to_string()));
    assert_eq!(version_line(true, "", "x"), None);
    assert_eq!(version_line(true, "\nsecond", ""), Some(String::new()));
}

#[test]
fn detection_from_probes() {
    let d = DetectionResult::from_probes(vec![
        ("gcc".into(), Some(("/usr/bin/gcc".into(), "gcc 13".into()))),
        ("clang".into(), None),
        ("python3".into(), Some(("/usr/bin/python3".into(), "Python 3.12".into()))),
    ]);
    assert_eq!(d.found.len(), 2);
    assert_eq!(d.found[0].name, "gcc");
    assert_eq!(d.found[1].path, "/usr/bin/python3");
    assert_eq!(d.found[1].version, "Python 3.12");
    assert_eq!(d.missing, vec!["clang"]);
}
