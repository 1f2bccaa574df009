use gitjuggling::report::{collect_outcomes, CommandOutcome, Completion, OutcomeKind, Report};

fn exited(success: bool, code: i32, out: &str, err: &str) -> Completion {
    Completion::Exited {
        success,
        code: Some(code),
        stdout: out.to_string(),
        stderr: err.to_string(),
    }
}

#[test]
fn outcome_trims_captured_output() {
    let o = CommandOutcome::new("/r", &exited(true, 0, "  up to date\n", "\n"));
    assert_eq!("/r", o.path);
    match o.kind {
        OutcomeKind::CommandSuccess { stdout, stderr } => {
            assert_eq!("up to date", stdout);
            assert_eq!("", stderr);
        }
        _ => panic!("expected success"),
    }
}

#[test]
fn failing_command_keeps_exit_code() {
    let o = CommandOutcome::new("/r", &exited(false, 128, "", "fatal: no\n"));
    assert!(!o.success());
    match o.kind {
        OutcomeKind::CommandFailure { stdout, stderr, exit_code } => {
            assert_eq!("", stdout);
            assert_eq!("fatal: no", stderr);
            assert_eq!(Some(128), exit_code);
        }
        _ => panic!("expected failure"),
    }
}

#[test]
fn spawn_failure_leaves_other_outcomes() {
    let paths = vec!["/a".to_string(), "/missing".to_string(), "/c".to_string()];
    let completions = vec![
        exited(true, 0, "ok", ""),
        Completion::SpawnFailed("No such file or directory".to_string()),
        exited(false, 1, "", "bad"),
    ];
    let outcomes = collect_outcomes(&paths, &completions);
    assert_eq!(3, outcomes.len());
    assert_eq!("/a", outcomes[0].path);
    assert!(outcomes[0].success());
    assert!(matches!(&outcomes[1].kind, OutcomeKind::DispatchError(m) if m == "No such file or directory"));
    assert_eq!("/c", outcomes[2].path);
    assert!(matches!(&outcomes[2].kind, OutcomeKind::CommandFailure { .. }));
}

#[test]
fn aggregate_parts_every_outcome_once() {
    let paths = vec!["/a".to_string(), "/b".to_string(), "/c".to_string(), "/d".to_string()];
    let completions = vec![
        exited(true, 0, "", ""),
        Completion::SpawnFailed("x".to_string()),
        exited(false, 2, "", ""),
        exited(true, 0, "", ""),
    ];
    let report = Report::aggregate(collect_outcomes(&paths, &completions));
    assert_eq!(2, report.succeeded_count());
    assert_eq!(2, report.failed_count());
    assert_eq!(4, report.succeeded_count() + report.failed_count());
    let ok: Vec<&str> = report.succeeded.iter().map(|o| o.path.as_str()).collect();
    let bad: Vec<&str> = report.failed.iter().map(|o| o.path.as_str()).collect();
    assert_eq!(vec!["/a", "/d"], ok);
    assert_eq!(vec!["/b", "/c"], bad);
    assert!(report.any_failures());
}

#[test]
fn run_without_failures_succeeds() {
    let paths = vec!["/a".to_string()];
    let report = Report::aggregate(collect_outcomes(&paths, &vec![exited(true, 0, "", "")]));
    assert!(!report.any_failures());
    assert_eq!(1, report.succeeded_count());
}

#[test]
fn empty_run_succeeds() {
    let report = Report::aggregate(Vec::new());
    assert!(!report.any_failures());
    assert_eq!(0, report.succeeded_count() + report.failed_count());
}
