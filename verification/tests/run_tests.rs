use ahc_local_tools::CaseError;
use ahc_local_tools::config::ExecConfig;
use ahc_local_tools::config::build_command_args;
use ahc_local_tools::config::default_solver_cmd;
use ahc_local_tools::config::default_tester_cmd;
use ahc_local_tools::run::CaseOutcome;
use ahc_local_tools::run::collect_scores;

fn ok(path: &[u8], score: u64) -> CaseOutcome {
    CaseOutcome { path: path.to_vec(), outcome: Ok(score) }
}

fn failed(path: &[u8], error: CaseError) -> CaseOutcome {
    CaseOutcome { path: path.to_vec(), outcome: Err(error) }
}

#[test]
fn all_successes_pass_the_gate() {
    let outcomes = vec![ok(b"a", 1), ok(b"b", 2), ok(b"c", 3)];
    let scores = collect_scores(&outcomes).expect("no failures");
    assert_eq!(scores.len(), 3);
    assert_eq!(scores[1].path, b"b".to_vec());
    assert_eq!(scores[1].score, 2);
}

#[test]
fn one_spawn_error_fails_the_run_but_no_sibling() {
    // the middle case's judge binary was missing; its siblings still
    // carry their own outcomes
    let outcomes = vec![ok(b"a", 1), failed(b"b", CaseError::Spawn), ok(b"c", 3)];
    assert!(matches!(outcomes[0].outcome, Ok(1)));
    assert!(matches!(outcomes[2].outcome, Ok(3)));
    let failure = collect_scores(&outcomes).expect_err("the run must fail");
    assert_eq!(failure.path, b"b".to_vec());
    assert_eq!(failure.error, CaseError::Spawn);
}

#[test]
fn first_failure_is_the_reported_one() {
    let outcomes = vec![
        ok(b"a", 1),
        failed(b"b", CaseError::ScoreNotFound),
        failed(b"c", CaseError::CaseIo),
    ];
    let failure = collect_scores(&outcomes).expect_err("the run must fail");
    assert_eq!(failure.path, b"b".to_vec());
    assert_eq!(failure.error, CaseError::ScoreNotFound);
}

#[test]
fn empty_run_passes_the_gate_with_no_scores() {
    let outcomes: Vec<CaseOutcome> = Vec::new();
    let scores = collect_scores(&outcomes).expect("nothing failed");
    assert!(scores.is_empty());
}

#[test]
fn command_arguments_put_the_solver_between() {
    let cfg = ExecConfig {
        tester_cmd: "judge".to_string(),
        tester_arg: vec!["--strict".to_string(), "--seed".to_string()],
        solver_cmd: "./solve".to_string(),
        solver_arg: vec!["--fast".to_string()],
    };
    let args = build_command_args(&cfg);
    assert_eq!(args, vec!["--strict", "--seed", "./solve", "--fast"]);
}

#[test]
fn default_commands() {
    assert_eq!(default_tester_cmd(), "./tools/target/release/tester");
    assert_eq!(default_solver_cmd(), "./a.out");
    let cfg = ExecConfig::default();
    assert_eq!(cfg.tester_cmd, "./tools/target/release/tester");
    assert!(cfg.tester_arg.is_empty());
    assert_eq!(cfg.solver_cmd, "./a.out");
    assert!(cfg.solver_arg.is_empty());
}
