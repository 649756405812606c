use parse_runner::RunStatus;
use parse_runner::fold_verdict;
use parse_runner::run::EngineEvent;
use parse_runner::run::EngineResponse;
use parse_runner::run::conclude_run;
use parse_runner::run::run_outcomes;
use parse_runner::run::summarize;
use parse_runner::stats::RunOutcome;
use parse_runner::stats::RunSummary;

fn completed(has_errors: bool, bytes: u64, duration_micros: Option<u64>) -> EngineResponse {
    EngineResponse::Completed { has_errors, bytes, duration_micros }
}

#[test]
fn engine_reports_classify_into_run_statuses() {
    let ok = conclude_run("a".to_string(), completed(false, 10, Some(3)), false);
    assert_eq!(ok.status, RunStatus::Succeeded);
    assert_eq!(ok.bytes_processed, 10);
    assert_eq!(ok.duration_micros, Some(3));

    let failed = conclude_run("a".to_string(), completed(true, 10, Some(3)), false);
    assert_eq!(failed.status, RunStatus::Failed);

    let timed_out = conclude_run("a".to_string(), EngineResponse::Halted, false);
    assert_eq!(timed_out.status, RunStatus::TimedOut);
    assert_eq!(timed_out.bytes_processed, 0);
    assert_eq!(timed_out.duration_micros, None);

    let cancelled = conclude_run("a".to_string(), EngineResponse::Halted, true);
    assert_eq!(cancelled.status, RunStatus::Cancelled);
}

#[test]
fn slow_engine_times_out_without_aborting_the_run() {
    // Three files under a one-microsecond deadline; the engine halts on the
    // second file before completing, and the flag was never raised, so that
    // halt is a timeout. The files after it still get their runs.
    let paths = vec!["a.c".to_string(), "slow.c".to_string(), "b.c".to_string()];
    let events = vec![
        EngineEvent { response: completed(false, 4, Some(2)), cancelled: false },
        EngineEvent { response: EngineResponse::Halted, cancelled: false },
        EngineEvent { response: completed(false, 6, Some(5)), cancelled: false },
    ];
    let outcomes = run_outcomes(&paths, &events);
    assert_eq!(outcomes.len(), 3);
    assert_eq!(outcomes[0].status, RunStatus::Succeeded);
    assert_eq!(outcomes[1].status, RunStatus::TimedOut);
    assert_eq!(outcomes[1].path, "slow.c".to_string());
    assert_eq!(outcomes[2].status, RunStatus::Succeeded);
    assert_eq!(outcomes[2].path, "b.c".to_string());
}

#[test]
fn two_successes_and_a_timeout_harden_the_verdict() {
    let paths = vec!["a.c".to_string(), "slow.c".to_string(), "b.c".to_string()];
    let events = vec![
        EngineEvent { response: completed(false, 4, Some(2)), cancelled: false },
        EngineEvent { response: EngineResponse::Halted, cancelled: false },
        EngineEvent { response: completed(false, 6, Some(5)), cancelled: false },
    ];
    let outcomes = run_outcomes(&paths, &events);
    let (summary, failure) = summarize(&outcomes);
    assert!(failure);
    assert_eq!(summary.total_runs, 3);
    assert_eq!(summary.successful_runs, 2);
    assert_eq!(summary.total_bytes, 10);
    assert_eq!(summary.total_duration_micros, 7);
}

#[test]
fn stats_accumulate_only_with_a_measured_duration() {
    let mut summary = RunSummary::new();
    summary.record(&RunOutcome {
        path: "a".to_string(),
        status: RunStatus::Succeeded,
        bytes_processed: 100,
        duration_micros: None,
    });
    assert_eq!(summary.total_runs, 1);
    assert_eq!(summary.successful_runs, 1);
    assert_eq!(summary.total_bytes, 0);
    assert_eq!(summary.total_duration_micros, 0);

    summary.record(&RunOutcome {
        path: "b".to_string(),
        status: RunStatus::Failed,
        bytes_processed: 7,
        duration_micros: Some(9),
    });
    assert_eq!(summary.total_runs, 2);
    assert_eq!(summary.successful_runs, 1);
    assert_eq!(summary.total_bytes, 7);
    assert_eq!(summary.total_duration_micros, 9);
}

#[test]
fn counters_hold_the_largest_recordable_run() {
    let mut summary = RunSummary::new();
    summary.record(&RunOutcome {
        path: "big".to_string(),
        status: RunStatus::Succeeded,
        bytes_processed: u64::MAX,
        duration_micros: Some(u64::MAX),
    });
    assert_eq!(summary.total_bytes, u64::MAX);
    assert_eq!(summary.total_duration_micros, u64::MAX);
}

#[test]
fn only_success_leaves_the_verdict_soft() {
    assert!(!fold_verdict(false, RunStatus::Succeeded));
    assert!(fold_verdict(false, RunStatus::Failed));
    assert!(fold_verdict(false, RunStatus::TimedOut));
    assert!(fold_verdict(false, RunStatus::Cancelled));
    assert!(fold_verdict(true, RunStatus::Succeeded));

    let paths = vec!["a".to_string()];
    let events = vec![EngineEvent { response: completed(false, 1, None), cancelled: false }];
    let (_, failure) = summarize(&run_outcomes(&paths, &events));
    assert!(!failure);
}
