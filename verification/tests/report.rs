use crap4rust::metrics::{metric, LineCoverage};
use crap4rust::report::{
    check_metrics, check_report_file, command_result, count_missing, exit_code, ReportFile,
    WaitOutcome,
};
use crap4rust::Error;

fn coverage_message(r: Result<impl std::fmt::Debug, Error>) -> String {
    match r {
        Err(Error::Coverage(m)) => m,
        Err(other) => panic!("unexpected error {:?}", other),
        Ok(v) => panic!("unexpected success {:?}", v),
    }
}

#[test]
fn complete_coverage_is_required_unless_allowed() {
    let mut covered = metric("a".to_string(), "a.rs", 1, 2, 1);
    covered.line_coverage = Some(LineCoverage { covered: 1, relevant: 2 });
    let metrics = vec![
        covered,
        metric("b".to_string(), "a.rs", 3, 4, 1),
        metric("c".to_string(), "a.rs", 5, 6, 1),
    ];
    assert_eq!(count_missing(&metrics), 2);
    assert_eq!(
        coverage_message(check_metrics(&metrics, false, false)),
        "coverage is missing for 2 function(s)"
    );
    assert_eq!(check_metrics(&metrics, false, true).unwrap(), 2);
}

#[test]
fn empty_analysis_is_an_error_unless_allowed() {
    let none = Vec::new();
    assert_eq!(
        coverage_message(check_metrics(&none, false, false)),
        "no Rust functions were discovered"
    );
    assert_eq!(check_metrics(&none, true, false).unwrap(), 0);
}

#[test]
fn missing_count_message_uses_decimal() {
    let metrics: Vec<_> = (0..12).map(|i| metric(format!("f{i}"), "a.rs", i + 1, i + 1, 1)).collect();
    assert_eq!(
        coverage_message(check_metrics(&metrics, false, false)),
        "coverage is missing for 12 function(s)"
    );
}

#[test]
fn coverage_report_must_exist_hold_data_and_be_fresh() {
    assert_eq!(
        coverage_message(check_report_file("/p/lcov.info", &ReportFile::Missing)),
        "coverage report was not created: /p/lcov.info"
    );
    assert_eq!(
        coverage_message(check_report_file("/p/lcov.info", &ReportFile::Written { len: 0, stale: true })),
        "coverage report is empty: /p/lcov.info"
    );
    assert_eq!(
        coverage_message(check_report_file("/p/lcov.info", &ReportFile::Written { len: 9, stale: true })),
        "coverage report is stale: /p/lcov.info"
    );
    assert!(check_report_file("/p/lcov.info", &ReportFile::Written { len: 9, stale: false }).is_ok());
}

#[test]
fn command_outcomes() {
    assert!(command_result(&WaitOutcome::Exited { success: true, code: Some(0) }, "t", 5, 0).is_ok());
    match command_result(&WaitOutcome::Exited { success: false, code: Some(3) }, "cargo test", 5, 0) {
        Err(Error::Command { code, command }) => {
            assert_eq!(code, 3);
            assert_eq!(command, "cargo test");
        }
        _ => panic!("expected a command error"),
    }
    match command_result(&WaitOutcome::Exited { success: false, code: None }, "x", 5, 0) {
        Err(Error::Command { code, .. }) => assert_eq!(code, 1),
        _ => panic!("expected a command error"),
    }
    match command_result(&WaitOutcome::TimedOut, "x", 1800, 7) {
        Err(Error::Timeout { secs, nanos }) => assert_eq!((secs, nanos), (1800, 7)),
        _ => panic!("expected a timeout"),
    }
}

#[test]
fn exit_status_reports_limit_failures() {
    assert_eq!(exit_code(0), 0);
    assert_eq!(exit_code(1), 2);
    assert_eq!(exit_code(40), 2);
}
