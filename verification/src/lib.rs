//! CRAP analysis for Rust: which functions of a project are analysed, their
//! cyclomatic complexity, and how many of their lines an LCOV report shows as
//! executed. The CRAP score itself, which is floating point, is computed by the
//! command-line program from the line coverage given here.
pub mod cfg;
pub mod error;
pub mod lcov;
pub mod metrics;
pub mod order;
pub mod parse;
pub mod patch;
pub mod path;
pub mod report;
pub mod scope;
pub mod sample;
pub mod sources;
pub mod text;

pub use error::Error;
pub use lcov::{coverage_lines, parse_lcov, Coverage};
pub use metrics::{
    apply_coverage, collect_items, extract_metrics, metric, slice_span, sort_by_position,
    FnSource, FunctionMetric, ImplMember, LineCoverage, SourceItem, TraitFn, TraitMember,
};
pub use patch::{insert_before, replace_between, replace_once};
pub use path::{
    generated_roots, is_ignored_name, is_safe_generated, is_test_path, join_path, normalize_path,
    relative_path, resolve,
};
pub use report::{
    check_metrics, check_report_file, command_result, count_missing, exit_code, ReportFile,
    WaitOutcome,
};
pub use sources::{keeps_source_file, select_source_files};
