//! The decisions of a run: whether the coverage report can be used, whether
//! the analysis is complete, how the test command ended, and the exit status.
use vstd::prelude::*;
use crate::error::Error;
use crate::metrics::{metrics_view, FunctionMetric, MetricView};
use crate::text::{decimal, decimal_text};

verus! {

/// The number of functions without line coverage.
pub open spec fn missing_count(v: Seq<MetricView>) -> nat {
    v.filter(|m: MetricView| m.line_coverage is None).len()
}

/// How many of `metrics` have no line coverage.
pub fn count_missing(metrics: &Vec<FunctionMetric>) -> (n: usize)
    ensures
        n == missing_count(metrics_view(metrics@)),
{
    let ghost v = metrics_view(metrics@);
    let ghost pred = |m: MetricView| m.line_coverage is None;
    let mut n: usize = 0;
    let mut i: usize = 0;
    assert(v.take(0) =~= seq![]);
    while i < metrics.len()
        invariant
            i <= metrics.len(),
            v == metrics_view(metrics@),
            pred == (|m: MetricView| m.line_coverage is None),
            n == v.take(i as int).filter(pred).len(),
            n <= i,
        decreases metrics.len() - i,
    {
        assert(v.take(i + 1).drop_last() =~= v.take(i as int));
        assert(v.take(i + 1).last() == metrics@[i as int]@);
        reveal_with_fuel(Seq::<_>::filter, 1);
        if metrics[i].line_coverage.is_none() {
            n = n + 1;
        }
        i = i + 1;
    }
    assert(v.take(metrics.len() as int) =~= v);
    n
}

/// The message for a run in which some functions have no coverage.
pub open spec fn missing_message(missing: nat) -> Seq<char> {
    "coverage is missing for "@ + decimal(missing) + " function(s)"@
}

/// Whether the analysed functions make a complete result: without permission, an
/// empty analysis and functions without coverage are errors. Gives the number of
/// functions without coverage.
pub fn check_metrics(metrics: &Vec<FunctionMetric>, allow_empty: bool, allow_missing_coverage: bool) -> (r:
    Result<usize, Error>)
    ensures
        metrics@.len() == 0 && !allow_empty ==> (r matches Err(Error::Coverage(m))
            && m@ == "no Rust functions were discovered"@),
        !(metrics@.len() == 0 && !allow_empty) && missing_count(metrics_view(metrics@)) > 0
            && !allow_missing_coverage ==> (r matches Err(Error::Coverage(m)) && m@
            == missing_message(missing_count(metrics_view(metrics@)))),
        !(metrics@.len() == 0 && !allow_empty) && !(missing_count(metrics_view(metrics@)) > 0
            && !allow_missing_coverage) ==> r == Ok::<usize, Error>(
            missing_count(metrics_view(metrics@)) as usize,
        ),
{
    if metrics.len() == 0 && !allow_empty {
        return Err(Error::Coverage("no Rust functions were discovered".to_owned()));
    }
    let missing = count_missing(metrics);
    if missing > 0 && !allow_missing_coverage {
        let mut message = "coverage is missing for ".to_owned();
        let number = decimal_text(missing);
        message.append(number.as_str());
        message.append(" function(s)");
        return Err(Error::Coverage(message));
    }
    Ok(missing)
}

/// The state of the coverage report after the test command ran.
pub enum ReportFile {
    /// No report was written.
    Missing,
    /// A report was written, with this many bytes; `stale` when it is older
    /// than the run.
    Written { len: u64, stale: bool },
}

/// Whether the report at `report` (as shown to the user) can be read: it must
/// exist, hold something, and be fresh.
pub fn check_report_file(report: &str, file: &ReportFile) -> (r: Result<(), Error>)
    ensures
        *file matches ReportFile::Missing ==> (r matches Err(Error::Coverage(m)) && m@
            == "coverage report was not created: "@ + report@),
        *file matches ReportFile::Written { len, stale } ==> {
            &&& len == 0 ==> (r matches Err(Error::Coverage(m)) && m@
                == "coverage report is empty: "@ + report@)
            &&& len != 0 && stale ==> (r matches Err(Error::Coverage(m)) && m@
                == "coverage report is stale: "@ + report@)
            &&& len != 0 && !stale ==> r is Ok
        },
{
    match file {
        ReportFile::Missing => {
            let mut m = "coverage report was not created: ".to_owned();
            m.append(report);
            Err(Error::Coverage(m))
        },
        ReportFile::Written { len, stale } => {
            if *len == 0 {
                let mut m = "coverage report is empty: ".to_owned();
                m.append(report);
                Err(Error::Coverage(m))
            } else if *stale {
                let mut m = "coverage report is stale: ".to_owned();
                m.append(report);
                Err(Error::Coverage(m))
            } else {
                Ok(())
            }
        },
    }
}

/// How the test command ended.
pub enum WaitOutcome {
    /// It exited; `code` is its exit code, when it has one.
    Exited { success: bool, code: Option<i32> },
    /// It was still running when the time ran out.
    TimedOut,
}

/// The result of the test command `command`, run with a limit of
/// `secs` seconds and `nanos` nanoseconds: success, a failure with its exit
/// code (1 when it has none), or a timeout.
pub fn command_result(outcome: &WaitOutcome, command: &str, secs: u64, nanos: u32) -> (r: Result<
    (),
    Error,
>)
    ensures
        *outcome matches WaitOutcome::Exited { success, code } ==> {
            &&& success ==> r is Ok
            &&& !success ==> (r matches Err(Error::Command { code: c, command: m }) && m@
                == command@ && c == (match code {
                Some(x) => x,
                None => 1i32,
            }))
        },
        *outcome matches WaitOutcome::TimedOut ==> r == Err::<(), Error>(
            Error::Timeout { secs, nanos },
        ),
{
    match outcome {
        WaitOutcome::Exited { success, code } => {
            if *success {
                Ok(())
            } else {
                let c = match code {
                    Some(x) => *x,
                    None => 1,
                };
                Err(Error::Command { code: c, command: command.to_owned() })
            }
        },
        WaitOutcome::TimedOut => Err(Error::Timeout { secs, nanos }),
    }
}

/// The exit status of a run that completed: 2 when some function is over the
/// CRAP limit, else 0.
pub fn exit_code(over_limit: usize) -> (code: u8)
    ensures
        code == (if over_limit > 0 {
            2u8
        } else {
            0u8
        }),
{
    if over_limit > 0 {
        2
    } else {
        0
    }
}

} // verus!
