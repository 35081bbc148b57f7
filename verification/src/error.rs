//! The errors of the analyzer.
use vstd::prelude::*;

verus! {

/// What can go wrong while analysing a project.
#[derive(Debug)]
pub enum Error {
    /// A file could not be read or written; the text is the system's message.
    Io(String),
    /// A Rust source did not parse.
    Parse { path: String, message: String },
    /// The coverage report is missing, unreadable, empty or incomplete.
    Coverage(String),
    /// The test command ran longer than allowed.
    Timeout { secs: u64, nanos: u32 },
    /// The test command failed with this exit code.
    Command { code: i32, command: String },
}

} // verus!
