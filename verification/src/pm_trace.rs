//! How the tracing program ends, and where its report goes.

use vstd::prelude::*;
use vstd::utf8::encode_utf8;

use crate::path::{parent_of, FilePath};
use crate::perms::monitor::{ChildFailure, TraceReport};

verus! {

/// Traced to completion, whatever the program's own exit code was.
pub const EXIT_OK: u8 = 0;

/// A failure that is none of those below.
pub const EXIT_INTERNAL_FAILURE: u8 = 1;

/// The time was up. The report is still written.
pub const EXIT_TIMED_OUT: u8 = 3;

/// The program could not be executed.
pub const EXIT_EXECVE_FAILED: u8 = 4;

/// Tracing was denied.
pub const EXIT_TRACEME_DENIED: u8 = 5;

/// The child could not finish its own setup before asking to be traced.
pub const EXIT_CHILD_SETUP_FAILED: u8 = 6;

/// This host cannot trace at all.
pub const EXIT_PREFLIGHT_FAILED: u8 = 7;

/// The report could not be written.
pub const EXIT_REPORT_WRITE_FAILED: u8 = 8;

/// The exit code for each way the traced child can die before it runs the program.
pub fn exit_code_for_child_failure(failure: &ChildFailure) -> (r: u8)
    ensures
        r == (match *failure {
            ChildFailure::Execve(_) => EXIT_EXECVE_FAILED,
            ChildFailure::Traceme(_) => EXIT_TRACEME_DENIED,
            ChildFailure::Chdir(_) => EXIT_CHILD_SETUP_FAILED,
            ChildFailure::SetPgid(_) => EXIT_CHILD_SETUP_FAILED,
        }),
        *failure is Execve ==> r == 4,
        *failure is Traceme ==> r == 5,
        *failure is Chdir || *failure is SetPgid ==> r == 6,
{
    match failure {
        ChildFailure::Execve(_) => EXIT_EXECVE_FAILED,
        ChildFailure::Traceme(_) => EXIT_TRACEME_DENIED,
        ChildFailure::Chdir(_) | ChildFailure::SetPgid(_) => EXIT_CHILD_SETUP_FAILED,
    }
}

/// The exit code once the report has been written.
pub fn exit_code_for_report(report: &TraceReport) -> (r: u8)
    ensures
        r == (if report.timed_out {
            EXIT_TIMED_OUT
        } else {
            EXIT_OK
        }),
        report.timed_out ==> r == 3,
        !report.timed_out ==> r == 0,
{
    if report.timed_out() {
        EXIT_TIMED_OUT
    } else {
        EXIT_OK
    }
}

/// The directory the report is put together in: its own, so that moving it into
/// place cannot leave half a report behind.
pub fn report_directory(path: &FilePath) -> (r: FilePath)
    ensures
        r@ == (match parent_of(path@) {
            Some(parent) => if parent.len() > 0 {
                parent
            } else {
                encode_utf8("."@)
            },
            None => encode_utf8("."@),
        }),
{
    match path.parent() {
        Some(parent) => {
            if parent.is_empty() {
                FilePath::from_text(".")
            } else {
                parent
            }
        },
        None => FilePath::from_text("."),
    }
}

} // verus!
