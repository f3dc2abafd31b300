//! Method arguments and replies, as plain values.

use vstd::prelude::*;

verus! {

/// The paths and identity a client's request carries into the daemon.
#[derive(Debug, PartialEq, Eq)]
pub struct CallerContext {
    /// The client's working directory, for build files given as relative paths.
    pub cwd: String,
    /// Where built archives are written.
    pub output_dir: String,
    /// Where trusted signing keys are read from.
    pub trust_dir: String,
    /// The client's search path.
    pub path: String,
    /// The client's home directory.
    pub home: String,
}

/// A build failure, flattened for a client with no shared address space.
#[derive(Debug, PartialEq, Eq)]
pub struct Diagnostic {
    /// A short diagnostic code, e.g. one of the `org.pm1.Error.*` constants.
    pub name: String,
    /// The top-level failure message.
    pub message: String,
    /// A hint for the user, empty when the underlying error offered none.
    pub help: String,
    /// The error's source chain, outermost first, not counting `message` itself.
    pub causes: Vec<String>,
}

/// One line of a [`crate::progress::Progress`] tree, flattened for polling.
#[derive(Debug, PartialEq, Eq)]
pub struct ProgressNode {
    /// This node's id, starting at 1: 0 is reserved for "no parent".
    pub id: u32,
    /// The id of the node this one is nested under, or 0 for a top-level node.
    pub parent: u32,
    /// How many levels of nesting this node sits under its top-level ancestor.
    pub depth: u32,
    /// What the node is doing, e.g. a package or command name.
    pub label: String,
    /// 0 = silent (nothing reported yet), 1 = message, 2 = a byte transfer.
    pub kind: u8,
    /// The last message reported, for `kind == 1`. Empty otherwise.
    pub text: String,
    /// Bytes transferred so far, for `kind == 2`. 0 otherwise.
    pub done: u64,
    /// The declared size of the transfer, for `kind == 2`. 0 means unknown.
    pub total: u64,
    /// When this node was opened, in microseconds of wall-clock time.
    pub started_usec: u64,
}

/// One line of build output, or a log record, for a client watching a job live.
#[derive(Debug, PartialEq, Eq)]
pub struct LogLine {
    /// Monotonically increasing within one job.
    pub seq: u64,
    /// 0 = stdout, 1 = stderr, 2 = a log record.
    pub stream: u8,
    /// The line's text.
    pub text: String,
}

/// One row of a job listing.
#[derive(Debug, PartialEq, Eq)]
pub struct JobRow {
    /// The object path this job is reachable at.
    pub path: String,
    /// The job's own identifier, independent of its object path.
    pub id: String,
    /// What kind of job this is, e.g. "build" or "run".
    pub kind: String,
    /// The job's current state, e.g. "running", "done" or "failed".
    pub state: String,
    /// What the job is building or running, e.g. a package name.
    pub subject: String,
    /// When the job started, in microseconds of wall-clock time.
    pub created_usec: i64,
    /// When the job finished, 0 while it is still running.
    pub finished_usec: i64,
    /// The job's exit code. Meaningless (0) while the job is still running.
    pub exit_code: i32,
}

/// One traced syscall, flattened.
#[derive(Debug, PartialEq, Eq)]
pub struct Observation {
    /// The syscall's name, e.g. `openat`.
    pub syscall: String,
    /// The thread that made the call.
    pub pid: i32,
    /// The kind of permission this call implies, e.g. `read` or `network`.
    pub permission: String,
    /// A short, stable label for `permission`, safe to match on.
    pub label: String,
    /// The path this call names, or empty for a pathless permission.
    pub path: String,
    /// Whether a relative path was successfully resolved against its `dirfd`.
    pub resolved: bool,
    /// Whether the syscall returned success.
    pub succeeded: bool,
    /// A human-readable justification, e.g. a locator plus a reason.
    pub evidence: String,
}

/// The result of building one package.
#[derive(Debug, PartialEq, Eq)]
pub struct PackageOutcome {
    /// The package's name.
    pub name: String,
    /// What happened, e.g. "built", "failed" or "skipped".
    pub outcome: String,
    /// The path to the produced archive, empty when none was produced.
    pub archive: String,
    /// Why the package failed, empty on success.
    pub error: String,
}

} // verus!
