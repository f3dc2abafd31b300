//! Watching one real execution.
//!
//! A monitor records what a single run happened to do. A call that failed is
//! observed and grants nothing, and so is a look at a directory's metadata: a grant
//! for a directory stands for everything in it.

use vstd::prelude::*;

use crate::path::{lossy, FilePath};
use crate::perms::{
    accounted_for, added_up, adds_up_to, path_of, Grant, Permission, PermissionView, Permissions,
    Provenance,
};
use crate::report::{said, Report, ReportView};
use crate::text::{decimal, push_decimal, push_signed, signed_decimal, texts};

verus! {

/// How to run the program being traced.
#[derive(Debug)]
pub struct TraceOptions {
    /// Wall-clock budget for the whole traced process group, in milliseconds.
    pub timeout: u64,
    /// Directory to enter before the program starts. `None` inherits ours.
    pub working_dir: Option<FilePath>,
    /// The complete environment for the tracee; it inherits nothing.
    pub env: Vec<(String, String)>,
    /// Trace children too.
    pub follow_forks: bool,
}

impl Default for TraceOptions {
    fn default() -> (r: Self)
        ensures
            r.timeout == 30_000,
            r.working_dir is None,
            r.env@.len() == 0,
            r.follow_forks,
    {
        TraceOptions { timeout: 30_000, working_dir: None, env: Vec::new(), follow_forks: true }
    }
}

/// One syscall the tracee made, decoded into the permission it implies.
#[derive(Debug, PartialEq, Eq)]
pub struct Observation {
    pub pid: i32,
    pub syscall: &'static str,
    pub permission: Permission,
    pub path_resolved: bool,
    pub succeeded: bool,
    pub granting: bool,
}

/// The line that says what a call did.
pub open spec fn evidence_text(o: Observation) -> Seq<char> {
    let subject = match path_of(o.permission@) {
        Some(path) => lossy(path),
        None => "(no path)"@,
    };
    let line = o.syscall@ + " "@ + subject + " (pid "@ + signed_decimal(o.pid as int) + ")"@;
    if o.path_resolved {
        line
    } else {
        line + " [relative, dirfd unresolved - recorded as passed]"@
    }
}

/// The call succeeded and is one that grants what it did.
pub open spec fn is_granting(o: Observation) -> bool {
    o.succeeded && o.granting
}

impl Observation {
    /// The thread that made the call.
    pub fn pid(&self) -> (r: i32)
        ensures
            r == self.pid,
    {
        self.pid
    }

    /// The syscall's name, e.g. `openat`.
    pub fn syscall(&self) -> (r: &'static str)
        ensures
            r == self.syscall,
    {
        self.syscall
    }

    /// The permission this call implies.
    pub fn permission(&self) -> (r: &Permission)
        ensures
            *r == self.permission,
    {
        &self.permission
    }

    /// Whether a relative path was successfully resolved.
    pub fn path_is_resolved(&self) -> (r: bool)
        ensures
            r == self.path_resolved,
    {
        self.path_resolved
    }

    /// Whether the syscall returned success. Failed calls grant nothing.
    pub fn succeeded(&self) -> (r: bool)
        ensures
            r == self.succeeded,
    {
        self.succeeded
    }

    /// Whether this observation contributes a grant.
    pub fn grants(&self) -> (r: bool)
        ensures
            r == is_granting(*self),
            r ==> self.succeeded,
    {
        self.succeeded && self.granting
    }

    /// The evidence line this observation contributes, naming the syscall and the
    /// path.
    pub fn evidence(&self) -> (r: String)
        ensures
            r@ == evidence_text(*self),
    {
        let mut line = self.syscall.to_owned();
        line.push_str(" ");
        match self.permission.path() {
            Some(path) => line.push_str(path.display().as_str()),
            None => line.push_str("(no path)"),
        }
        line.push_str(" (pid ");
        push_signed(&mut line, self.pid);
        line.push_str(")");
        if !self.path_resolved {
            line.push_str(" [relative, dirfd unresolved - recorded as passed]");
        }
        assert(line@ =~= evidence_text(*self));
        line
    }
}

/// What one traced execution did.
#[derive(Debug)]
pub struct TraceReport {
    pub permissions: Permissions,
    pub observations: Vec<Observation>,
    pub timed_out: bool,
    pub exit_status: Option<i32>,
}

impl TraceReport {
    /// The permission set folded out of the successful observations.
    pub fn permissions(&self) -> (r: &Permissions)
        ensures
            *r == self.permissions,
    {
        &self.permissions
    }

    /// Every decoded syscall, in the order it happened, failures included.
    pub fn observations(&self) -> (r: &Vec<Observation>)
        ensures
            *r == self.observations,
    {
        &self.observations
    }

    /// Whether the timeout fired and the traced process group was killed.
    pub fn timed_out(&self) -> (r: bool)
        ensures
            r == self.timed_out,
    {
        self.timed_out
    }

    /// The traced program's exit code, or `None` if it was killed by a signal, timed
    /// out or never got far enough to exit.
    pub fn exit_status(&self) -> (r: Option<i32>)
        ensures
            r == self.exit_status,
    {
        self.exit_status
    }
}

/// The observations that grant something, in order.
pub open spec fn granting_only(observations: Seq<Observation>) -> Seq<Observation>
    decreases observations.len(),
{
    if observations.len() == 0 {
        Seq::empty()
    } else {
        let rest = granting_only(observations.drop_last());
        if is_granting(observations.last()) {
            rest.push(observations.last())
        } else {
            rest
        }
    }
}

/// `g` is the grant that `o` contributes.
pub open spec fn grant_of(o: Observation, g: Grant) -> bool {
    &&& g.wf()
    &&& g.permission@ == o.permission@
    &&& g.provenance@ == seq![Provenance::RuntimeMonitor]
    &&& forall|line: Seq<char>| #[trigger]
        texts(g.evidence@).contains(line) <==> line == evidence_text(o)
}

/// `grants` are the grants that `observations` contribute, one each.
pub open spec fn grants_of(observations: Seq<Observation>, grants: Seq<Grant>) -> bool {
    let granting = granting_only(observations);
    &&& grants.len() == granting.len()
    &&& forall|i: int| 0 <= i < grants.len() ==> grant_of(granting[i], #[trigger] grants[i])
}

/// The profile is what the granting observations add up to, in the order things were
/// first seen.
pub open spec fn profile_matches(observations: Seq<Observation>, permissions: Permissions) -> bool {
    exists|all: Seq<Grant>|
        grants_of(observations, all) && #[trigger] adds_up_to(all, permissions.grants@)
}

/// Build a report from raw observations, folding the successful ones into a profile.
///
/// A run that timed out has no exit status, whatever the program had returned.
pub fn report(observations: Vec<Observation>, timed_out: bool, exit_status: Option<i32>) -> (r:
    TraceReport)
    ensures
        r.observations == observations,
        r.timed_out == timed_out,
        r.exit_status == (if timed_out {
            None
        } else {
            exit_status
        }),
        profile_matches(observations@, r.permissions),
{
    let mut all: Vec<Grant> = Vec::new();
    let mut i: usize = 0;
    assert(observations@.take(0) =~= Seq::<Observation>::empty());
    while i < observations.len()
        invariant
            i <= observations@.len(),
            grants_of(observations@.take(i as int), all@),
        decreases observations@.len() - i,
    {
        let ghost now = observations@.take(i + 1);
        let ghost before = all@;
        assert(now.drop_last() =~= observations@.take(i as int));
        if observations[i].grants() {
            let lines = vec![observations[i].evidence()];
            let grant = Grant::new(
                observations[i].permission.clone(),
                Provenance::RuntimeMonitor,
                lines,
            );
            proof {
                let o = observations@[i as int];
                assert forall|line: Seq<char>| #[trigger] texts(grant.evidence@).contains(line)
                    <==> line == evidence_text(o) by {
                    assert(texts(lines@)[0] == evidence_text(o));
                }
                assert(grant_of(o, grant));
            }
            all.push(grant);
            assert forall|k: int| 0 <= k < all@.len() implies grant_of(
                granting_only(now)[k],
                #[trigger] all@[k],
            ) by {
                if k < before.len() {
                    assert(all@[k] == before[k]);
                }
            }
        }
        i += 1;
    }
    assert(observations@.take(observations@.len() as int) =~= observations@);
    let permissions = Permissions::from_grants(&all);
    assert(grants_of(observations@, all@) && adds_up_to(all@, permissions.grants@));
    let exit_status = if timed_out {
        None
    } else {
        exit_status
    };
    TraceReport { permissions, observations, timed_out, exit_status }
}

proof fn lemma_granting_only(observations: Seq<Observation>, i: int)
    requires
        0 <= i < granting_only(observations).len(),
    ensures
        is_granting(granting_only(observations)[i]),
        observations.contains(granting_only(observations)[i]),
    decreases observations.len(),
{
    let rest = observations.drop_last();
    let all = granting_only(observations);
    if i < granting_only(rest).len() {
        lemma_granting_only(rest, i);
        let k = choose|k: int| 0 <= k < rest.len() && rest[k] == granting_only(rest)[i];
        assert(observations[k] == all[i]);
    } else {
        assert(observations[observations.len() - 1] == all[i]);
    }
}

proof fn lemma_granting_is_kept(observations: Seq<Observation>, k: int) -> (i: int)
    requires
        0 <= k < observations.len(),
        is_granting(observations[k]),
    ensures
        0 <= i < granting_only(observations).len(),
        granting_only(observations)[i] == observations[k],
    decreases observations.len(),
{
    if k == observations.len() - 1 {
        granting_only(observations).len() - 1
    } else {
        lemma_granting_is_kept(observations.drop_last(), k)
    }
}

/// A profile grants nothing that did not happen: each of its permissions was
/// exercised by a call that succeeded.
pub proof fn lemma_profile_was_observed(
    observations: Seq<Observation>,
    permissions: Permissions,
    k: int,
)
    requires
        profile_matches(observations, permissions),
        0 <= k < permissions.grants@.len(),
    ensures
        exists|i: int|
            0 <= i < observations.len() && is_granting(#[trigger] observations[i])
                && observations[i].permission@ == permissions.grants@[k].permission@,
{
    let all = choose|all: Seq<Grant>|
        grants_of(observations, all) && #[trigger] adds_up_to(all, permissions.grants@);
    let p = permissions.grants@[k].permission@;
    assert(added_up(all, permissions.grants@[k]));
    let i = choose|i: int| 0 <= i < all.len() && (#[trigger] all[i]).permission@ == p;
    assert(grant_of(granting_only(observations)[i], all[i]));
    lemma_granting_only(observations, i);
    let j = choose|j: int|
        0 <= j < observations.len() && observations[j] == granting_only(observations)[i];
    assert(is_granting(observations[j]));
}

/// A profile leaves out nothing that happened: what a granting call did is granted,
/// by itself or under something wider.
pub proof fn lemma_observed_is_in_profile(
    observations: Seq<Observation>,
    permissions: Permissions,
    k: int,
)
    requires
        profile_matches(observations, permissions),
        0 <= k < observations.len(),
        is_granting(observations[k]),
    ensures
        accounted_for(permissions.grants@, observations[k].permission@),
{
    let all = choose|all: Seq<Grant>|
        grants_of(observations, all) && #[trigger] adds_up_to(all, permissions.grants@);
    let i = lemma_granting_is_kept(observations, k);
    assert(grant_of(granting_only(observations)[i], all[i]));
    assert(accounted_for(permissions.grants@, all[i].permission@));
}

/// Why the traced child never reached its `execve`, with the error number.
#[derive(Debug, Clone, Copy, PartialEq, Eq, Structural)]
pub enum ChildFailure {
    /// Joining a fresh process group failed.
    SetPgid(i32),
    /// Entering the working directory failed.
    Chdir(i32),
    /// Tracing was refused.
    Traceme(i32),
    /// The program is missing or not executable.
    Execve(i32),
}

/// What a user can do about a denied `ptrace`.
pub const PTRACE_DENIED_HELP: &'static str = "ptrace was denied. Check /proc/sys/kernel/yama/ptrace_scope (0 permits tracing your own processes, a higher value restricts it further) and whether an LSM such as SELinux or AppArmor is blocking PTRACE for this program.";

pub const WIRE_SETPGID: u8 = 1;

pub const WIRE_CHDIR: u8 = 2;

pub const WIRE_TRACEME: u8 = 3;

pub const WIRE_EXECVE: u8 = 4;

/// One byte for the kind of failure and four for the error number.
pub const WIRE_LEN: usize = 5;

/// The name and the meaning of an error number.
pub uninterp spec fn errno_text(errno: i32) -> Seq<char>;

/// `nix::errno::Errno::from_raw` and its `Display`: the name and the meaning of an
/// error number, out of a fixed table.
#[verifier::external_body]
fn describe_errno(errno: i32) -> (text: String)
    ensures
        text@ == errno_text(errno),
{
    nix::errno::Errno::from_raw(errno).to_string()
}

/// A signed number in two's complement, as a number of 32 bits.
pub open spec fn as_bits(n: i32) -> nat {
    if n < 0 {
        (n + 0x1_0000_0000) as nat
    } else {
        n as nat
    }
}

/// `n` as four bytes, the least significant first.
pub open spec fn little_endian(n: nat) -> Seq<u8> {
    seq![
        (n % 0x100) as u8,
        ((n / 0x100) % 0x100) as u8,
        ((n / 0x1_0000) % 0x100) as u8,
        ((n / 0x100_0000) % 0x100) as u8,
    ]
}

/// The kind of a failure, as a byte.
pub open spec fn failure_kind(f: ChildFailure) -> u8 {
    match f {
        ChildFailure::SetPgid(_) => WIRE_SETPGID,
        ChildFailure::Chdir(_) => WIRE_CHDIR,
        ChildFailure::Traceme(_) => WIRE_TRACEME,
        ChildFailure::Execve(_) => WIRE_EXECVE,
    }
}

/// The error number of a failure.
pub open spec fn failure_errno(f: ChildFailure) -> i32 {
    match f {
        ChildFailure::SetPgid(errno) => errno,
        ChildFailure::Chdir(errno) => errno,
        ChildFailure::Traceme(errno) => errno,
        ChildFailure::Execve(errno) => errno,
    }
}

/// A failure on the wire.
pub open spec fn failure_message(f: ChildFailure) -> Seq<u8> {
    seq![failure_kind(f)] + little_endian(as_bits(failure_errno(f)))
}

/// The failure that a kind and an error number name.
pub open spec fn failure_from(kind: u8, errno: i32) -> Option<ChildFailure> {
    if kind == WIRE_SETPGID {
        Some(ChildFailure::SetPgid(errno))
    } else if kind == WIRE_CHDIR {
        Some(ChildFailure::Chdir(errno))
    } else if kind == WIRE_TRACEME {
        Some(ChildFailure::Traceme(errno))
    } else if kind == WIRE_EXECVE {
        Some(ChildFailure::Execve(errno))
    } else {
        None
    }
}

/// What a failure says.
pub open spec fn failure_text(f: ChildFailure) -> Seq<char> {
    match f {
        ChildFailure::SetPgid(errno) => "the traced child could not join its own process group: "@
            + errno_text(errno),
        ChildFailure::Chdir(errno) =>
            "the traced child could not chdir into its working directory: "@ + errno_text(errno),
        ChildFailure::Traceme(errno) => "ptrace::traceme() was refused: "@ + errno_text(errno),
        ChildFailure::Execve(errno) => "the traced program could not be executed: "@ + errno_text(
            errno,
        ),
    }
}

impl ChildFailure {
    /// The failure that a kind and an error number name, if the kind is one there is.
    pub fn from_wire(kind: u8, errno: i32) -> (r: Option<ChildFailure>)
        ensures
            r == failure_from(kind, errno),
    {
        if kind == WIRE_SETPGID {
            Some(ChildFailure::SetPgid(errno))
        } else if kind == WIRE_CHDIR {
            Some(ChildFailure::Chdir(errno))
        } else if kind == WIRE_TRACEME {
            Some(ChildFailure::Traceme(errno))
        } else if kind == WIRE_EXECVE {
            Some(ChildFailure::Execve(errno))
        } else {
            None
        }
    }

    /// This failure on the wire.
    pub fn to_wire(&self) -> (r: [u8; 5])
        ensures
            r@ == failure_message(*self),
    {
        let (kind, errno): (u8, i32) = match self {
            ChildFailure::SetPgid(errno) => (WIRE_SETPGID, *errno),
            ChildFailure::Chdir(errno) => (WIRE_CHDIR, *errno),
            ChildFailure::Traceme(errno) => (WIRE_TRACEME, *errno),
            ChildFailure::Execve(errno) => (WIRE_EXECVE, *errno),
        };
        let bits: u32 = if errno < 0 {
            (errno as i64 + 0x1_0000_0000) as u32
        } else {
            errno as u32
        };
        let r = [
            kind,
            (bits % 0x100) as u8,
            ((bits / 0x100) % 0x100) as u8,
            ((bits / 0x1_0000) % 0x100) as u8,
            ((bits / 0x100_0000) % 0x100) as u8,
        ];
        assert(r@ =~= failure_message(*self));
        r
    }

    /// What this failure says.
    pub fn message(&self) -> (r: String)
        ensures
            r@ == failure_text(*self),
    {
        let (mut text, errno): (String, i32) = match self {
            ChildFailure::SetPgid(errno) => (
                "the traced child could not join its own process group: ".to_owned(),
                *errno,
            ),
            ChildFailure::Chdir(errno) => (
                "the traced child could not chdir into its working directory: ".to_owned(),
                *errno,
            ),
            ChildFailure::Traceme(errno) => ("ptrace::traceme() was refused: ".to_owned(), *errno),
            ChildFailure::Execve(errno) => (
                "the traced program could not be executed: ".to_owned(),
                *errno,
            ),
        };
        text.push_str(describe_errno(errno).as_str());
        text
    }

    /// What a user can do about it: only a denied `ptrace` is something to go and
    /// change on the host.
    pub fn help(&self) -> (r: Option<&'static str>)
        ensures
            r is Some <==> self is Traceme,
            r is Some ==> r->0 == PTRACE_DENIED_HELP,
    {
        match self {
            ChildFailure::Traceme(_) => Some(PTRACE_DENIED_HELP),
            _ => None,
        }
    }
}

/// What is left in the child-failure pipe is a failure, nothing at all, or something
/// a child never writes. A failure is as long as it is: what follows it is not looked
/// at.
pub open spec fn failure_in(message: Seq<u8>) -> Result<Option<ChildFailure>, ReportView> {
    if message.len() == 0 {
        Ok(None)
    } else if message.len() >= WIRE_LEN {
        match failure_from(message[0], errno_in(message)) {
            Some(f) => Ok(Some(f)),
            None => Err(
                said(
                    "the child-failure pipe named an unknown failure kind "@ + decimal(
                        message[0] as nat,
                    ),
                ),
            ),
        }
    } else {
        Err(
            said(
                "the child-failure pipe delivered "@ + decimal(message.len()) + " of "@ + decimal(
                    WIRE_LEN as nat,
                ) + " expected bytes"@,
            ),
        )
    }
}

/// The error number in a message.
pub open spec fn errno_in(message: Seq<u8>) -> i32 {
    let bits = message[1] + message[2] * 0x100 + message[3] * 0x1_0000 + message[4] * 0x100_0000;
    if bits < 0x8000_0000 {
        bits as i32
    } else {
        (bits - 0x1_0000_0000) as i32
    }
}

/// The views of a result.
pub open spec fn failure_result(r: Result<Option<ChildFailure>, Report>) -> Result<
    Option<ChildFailure>,
    ReportView,
> {
    match r {
        Ok(f) => Ok(f),
        Err(report) => Err(report@),
    }
}

/// Read what was left in the child-failure pipe once the tracee has exited.
///
/// Nothing at all means that the program was started. Less than a whole message, or
/// one of an unknown kind, is an error rather than a clean run.
pub fn read_child_failure(message: &Vec<u8>) -> (r: Result<Option<ChildFailure>, Report>)
    ensures
        failure_result(r) == failure_in(message@),
{
    if message.len() == 0 {
        return Ok(None);
    }
    if message.len() >= WIRE_LEN {
        let bits: u32 = message[1] as u32 + message[2] as u32 * 0x100 + message[3] as u32 * 0x1_0000
            + message[4] as u32 * 0x100_0000;
        let errno: i32 = if bits < 0x8000_0000 {
            bits as i32
        } else {
            (bits as i64 - 0x1_0000_0000) as i32
        };
        return match ChildFailure::from_wire(message[0], errno) {
            Some(failure) => Ok(Some(failure)),
            None => {
                let mut text = "the child-failure pipe named an unknown failure kind ".to_owned();
                push_decimal(&mut text, message[0] as u64);
                Err(Report::new(text))
            },
        };
    }
    let mut text = "the child-failure pipe delivered ".to_owned();
    push_decimal(&mut text, message.len() as u64);
    text.push_str(" of ");
    push_decimal(&mut text, WIRE_LEN as u64);
    text.push_str(" expected bytes");
    Err(Report::new(text))
}

/// What a child reports of its failure is what its parent reads, whatever follows it.
pub proof fn lemma_failure_crosses_the_pipe(f: ChildFailure, rest: Seq<u8>)
    ensures
        failure_in(failure_message(f) + rest) == Ok::<_, ReportView>(Some(f)),
{
    let message = failure_message(f) + rest;
    let n = as_bits(failure_errno(f));
    assert(failure_message(f).len() == 5);
    assert(message[0] == failure_kind(f));
    assert(message[1] == (n % 0x100) as u8);
    assert(message[2] == ((n / 0x100) % 0x100) as u8);
    assert(message[3] == ((n / 0x1_0000) % 0x100) as u8);
    assert(message[4] == ((n / 0x100_0000) % 0x100) as u8);
    assert(message[1] + message[2] * 0x100 + message[3] * 0x1_0000 + message[4] * 0x100_0000 == n);
}

/// Whether a host can trace at all, going by what became of a probe that asked to be
/// traced and then started a program: only a stop proves it. `status` is how the
/// probe's status reads.
pub fn preflight_verdict(stopped: bool, status: &str) -> (r: Result<(), Report>)
    ensures
        r is Ok <==> stopped,
        r is Err ==> r->Err_0@ == (ReportView {
            help: Some(PTRACE_DENIED_HELP@),
            ..said(
                "ptrace preflight failed: the probe never reached a traced stop ("@ + status@
                    + ")"@,
            )
        }),
{
    if stopped {
        return Ok(());
    }
    let mut message = "ptrace preflight failed: the probe never reached a traced stop (".to_owned();
    message.push_str(status);
    message.push_str(")");
    let report = Report::new(message);
    Err(
        Report {
            code: report.code,
            message: report.message,
            help: Some(PTRACE_DENIED_HELP.to_owned()),
            causes: report.causes,
        },
    )
}

/// What is said on a machine whose system calls are not known.
pub fn unsupported_architecture(arch: &str) -> (r: Report)
    ensures
        r@ == (ReportView {
            help: Some(
                "run the runtime monitor on an x86_64 host, or extend the syscall table in src/perms/monitor.rs for this architecture"@,
            ),
            ..said(
                "the ptrace runtime monitor is implemented for x86_64 only (this is "@ + arch@
                    + ")"@,
            )
        }),
{
    let mut message = "the ptrace runtime monitor is implemented for x86_64 only (this is ".to_owned();
    message.push_str(arch);
    message.push_str(")");
    let report = Report::new(message);
    Report {
        code: report.code,
        message: report.message,
        help: Some(
            "run the runtime monitor on an x86_64 host, or extend the syscall table in src/perms/monitor.rs for this architecture".to_owned(),
        ),
        causes: report.causes,
    }
}

/// Of what was observed, exactly what succeeded and grants something counts, in order.
/// `p` says which observations those are.
pub proof fn lemma_what_counts(observations: Seq<Observation>) -> (p: Seq<int>)
    ensures
        p.len() == granting_only(observations).len(),
        forall|a: int|
            0 <= a < p.len() ==> 0 <= #[trigger] p[a] < observations.len() && granting_only(
                observations,
            )[a] == observations[p[a]] && observations[p[a]].succeeded
                && observations[p[a]].granting,
        forall|a: int, b: int| 0 <= a < b < p.len() ==> #[trigger] p[a] < #[trigger] p[b],
        forall|i: int|
            0 <= i < observations.len() && (#[trigger] observations[i]).succeeded
                && observations[i].granting ==> p.contains(i),
    decreases observations.len(),
{
    if observations.len() == 0 {
        Seq::empty()
    } else {
        let rest = observations.drop_last();
        let q = lemma_what_counts(rest);
        let n = observations.len() - 1;
        assert(observations[n] == observations.last());
        let p = if is_granting(observations.last()) {
            q.push(n)
        } else {
            q
        };
        assert forall|i: int|
            0 <= i < observations.len() && (#[trigger] observations[i]).succeeded
                && observations[i].granting implies p.contains(i) by {
            if i < n {
                assert(rest[i] == observations[i]);
                let a = choose|a: int| 0 <= a < q.len() && q[a] == i;
                assert(p[a] == i);
            } else {
                assert(p[p.len() - 1] == i);
            }
        }
        assert forall|a: int| 0 <= a < p.len() implies 0 <= #[trigger] p[a] < observations.len()
            && granting_only(observations)[a] == observations[p[a]]
            && observations[p[a]].succeeded && observations[p[a]].granting by {
            if a < q.len() {
                assert(p[a] == q[a]);
                assert(rest[q[a]] == observations[q[a]]);
                assert(granting_only(observations)[a] == granting_only(rest)[a]);
            }
        }
        p
    }
}

/// The line that shows a call names the call, the path it was about, if any, and the
/// thread; and says so where the path is only what was passed.
pub proof fn lemma_what_evidence_says(o: Observation)
    ensures
        ({
            let thread = " (pid "@ + signed_decimal(o.pid as int) + ")"@;
            let unresolved = " [relative, dirfd unresolved - recorded as passed]"@;
            let (named, path) = match o.permission {
                Permission::ReadPath(p) => (true, p@),
                Permission::WritePath(p) => (true, p@),
                Permission::ExecPath(p) => (true, p@),
                Permission::Network => (false, Seq::empty()),
                Permission::Spawn => (false, Seq::empty()),
            };
            &&& named && o.path_resolved ==> evidence_text(o) == o.syscall@ + " "@ + lossy(path)
                + thread
            &&& named && !o.path_resolved ==> evidence_text(o) == o.syscall@ + " "@ + lossy(path)
                + thread + unresolved
            &&& !named && o.path_resolved ==> evidence_text(o) == o.syscall@ + " (no path)"@
                + thread
            &&& !named && !o.path_resolved ==> evidence_text(o) == o.syscall@ + " (no path)"@
                + thread + unresolved
        }),
{
    let thread = " (pid "@ + signed_decimal(o.pid as int) + ")"@;
    let unresolved = " [relative, dirfd unresolved - recorded as passed]"@;
    reveal_strlit(" ");
    reveal_strlit("(no path)");
    reveal_strlit(" (no path)");
    assert(" "@ + "(no path)"@ =~= " (no path)"@);
    match path_of(o.permission@) {
        Some(path) => {
            let line = o.syscall@ + " "@ + lossy(path) + thread;
            assert(o.syscall@ + " "@ + lossy(path) + " (pid "@ + signed_decimal(o.pid as int)
                + ")"@ =~= line);
        },
        None => {
            let line = o.syscall@ + " (no path)"@ + thread;
            assert(o.syscall@ + " "@ + "(no path)"@ + " (pid "@ + signed_decimal(o.pid as int)
                + ")"@ =~= line);
        },
    }
}

/// A failure is five bytes: which of the four it is, as a number from one up in the order
/// in which a child goes through them, and the error number, least significant byte first.
pub proof fn lemma_failures_on_the_wire(f: ChildFailure)
    ensures
        failure_message(f).len() == 5,
        f is SetPgid ==> failure_message(f)[0] == 1,
        f is Chdir ==> failure_message(f)[0] == 2,
        f is Traceme ==> failure_message(f)[0] == 3,
        f is Execve ==> failure_message(f)[0] == 4,
        ({
            let m = failure_message(f);
            let bits = m[1] + m[2] * 0x100 + m[3] * 0x1_0000 + m[4] * 0x100_0000;
            let errno = match f {
                ChildFailure::SetPgid(errno) => errno,
                ChildFailure::Chdir(errno) => errno,
                ChildFailure::Traceme(errno) => errno,
                ChildFailure::Execve(errno) => errno,
            };
            bits == errno || bits == errno + 0x1_0000_0000
        }),
{
    let m = failure_message(f);
    let n = as_bits(failure_errno(f));
    assert(m.len() == 5 && m[0] == failure_kind(f));
    assert(m[1] == (n % 0x100) as u8);
    assert(m[2] == ((n / 0x100) % 0x100) as u8);
    assert(m[3] == ((n / 0x1_0000) % 0x100) as u8);
    assert(m[4] == ((n / 0x100_0000) % 0x100) as u8);
    assert(m[1] + m[2] * 0x100 + m[3] * 0x1_0000 + m[4] * 0x100_0000 == n) by {
        assert(n < 0x1_0000_0000);
        assert(n % 0x100 + (n / 0x100) % 0x100 * 0x100 + (n / 0x1_0000) % 0x100 * 0x1_0000 + (n
            / 0x100_0000) % 0x100 * 0x100_0000 == n);
    }
}

/// A message is read as the failure that it is: its first byte says which, the next four
/// the error number. Nothing at all is no failure; anything else is refused.
pub proof fn lemma_reading_failures(m: Seq<u8>)
    ensures
        m.len() == 0 ==> failure_in(m) == Ok::<Option<ChildFailure>, ReportView>(None),
        0 < m.len() < 5 ==> failure_in(m) == Err::<Option<ChildFailure>, _>(
            said(
                "the child-failure pipe delivered "@ + decimal(m.len()) + " of "@ + decimal(5)
                    + " expected bytes"@,
            ),
        ),
        m.len() >= 5 && (m[0] == 0 || m[0] > 4) ==> failure_in(m) == Err::<
            Option<ChildFailure>,
            _,
        >(said("the child-failure pipe named an unknown failure kind "@ + decimal(m[0] as nat))),
        m.len() >= 5 && 1 <= m[0] <= 4 ==> failure_in(m) is Ok && failure_in(m)->Ok_0 is Some && {
            let bits = m[1] + m[2] * 0x100 + m[3] * 0x1_0000 + m[4] * 0x100_0000;
            let (kind, errno) = match failure_in(m)->Ok_0->0 {
                ChildFailure::SetPgid(errno) => (1int, errno),
                ChildFailure::Chdir(errno) => (2int, errno),
                ChildFailure::Traceme(errno) => (3int, errno),
                ChildFailure::Execve(errno) => (4int, errno),
            };
            &&& kind == m[0]
            &&& bits == errno || bits == errno + 0x1_0000_0000
        },
{
}

/// What a failure says: which step it was, and what the error number means.
pub proof fn lemma_what_failures_say(errno: i32)
    ensures
        failure_text(ChildFailure::SetPgid(errno))
            == "the traced child could not join its own process group: "@ + errno_text(errno),
        failure_text(ChildFailure::Chdir(errno))
            == "the traced child could not chdir into its working directory: "@ + errno_text(errno),
        failure_text(ChildFailure::Traceme(errno)) == "ptrace::traceme() was refused: "@
            + errno_text(errno),
        failure_text(ChildFailure::Execve(errno)) == "the traced program could not be executed: "@
            + errno_text(errno),
{
}

/// Everything in a profile was seen: each of its grants is known from watching, and from
/// nothing else. It shows the line of every call that counts and that it permits.
pub proof fn lemma_profile_is_known_from_watching(
    observations: Seq<Observation>,
    permissions: Permissions,
    k: int,
    i: int,
)
    requires
        profile_matches(observations, permissions),
        0 <= k < permissions.grants@.len(),
    ensures
        forall|origin: Provenance| #[trigger]
            permissions.grants@[k].provenance@.contains(origin) <==> origin
                == Provenance::RuntimeMonitor,
        0 <= i < observations.len() && observations[i].succeeded && observations[i].granting
            && crate::perms::permits(
            permissions.grants@[k].permission@,
            observations[i].permission@,
        ) ==> texts(permissions.grants@[k].evidence@).contains(evidence_text(observations[i])),
{
    let all = choose|all: Seq<Grant>|
        grants_of(observations, all) && #[trigger] adds_up_to(all, permissions.grants@);
    let grants = permissions.grants@;
    let p = crate::perms::lemma_what_a_profile_holds(all, grants);
    assert forall|origin: Provenance| #[trigger] grants[k].provenance@.contains(origin)
        <==> origin == Provenance::RuntimeMonitor by {
        if grants[k].provenance@.contains(origin) {
            let j = choose|j: int|
                0 <= j < all.len() && crate::perms::permits(
                    grants[k].permission@,
                    (#[trigger] all[j]).permission@,
                ) && all[j].provenance@.contains(origin);
            assert(grant_of(granting_only(observations)[j], all[j]));
        }
        let j = p[k];
        assert(grant_of(granting_only(observations)[j], all[j]));
        crate::perms::lemma_standing_for_is_permitting(grants[k].permission@, all[j].permission@);
        assert(all[j].provenance@[0] == Provenance::RuntimeMonitor);
        assert(all[j].provenance@.contains(Provenance::RuntimeMonitor));
        assert(crate::perms::permits(grants[k].permission@, all[j].permission@));
    }
    if 0 <= i < observations.len() && observations[i].succeeded && observations[i].granting
        && crate::perms::permits(grants[k].permission@, observations[i].permission@) {
        let j = lemma_granting_is_kept(observations, i);
        assert(grant_of(granting_only(observations)[j], all[j]));
        let line = evidence_text(observations[i]);
        assert(texts(all[j].evidence@).contains(line));
        crate::perms::lemma_lines_of_a_profile(all, grants, k, j, line);
    }
}

/// A line of a profile shows a call that was seen, `i`: one that counts and is permitted by
/// the grant that has the line. It is the call's own line, or it says that what the call
/// did is covered.
pub proof fn lemma_lines_show_what_was_seen(
    observations: Seq<Observation>,
    permissions: Permissions,
    k: int,
    line: Seq<char>,
) -> (i: int)
    requires
        profile_matches(observations, permissions),
        0 <= k < permissions.grants@.len(),
        texts(permissions.grants@[k].evidence@).contains(line),
    ensures
        0 <= i < observations.len(),
        observations[i].succeeded,
        observations[i].granting,
        crate::perms::permits(permissions.grants@[k].permission@, observations[i].permission@),
        line == evidence_text(observations[i]) || (match observations[i].permission@ {
            PermissionView::ReadPath(path) => line == "covers "@ + lossy(path),
            PermissionView::WritePath(path) => line == "covers "@ + lossy(path),
            PermissionView::ExecPath(path) => line == "covers "@ + lossy(path),
            _ => false,
        }),
{
    let all = choose|all: Seq<Grant>|
        grants_of(observations, all) && #[trigger] adds_up_to(all, permissions.grants@);
    let j = crate::perms::lemma_lines_come_from_somewhere(all, permissions.grants@, k, line);
    assert(grant_of(granting_only(observations)[j], all[j]));
    let p = lemma_what_counts(observations);
    let i = p[j];
    assert(granting_only(observations)[j] == observations[i]);
    i
}

} // verus!
