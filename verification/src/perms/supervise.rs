//! The steps of the tracer.
//!
//! A [`Supervisor`] keeps what is known of every process being traced. It is told
//! what a wait brought and says what to do next; reading registers and memory,
//! letting a process run on and killing it is left to whoever drives it.

use vstd::prelude::*;

use crate::path::{is_absolute, FilePath};
use crate::perms::monitor::{
    failure_in, profile_matches, read_child_failure, report, ChildFailure,
    Observation, TraceReport,
};
use crate::perms::x86_64::{
    decode, decoded, is_errno, is_error, lemma_entries_are_in_registers,
    lemma_paths_are_told_truly, lookup, observation_views, path_args_of, path_told_truly, paths_wf,
    syscall_entry, Entry, ObservationView, Reads, ReadsView,
};
use crate::perms::{Permission, PermissionView};
use crate::report::{said, Report};

verus! {

pub const SIGTRAP: i32 = 5;

pub const SIGSTOP: i32 = 19;

/// What is known of one traced process.
#[derive(Debug)]
pub struct Tracee {
    pub pid: i32,
    /// Whether the last stop was the start of a call, so that the next one should be
    /// its end.
    pub in_syscall: bool,
    /// What the call under way implies, waiting for its end to say if it counts.
    pub pending: Vec<Observation>,
    /// Whether that call replaces the program, which has no end of its own.
    pub pending_is_exec: bool,
}

/// What a [`Tracee`] says.
pub struct TraceeView {
    pub pid: i32,
    pub in_syscall: bool,
    pub pending: Seq<ObservationView>,
    pub pending_is_exec: bool,
}

impl View for Tracee {
    type V = TraceeView;

    open spec fn view(&self) -> TraceeView {
        TraceeView {
            pid: self.pid,
            in_syscall: self.in_syscall,
            pending: observation_views(self.pending@),
            pending_is_exec: self.pending_is_exec,
        }
    }
}

/// What each process of a list says.
pub open spec fn tracee_views(list: Seq<Tracee>) -> Seq<TraceeView> {
    list.map_values(|t: Tracee| t@)
}

/// A process that has just joined: it is not in the middle of a call.
pub open spec fn fresh(pid: i32) -> TraceeView {
    TraceeView { pid, in_syscall: false, pending: Seq::empty(), pending_is_exec: false }
}

/// Where a process is in a list, or past the end.
pub open spec fn place_of(list: Seq<TraceeView>, pid: i32) -> int
    decreases list.len(),
{
    if list.len() == 0 || list[0].pid == pid {
        0
    } else {
        1 + place_of(list.skip(1), pid)
    }
}

/// Some process of the list is `pid`.
pub open spec fn is_known(list: Seq<TraceeView>, pid: i32) -> bool {
    place_of(list, pid) < list.len()
}

/// The list with `pid` in it.
pub open spec fn joined_by(list: Seq<TraceeView>, pid: i32) -> Seq<TraceeView> {
    if is_known(list, pid) {
        list
    } else {
        list.push(fresh(pid))
    }
}

/// The list without `pid`.
pub open spec fn left_by(list: Seq<TraceeView>, pid: i32) -> Seq<TraceeView> {
    if is_known(list, pid) {
        list.remove(place_of(list, pid))
    } else {
        list
    }
}

/// Observations that are judged: whether the call succeeded is known now.
pub open spec fn judged(list: Seq<ObservationView>, succeeded: bool) -> Seq<ObservationView> {
    list.map_values(|o: ObservationView| ObservationView { succeeded, ..o })
}

/// What a wait brought.
#[derive(Debug, Clone, Copy, PartialEq, Eq, Structural)]
pub enum Event {
    /// Nothing yet.
    StillAlive,
    Exited {
        pid: i32,
        code: i32,
    },
    /// Killed by a signal.
    Signaled {
        pid: i32,
    },
    /// Stopped at one end of a call.
    Syscall {
        pid: i32,
    },
    /// A new child is about to join.
    Forked {
        pid: i32,
    },
    /// Stopped by a signal.
    Stopped {
        pid: i32,
        signal: i32,
    },
    Continued,
    /// The time is up.
    Timeout,
    /// There is nobody left to wait for.
    NoChildren,
}

/// What to do next.
#[derive(Debug, Clone, Copy, PartialEq, Eq, Structural)]
pub enum Action {
    /// Sleep a little, and wait again.
    Sleep,
    /// Wait again.
    Wait,
    /// Let a process run on, with the signal that stopped it or without.
    Resume {
        pid: i32,
        signal: Option<i32>,
    },
    /// Look at the registers of a process.
    Inspect {
        pid: i32,
    },
    /// Kill everything that is traced, and stop.
    KillAll,
    /// Stop.
    Finish,
}

/// What is known of the processes being traced, and what they were seen doing.
#[derive(Debug)]
pub struct Supervisor {
    pub root: i32,
    pub tracees: Vec<Tracee>,
    pub observations: Vec<Observation>,
    pub exit_status: Option<i32>,
    pub timed_out: bool,
}

/// What a [`Supervisor`] knows.
pub struct SupervisorView {
    pub root: i32,
    pub tracees: Seq<TraceeView>,
    pub observations: Seq<ObservationView>,
    pub exit_status: Option<i32>,
    pub timed_out: bool,
}

impl View for Supervisor {
    type V = SupervisorView;

    open spec fn view(&self) -> SupervisorView {
        SupervisorView {
            root: self.root,
            tracees: tracee_views(self.tracees@),
            observations: observation_views(self.observations@),
            exit_status: self.exit_status,
            timed_out: self.timed_out,
        }
    }
}

/// Process number `at` ends its call: what it implied is judged and recorded.
pub open spec fn call_ended(v: SupervisorView, at: int, succeeded: bool) -> SupervisorView {
    let t = v.tracees[at];
    SupervisorView {
        observations: v.observations + judged(t.pending, succeeded),
        tracees: v.tracees.update(
            at,
            TraceeView {
                in_syscall: false,
                pending: Seq::empty(),
                pending_is_exec: false,
                ..t
            },
        ),
        ..v
    }
}

/// Process number `at` starts a call. What is pending still can only be a call that
/// replaced the program, and getting this far proves that it did.
pub open spec fn call_started(v: SupervisorView, at: int) -> SupervisorView {
    let t = v.tracees[at];
    SupervisorView {
        observations: if t.pending_is_exec {
            v.observations + judged(t.pending, true)
        } else {
            v.observations
        },
        tracees: v.tracees.update(
            at,
            TraceeView {
                in_syscall: true,
                pending: Seq::empty(),
                pending_is_exec: false,
                ..t
            },
        ),
        ..v
    }
}

/// What is known after an event.
pub open spec fn after_event(v: SupervisorView, event: Event) -> SupervisorView {
    match event {
        Event::Exited { pid, code } => SupervisorView {
            tracees: left_by(v.tracees, pid),
            exit_status: if pid == v.root && !v.timed_out {
                Some(code)
            } else {
                v.exit_status
            },
            ..v
        },
        Event::Signaled { pid } => SupervisorView { tracees: left_by(v.tracees, pid), ..v },
        Event::Syscall { pid } => SupervisorView { tracees: joined_by(v.tracees, pid), ..v },
        Event::Forked { pid } => SupervisorView { tracees: joined_by(v.tracees, pid), ..v },
        Event::Stopped { pid, signal } => {
            let at = place_of(v.tracees, pid);
            if !is_known(v.tracees, pid) {
                SupervisorView { tracees: joined_by(v.tracees, pid), ..v }
            } else if signal == SIGTRAP && v.tracees[at].pending_is_exec {
                call_ended(v, at, true)
            } else {
                v
            }
        },
        // What the program returned does not count: not everything it started is over.
        Event::Timeout => SupervisorView { timed_out: true, exit_status: None, ..v },
        _ => v,
    }
}

/// What to do after an event.
pub open spec fn action_for(v: SupervisorView, event: Event) -> Action {
    match event {
        Event::StillAlive => Action::Sleep,
        Event::Exited { pid, code } => if left_by(v.tracees, pid).len() == 0 {
            Action::Finish
        } else {
            Action::Wait
        },
        Event::Signaled { pid } => if left_by(v.tracees, pid).len() == 0 {
            Action::Finish
        } else {
            Action::Wait
        },
        Event::Syscall { pid } => Action::Inspect { pid },
        Event::Forked { pid } => Action::Resume { pid, signal: None },
        Event::Stopped { pid, signal } => if !is_known(v.tracees, pid) || signal == SIGTRAP
            || signal == SIGSTOP {
            Action::Resume { pid, signal: None }
        } else {
            Action::Resume { pid, signal: Some(signal) }
        },
        Event::Continued => Action::Wait,
        Event::Timeout => Action::KillAll,
        Event::NoChildren => Action::Finish,
    }
}

proof fn lemma_place(list: Seq<TraceeView>, pid: i32, at: int)
    requires
        0 <= at <= list.len(),
        forall|j: int| 0 <= j < at ==> (#[trigger] list[j]).pid != pid,
        at < list.len() ==> list[at].pid == pid,
    ensures
        place_of(list, pid) == at,
    decreases list.len(),
{
    if at > 0 {
        assert(list[0].pid != pid);
        let rest = list.skip(1);
        assert forall|j: int| 0 <= j < at - 1 implies (#[trigger] rest[j]).pid != pid by {
            assert(rest[j] == list[j + 1]);
        }
        lemma_place(rest, pid, at - 1);
    }
}

/// Which half of a call a stop is.
#[derive(Debug, Clone, Copy, PartialEq, Eq, Structural)]
pub enum Phase {
    /// The arguments are in the registers and the call has not run yet.
    Entry,
    /// The call has run and its result is known.
    Exit,
}

/// Which half of a call a stop is: what the kernel says, or, where it does not say,
/// the other half than last time.
pub open spec fn phase_of(said: Option<Phase>, in_syscall: bool) -> Phase {
    match said {
        Some(phase) => phase,
        None => if in_syscall {
            Phase::Exit
        } else {
            Phase::Entry
        },
    }
}

/// Which half of a call a stop is.
pub fn phase(said: Option<Phase>, in_syscall: bool) -> (r: Phase)
    ensures
        r == phase_of(said, in_syscall),
{
    match said {
        Some(phase) => phase,
        None => if in_syscall {
            Phase::Exit
        } else {
            Phase::Entry
        },
    }
}

/// The registers of a stopped process.
#[derive(Debug, Clone, Copy)]
pub struct Registers {
    /// The number of the call.
    pub number: u64,
    /// The result of the call.
    pub result: u64,
    /// The arguments of the call.
    pub args: [u64; 6],
}

/// What is known once the registers of process number `at` have been looked at.
pub open spec fn after_look(
    v: SupervisorView,
    at: int,
    registers: Option<Registers>,
    said: Option<Phase>,
) -> SupervisorView {
    match registers {
        None => v,
        Some(regs) => match phase_of(said, v.tracees[at].in_syscall) {
            Phase::Exit => call_ended(v, at, !is_error(regs.result)),
            Phase::Entry => call_started(v, at),
        },
    }
}

/// Whether there is a call to decode.
pub open spec fn starts_call(
    v: SupervisorView,
    at: int,
    registers: Option<Registers>,
    said: Option<Phase>,
) -> bool {
    registers is Some && phase_of(said, v.tracees[at].in_syscall) == Phase::Entry && syscall_entry(
        registers->0.number,
    ) is Some
}

/// Move everything pending to what has been seen.
fn judge(pending: &mut Vec<Observation>, observations: &mut Vec<Observation>, succeeded: bool)
    ensures
        final(pending)@.len() == 0,
        observation_views(final(observations)@) == observation_views(old(observations)@) + judged(
            observation_views(old(pending)@),
            succeeded,
        ),
{
    let ghost waiting = observation_views(pending@);
    let ghost seen = observation_views(observations@);
    let mut list: Vec<Observation> = Vec::new();
    list.append(pending);
    assert(observation_views(list@) =~= waiting);
    let mut i: usize = 0;
    while i < list.len()
        invariant
            i <= list@.len() == waiting.len(),
            forall|j: int|
                0 <= j < list@.len() ==> (#[trigger] list@[j])@ == (if j < i {
                    judged(waiting, succeeded)[j]
                } else {
                    waiting[j]
                }),
        decreases list@.len() - i,
    {
        list[i].succeeded = succeeded;
        i += 1;
    }
    assert(observation_views(list@) =~= judged(waiting, succeeded));
    let ghost moved = list@;
    let ghost before = observations@;
    observations.append(&mut list);
    assert(observations@ =~= before + moved);
    assert(observation_views(observations@) =~= seen + judged(waiting, succeeded));
}

/// What is known when `program` has just been started as process `root`: that it was
/// spawned, and that it was executed.
pub open spec fn started(root: i32, program: Seq<u8>) -> SupervisorView {
    SupervisorView {
        root,
        tracees: seq![fresh(root)],
        observations: seq![
            ObservationView {
                pid: root,
                syscall: "execve",
                permission: PermissionView::Spawn,
                path_resolved: true,
                succeeded: true,
                granting: true,
            },
            ObservationView {
                pid: root,
                syscall: "execve",
                permission: PermissionView::ExecPath(program),
                path_resolved: is_absolute(program),
                succeeded: true,
                granting: true,
            },
        ],
        exit_status: None,
        timed_out: false,
    }
}

/// What is known once what was read for the call that process `pid` started has been
/// taken.
pub open spec fn after_entry(
    v: SupervisorView,
    pid: i32,
    entry: Entry,
    reads: ReadsView,
) -> SupervisorView {
    let at = place_of(v.tracees, pid);
    SupervisorView {
        tracees: v.tracees.update(
            at,
            TraceeView {
                pending: decoded(pid, entry, reads),
                pending_is_exec: entry.shape is Exec,
                ..v.tracees[at]
            },
        ),
        ..v
    }
}

impl Supervisor {
    /// The program has just been started: that is not visible as a call, so it is
    /// recorded by hand.
    pub fn new(root: i32, program: FilePath) -> (r: Supervisor)
        ensures
            r@ == started(root, program@),
    {
        let mut observations: Vec<Observation> = Vec::new();
        observations.push(
            Observation {
                pid: root,
                syscall: "execve",
                permission: Permission::Spawn,
                path_resolved: true,
                succeeded: true,
                granting: true,
            },
        );
        let resolved = program.is_absolute();
        let ghost path = program@;
        let permission = Permission::ExecPath(program);
        observations.push(
            Observation {
                pid: root,
                syscall: "execve",
                permission,
                path_resolved: resolved,
                succeeded: true,
                granting: true,
            },
        );
        let mut tracees: Vec<Tracee> = Vec::new();
        tracees.push(Tracee::new(root));
        let r = Supervisor { root, tracees, observations, exit_status: None, timed_out: false };
        proof {
            assert(tracee_views(r.tracees@) =~= seq![fresh(root)]);
            assert(observation_views(r.observations@) =~= started(root, path).observations);
        }
        r
    }

    /// Where a process is.
    fn find(&self, pid: i32) -> (r: Option<usize>)
        ensures
            r is Some <==> is_known(self@.tracees, pid),
            r is Some ==> r->0 == place_of(self@.tracees, pid) && self.tracees@[r->0 as int].pid
                == pid,
            r is None ==> place_of(self@.tracees, pid) == self.tracees@.len(),
    {
        let mut at: usize = 0;
        while at < self.tracees.len()
            invariant
                at <= self.tracees@.len(),
                forall|j: int| 0 <= j < at ==> (#[trigger] self@.tracees[j]).pid != pid,
            decreases self.tracees@.len() - at,
        {
            assert(self@.tracees[at as int] == self.tracees@[at as int]@);
            if self.tracees[at].pid == pid {
                proof {
                    lemma_place(self@.tracees, pid, at as int);
                }
                return Some(at);
            }
            at += 1;
        }
        proof {
            lemma_place(self@.tracees, pid, at as int);
        }
        None
    }

    fn join(&mut self, pid: i32)
        ensures
            final(self)@ == (SupervisorView {
                tracees: joined_by(old(self)@.tracees, pid),
                ..old(self)@
            }),
    {
        let ghost before = self.tracees@;
        match self.find(pid) {
            Some(_) => {},
            None => {
                self.tracees.push(Tracee::new(pid));
                assert(tracee_views(self.tracees@) =~= tracee_views(before).push(fresh(pid)));
            },
        }
    }

    fn leave(&mut self, pid: i32)
        ensures
            final(self)@ == (SupervisorView {
                tracees: left_by(old(self)@.tracees, pid),
                ..old(self)@
            }),
    {
        let ghost before = self.tracees@;
        match self.find(pid) {
            Some(at) => {
                self.tracees.remove(at);
                assert(tracee_views(self.tracees@) =~= tracee_views(before).remove(at as int));
            },
            None => {},
        }
    }

    fn end_call(&mut self, at: usize, succeeded: bool)
        requires
            at < old(self).tracees@.len(),
        ensures
            final(self)@ == call_ended(old(self)@, at as int, succeeded),
    {
        let ghost before = self.tracees@;
        let ghost view = self@;
        let mut pending: Vec<Observation> = Vec::new();
        pending.append(&mut self.tracees[at].pending);
        assert(pending@ =~= before[at as int].pending@);
        self.tracees[at].in_syscall = false;
        self.tracees[at].pending_is_exec = false;
        judge(&mut pending, &mut self.observations, succeeded);
        proof {
            assert(view.tracees[at as int] == before[at as int]@);
            assert(observation_views(self.tracees@[at as int].pending@) =~= Seq::<
                ObservationView,
            >::empty());
            assert(self@.tracees =~= call_ended(view, at as int, succeeded).tracees);
            assert(self@ == call_ended(view, at as int, succeeded));
        }
    }

    fn start_call(&mut self, at: usize)
        requires
            at < old(self).tracees@.len(),
        ensures
            final(self)@ == call_started(old(self)@, at as int),
    {
        let ghost before = self.tracees@;
        let ghost view = self@;
        let was_exec = self.tracees[at].pending_is_exec;
        let mut pending: Vec<Observation> = Vec::new();
        pending.append(&mut self.tracees[at].pending);
        assert(pending@ =~= before[at as int].pending@);
        self.tracees[at].in_syscall = true;
        self.tracees[at].pending_is_exec = false;
        if was_exec {
            judge(&mut pending, &mut self.observations, true);
        }
        proof {
            assert(view.tracees[at as int] == before[at as int]@);
            assert(observation_views(self.tracees@[at as int].pending@) =~= Seq::<
                ObservationView,
            >::empty());
            assert(self@.tracees =~= call_started(view, at as int).tracees);
            assert(self@ == call_started(view, at as int));
        }
    }

    /// Take what a wait brought, and say what to do next.
    ///
    /// A process that was never seen before is a child that joins. A trap is the end
    /// of a call that replaced the program. Any other signal but a stop is the
    /// process's own and is passed on to it.
    pub fn on_event(&mut self, event: Event) -> (r: Action)
        ensures
            final(self)@ == after_event(old(self)@, event),
            r == action_for(old(self)@, event),
    {
        match event {
            Event::StillAlive => Action::Sleep,
            Event::Exited { pid, code } => {
                self.leave(pid);
                if pid == self.root && !self.timed_out {
                    self.exit_status = Some(code);
                }
                if self.tracees.len() == 0 {
                    Action::Finish
                } else {
                    Action::Wait
                }
            },
            Event::Signaled { pid } => {
                self.leave(pid);
                if self.tracees.len() == 0 {
                    Action::Finish
                } else {
                    Action::Wait
                }
            },
            Event::Syscall { pid } => {
                self.join(pid);
                Action::Inspect { pid }
            },
            Event::Forked { pid } => {
                self.join(pid);
                Action::Resume { pid, signal: None }
            },
            Event::Stopped { pid, signal } => self.stopped(pid, signal),
            Event::Continued => Action::Wait,
            Event::Timeout => {
                self.timed_out = true;
                self.exit_status = None;
                Action::KillAll
            },
            Event::NoChildren => Action::Finish,
        }
    }

    /// A process was stopped by a signal.
    fn stopped(&mut self, pid: i32, signal: i32) -> (r: Action)
        ensures
            final(self)@ == after_event(old(self)@, (Event::Stopped { pid, signal })),
            r == action_for(old(self)@, (Event::Stopped { pid, signal })),
    {
        match self.find(pid) {
            None => {
                self.join(pid);
                Action::Resume { pid, signal: None }
            },
            Some(at) => {
                assert(self@.tracees[at as int] == self.tracees@[at as int]@);
                if signal == SIGTRAP {
                    if self.tracees[at].pending_is_exec {
                        self.end_call(at, true);
                    }
                    return Action::Resume { pid, signal: None };
                }
                if signal == SIGSTOP {
                    return Action::Resume { pid, signal: None };
                }
                Action::Resume { pid, signal: Some(signal) }
            },
        }
    }

    /// Take the registers of a process that stopped at one end of a call, and what
    /// the kernel says about which end it is. At the start of a call that is worth
    /// decoding, the call is handed back; [`Supervisor::entered`] takes what was read
    /// for it.
    pub fn syscall_stop(&mut self, pid: i32, registers: Option<Registers>, said: Option<Phase>) -> (r:
        Option<Entry>)
        requires
            is_known(old(self)@.tracees, pid),
        ensures
            final(self)@ == after_look(
                old(self)@,
                place_of(old(self)@.tracees, pid),
                registers,
                said,
            ),
            r is Some <==> starts_call(
                old(self)@,
                place_of(old(self)@.tracees, pid),
                registers,
                said,
            ),
            r matches Some(entry) ==> {
                let regs = registers->0;
                &&& entry.wf()
                &&& syscall_entry(regs.number) == Some((entry.name, entry.shape))
                &&& entry.args == regs.args
            },
    {
        let at: usize = match self.find(pid) {
            Some(at) => at,
            None => 0,
        };
        assert(self@.tracees[at as int] == self.tracees@[at as int]@);
        match registers {
            None => None,
            Some(regs) => match phase(said, self.tracees[at].in_syscall) {
                Phase::Exit => {
                    self.end_call(at, !is_errno(regs.result));
                    None
                },
                Phase::Entry => {
                    self.start_call(at);
                    proof {
                        lemma_entries_are_in_registers(regs.number);
                    }
                    match lookup(regs.number) {
                        Some((name, shape)) => Some(Entry { name, shape, args: regs.args }),
                        None => None,
                    }
                },
            },
        }
    }

    /// Take what was read for a call that has started.
    pub fn entered(&mut self, pid: i32, entry: &Entry, reads: &Reads)
        requires
            is_known(old(self)@.tracees, pid),
            entry.wf(),
            reads.paths@.len() == path_args_of(entry.shape, entry.args@).len(),
        ensures
            final(self)@ == after_entry(old(self)@, pid, *entry, reads@),
    {
        let ghost before = self.tracees@;
        let ghost view = self@;
        let at: usize = match self.find(pid) {
            Some(at) => at,
            None => 0,
        };
        let pending = decode(pid, entry, reads);
        self.tracees[at].pending = pending;
        self.tracees[at].pending_is_exec = matches!(entry.shape, crate::perms::x86_64::Shape::Exec { .. });
        proof {
            assert(view.tracees[at as int] == before[at as int]@);
            assert(self@.tracees =~= after_entry(view, pid, *entry, reads@).tracees);
        }
    }

    /// The trace is over.
    pub fn finish(self) -> (r: TraceReport)
        ensures
            r.observations == self.observations,
            r.timed_out == self.timed_out,
            r.timed_out ==> r.exit_status is None,
            !r.timed_out ==> r.exit_status == self.exit_status,
            profile_matches(self.observations@, r.permissions),
    {
        report(self.observations, self.timed_out, self.exit_status)
    }
}

impl Tracee {
    fn new(pid: i32) -> (r: Tracee)
        ensures
            r@ == fresh(pid),
    {
        let r = Tracee { pid, in_syscall: false, pending: Vec::new(), pending_is_exec: false };
        assert(observation_views(r.pending@) =~= Seq::<ObservationView>::empty());
        r
    }
}

/// What to do after the very first wait.
#[derive(Debug, Clone, Copy, PartialEq, Eq, Structural)]
pub enum FirstStep {
    /// The child is gone: read what it left in the failure pipe.
    ReadFailure {
        code: i32,
    },
    /// The program has been started: set the tracing options of this process, and
    /// begin.
    Begin {
        pid: i32,
    },
    /// Kill everything that is traced: the report is that the time was up.
    KillAll,
}

/// Take what the very first wait brought. `status` is how that reads.
pub fn first_step(event: Event, status: &str) -> (r: Result<FirstStep, Report>)
    ensures
        match event {
            Event::Exited { pid, code } => r == Ok::<_, Report>(FirstStep::ReadFailure { code }),
            Event::Stopped { pid, signal } => r == Ok::<_, Report>(FirstStep::Begin { pid }),
            Event::Timeout => r == Ok::<_, Report>(FirstStep::KillAll),
            Event::NoChildren => r is Err && r->Err_0@ == said(
                "the traced child vanished before it could be traced - was another thread reaping our children?"@,
            ),
            _ => r is Err && r->Err_0@ == said(
                "unexpected first wait status from the tracee: "@ + status@,
            ),
        },
{
    match event {
        Event::Exited { pid, code } => Ok(FirstStep::ReadFailure { code }),
        Event::Stopped { pid, signal } => Ok(FirstStep::Begin { pid }),
        Event::Timeout => Ok(FirstStep::KillAll),
        Event::NoChildren => Err(
            Report::new(
                "the traced child vanished before it could be traced - was another thread reaping our children?".to_owned(),
            ),
        ),
        _ => {
            let mut message = "unexpected first wait status from the tracee: ".to_owned();
            message.push_str(status);
            Err(Report::new(message))
        },
    }
}

/// A trace in which the program never got to make a call.
pub enum EarlyEnd {
    /// It was started, and exited at once.
    Ran(TraceReport),
    /// It was never started.
    Failed(ChildFailure),
}

/// What a child that was gone at the very first wait comes to, when `message` is what
/// it left in the failure pipe: only an empty pipe means that the program ran.
pub fn exited_early(code: i32, message: &Vec<u8>) -> (r: Result<EarlyEnd, Report>)
    ensures
        match failure_in(message@) {
            Ok(None) => r matches Ok(EarlyEnd::Ran(report)) && report.observations@.len() == 0
                && !report.timed_out && report.exit_status == Some(code)
                && report.permissions.grants@.len() == 0,
            Ok(Some(failure)) => r matches Ok(EarlyEnd::Failed(f)) && f == failure,
            Err(text) => r matches Err(report) && report@ == text,
        },
{
    match read_child_failure(message) {
        Err(report) => Err(report),
        Ok(Some(failure)) => Ok(EarlyEnd::Failed(failure)),
        Ok(None) => {
            let r = report(Vec::new(), false, Some(code));
            proof {
                if r.permissions.grants@.len() > 0 {
                    crate::perms::monitor::lemma_profile_was_observed(
                        Seq::<Observation>::empty(),
                        r.permissions,
                        0,
                    );
                }
            }
            Ok(EarlyEnd::Ran(r))
        },
    }
}

/// The report of a trace whose time was up before the program had been started.
pub fn never_started() -> (r: TraceReport)
    ensures
        r.observations@.len() == 0,
        r.timed_out,
        r.exit_status is None,
        r.permissions.grants@.len() == 0,
{
    let r = report(Vec::new(), true, None);
    proof {
        if r.permissions.grants@.len() > 0 {
            crate::perms::monitor::lemma_profile_was_observed(
                Seq::<Observation>::empty(),
                r.permissions,
                0,
            );
        }
    }
    r
}

/// What to do with a process that turns up while everything traced is being killed.
#[derive(Debug, Clone, Copy, PartialEq, Eq, Structural)]
pub enum DrainStep {
    /// Sleep a little, and wait again.
    Sleep,
    /// Kill this process and let it run on, so that it notices.
    Kill {
        pid: i32,
    },
    /// Wait again.
    Wait,
    /// There is nobody left.
    Done,
}

/// Take what a wait brought while everything traced is being killed.
pub fn drain_step(event: Event) -> (r: DrainStep)
    ensures
        r == (match event {
            Event::StillAlive => DrainStep::Sleep,
            Event::Stopped { pid, signal } => DrainStep::Kill { pid },
            Event::Syscall { pid } => DrainStep::Kill { pid },
            Event::Forked { pid } => DrainStep::Kill { pid },
            Event::NoChildren => DrainStep::Done,
            _ => DrainStep::Wait,
        }),
{
    match event {
        Event::StillAlive => DrainStep::Sleep,
        Event::Stopped { pid, signal } => DrainStep::Kill { pid },
        Event::Syscall { pid } => DrainStep::Kill { pid },
        Event::Forked { pid } => DrainStep::Kill { pid },
        Event::NoChildren => DrainStep::Done,
        _ => DrainStep::Wait,
    }
}

/// Something a [`Supervisor`] is told.
pub enum Told {
    /// What a wait brought.
    Event(Event),
    /// The registers of a process.
    Look {
        pid: i32,
        registers: Option<Registers>,
        said: Option<Phase>,
    },
    /// What was read for a call.
    Entry {
        pid: i32,
        entry: Entry,
        reads: ReadsView,
    },
}

/// It can be told: a process that is looked at is one that is known, and what was read
/// is what was asked for.
pub open spec fn tellable(v: SupervisorView, told: Told) -> bool {
    match told {
        Told::Event(event) => true,
        Told::Look { pid, registers, said } => is_known(v.tracees, pid),
        Told::Entry { pid, entry, reads } => is_known(v.tracees, pid) && reads.paths.len()
            == path_args_of(entry.shape, entry.args@).len() && paths_wf(reads.paths),
    }
}

/// What is known after being told something.
pub open spec fn after_told(v: SupervisorView, told: Told) -> SupervisorView {
    match told {
        Told::Event(event) => after_event(v, event),
        Told::Look { pid, registers, said } => after_look(
            v,
            place_of(v.tracees, pid),
            registers,
            said,
        ),
        Told::Entry { pid, entry, reads } => after_entry(v, pid, entry, reads),
    }
}

/// What is known after being told one thing after another.
pub open spec fn after_all(v: SupervisorView, all: Seq<Told>) -> SupervisorView
    decreases all.len(),
{
    if all.len() == 0 {
        v
    } else {
        after_told(after_all(v, all.drop_last()), all.last())
    }
}

/// Each of these can be told once those before it have been.
pub open spec fn all_tellable(v: SupervisorView, all: Seq<Told>) -> bool
    decreases all.len(),
{
    all.len() == 0 || (all_tellable(v, all.drop_last()) && tellable(
        after_all(v, all.drop_last()),
        all.last(),
    ))
}

/// What has been seen is never forgotten: whatever a supervisor is told, what was
/// recorded before stays as it is.
pub proof fn lemma_observations_only_grow(v: SupervisorView, told: Told)
    ensures
        v.observations.is_prefix_of(after_told(v, told).observations),
{
    let after = after_told(v, told);
    assert(v.observations =~= after.observations.subrange(0, v.observations.len() as int));
}

/// The record of a trace always opens with the two entries of the program that was
/// started, whatever came after that.
pub proof fn lemma_record_opens_with_the_start(root: i32, program: Seq<u8>, all: Seq<Told>)
    ensures
        started(root, program).observations.is_prefix_of(
            after_all(started(root, program), all).observations,
        ),
    decreases all.len(),
{
    let first = started(root, program);
    if all.len() > 0 {
        let before = after_all(first, all.drop_last());
        lemma_record_opens_with_the_start(root, program, all.drop_last());
        lemma_observations_only_grow(before, all.last());
        let now = after_all(first, all).observations;
        assert(first.observations =~= now.subrange(0, first.observations.len() as int)) by {
            assert forall|i: int| 0 <= i < first.observations.len() implies now[i]
                == first.observations[i] by {
                assert(before.observations.subrange(0, first.observations.len() as int)[i]
                    == first.observations[i]);
                assert(now.subrange(0, before.observations.len() as int)[i]
                    == before.observations[i]);
            }
        }
    } else {
        assert(first.observations =~= first.observations.subrange(
            0,
            first.observations.len() as int,
        ));
    }
}

/// What holds of everything a supervisor knows: what is said about a path is true, of
/// what was seen and of what is pending, and a trace that ran out of time has no exit
/// status.
pub open spec fn sound(v: SupervisorView) -> bool {
    &&& forall|i: int| 0 <= i < v.observations.len() ==> #[trigger] path_told_truly(
        v.observations[i],
    )
    &&& forall|t: int, i: int|
        0 <= t < v.tracees.len() && 0 <= i < v.tracees[t].pending.len() ==> path_told_truly(
            #[trigger] v.tracees[t].pending[i],
        )
    &&& v.timed_out ==> v.exit_status is None
}

proof fn lemma_place_bounds(list: Seq<TraceeView>, pid: i32)
    ensures
        0 <= place_of(list, pid) <= list.len(),
    decreases list.len(),
{
    if list.len() > 0 && list[0].pid != pid {
        lemma_place_bounds(list.skip(1), pid);
    }
}

proof fn lemma_call_ends_soundly(v: SupervisorView, at: int, succeeded: bool)
    requires
        sound(v),
        0 <= at < v.tracees.len(),
    ensures
        sound(call_ended(v, at, succeeded)),
        sound(call_started(v, at)),
{
    let ended = call_ended(v, at, succeeded);
    assert forall|i: int| 0 <= i < ended.observations.len() implies #[trigger] path_told_truly(
        ended.observations[i],
    ) by {
        if i < v.observations.len() {
            assert(path_told_truly(v.observations[i]));
        } else {
            assert(path_told_truly(v.tracees[at].pending[i - v.observations.len()]));
        }
    }
    let begun = call_started(v, at);
    assert forall|i: int| 0 <= i < begun.observations.len() implies #[trigger] path_told_truly(
        begun.observations[i],
    ) by {
        if i < v.observations.len() {
            assert(path_told_truly(v.observations[i]));
        } else {
            assert(path_told_truly(v.tracees[at].pending[i - v.observations.len()]));
        }
    }
    assert forall|t: int, i: int|
        0 <= t < v.tracees.len() && 0 <= i < ended.tracees[t].pending.len() implies path_told_truly(
        #[trigger] ended.tracees[t].pending[i],
    ) by {
        assert(t != at);
        assert(path_told_truly(v.tracees[t].pending[i]));
    }
    assert forall|t: int, i: int|
        0 <= t < v.tracees.len() && 0 <= i < begun.tracees[t].pending.len() implies path_told_truly(
        #[trigger] begun.tracees[t].pending[i],
    ) by {
        assert(t != at);
        assert(path_told_truly(v.tracees[t].pending[i]));
    }
}

proof fn lemma_told_soundly(v: SupervisorView, told: Told)
    requires
        sound(v),
        tellable(v, told),
    ensures
        sound(after_told(v, told)),
{
    let after = after_told(v, told);
    match told {
        Told::Event(event) => {
            match event {
                Event::Stopped { pid, signal } => {
                    let at = place_of(v.tracees, pid);
                    lemma_place_bounds(v.tracees, pid);
                    if is_known(v.tracees, pid) && signal == SIGTRAP
                        && v.tracees[at].pending_is_exec {
                        lemma_call_ends_soundly(v, at, true);
                    } else {
                        lemma_membership_keeps_pending(v, pid);
                    }
                },
                Event::Exited { pid, code } => {
                    lemma_membership_keeps_pending(v, pid);
                },
                Event::Signaled { pid } => {
                    lemma_membership_keeps_pending(v, pid);
                },
                Event::Syscall { pid } => {
                    lemma_membership_keeps_pending(v, pid);
                },
                Event::Forked { pid } => {
                    lemma_membership_keeps_pending(v, pid);
                },
                _ => {},
            }
        },
        Told::Look { pid, registers, said } => {
            lemma_place_bounds(v.tracees, pid);
            let at = place_of(v.tracees, pid);
            match registers {
                Some(regs) => {
                    lemma_call_ends_soundly(v, at, !is_error(regs.result));
                },
                None => {},
            }
        },
        Told::Entry { pid, entry, reads } => {
            lemma_place_bounds(v.tracees, pid);
            let at = place_of(v.tracees, pid);
            assert forall|t: int, i: int|
                0 <= t < after.tracees.len() && 0 <= i < after.tracees[t].pending.len() implies
                path_told_truly(#[trigger] after.tracees[t].pending[i]) by {
                if t == at {
                    lemma_paths_are_told_truly(pid, entry, reads, i);
                } else {
                    assert(path_told_truly(v.tracees[t].pending[i]));
                }
            }
        },
    }
}

proof fn lemma_membership_keeps_pending(v: SupervisorView, pid: i32)
    requires
        sound(v),
    ensures
        forall|t: int, i: int|
            0 <= t < joined_by(v.tracees, pid).len() && 0 <= i < joined_by(
                v.tracees,
                pid,
            )[t].pending.len() ==> path_told_truly(
                #[trigger] joined_by(v.tracees, pid)[t].pending[i],
            ),
        forall|t: int, i: int|
            0 <= t < left_by(v.tracees, pid).len() && 0 <= i < left_by(
                v.tracees,
                pid,
            )[t].pending.len() ==> path_told_truly(
                #[trigger] left_by(v.tracees, pid)[t].pending[i],
            ),
{
    lemma_place_bounds(v.tracees, pid);
    let joined = joined_by(v.tracees, pid);
    let left = left_by(v.tracees, pid);
    let at = place_of(v.tracees, pid);
    assert forall|t: int, i: int|
        0 <= t < joined.len() && 0 <= i < joined[t].pending.len() implies path_told_truly(
        #[trigger] joined[t].pending[i],
    ) by {
        assert(t < v.tracees.len());
        assert(path_told_truly(v.tracees[t].pending[i]));
    }
    assert forall|t: int, i: int|
        0 <= t < left.len() && 0 <= i < left[t].pending.len() implies path_told_truly(
        #[trigger] left[t].pending[i],
    ) by {
        if is_known(v.tracees, pid) && t >= at {
            assert(path_told_truly(v.tracees[t + 1].pending[i]));
        } else {
            assert(path_told_truly(v.tracees[t].pending[i]));
        }
    }
}

/// Whatever happens in a trace, an observation's path counts as resolved exactly when
/// there is none or it is absolute, and a trace that ran out of time has no exit
/// status.
pub proof fn lemma_trace_is_sound(root: i32, program: Seq<u8>, all: Seq<Told>)
    requires
        all_tellable(started(root, program), all),
    ensures
        sound(after_all(started(root, program), all)),
    decreases all.len(),
{
    if all.len() > 0 {
        lemma_trace_is_sound(root, program, all.drop_last());
        lemma_told_soundly(after_all(started(root, program), all.drop_last()), all.last());
    }
}

/// A call that failed is recorded, and grants nothing.
pub proof fn lemma_failed_call_grants_nothing(v: SupervisorView, at: int, i: int)
    requires
        0 <= at < v.tracees.len(),
        v.observations.len() <= i < call_ended(v, at, false).observations.len(),
    ensures
        !call_ended(v, at, false).observations[i].succeeded,
        call_ended(v, at, false).observations.len() == v.observations.len()
            + v.tracees[at].pending.len(),
{
}

/// What asking for a process that changed its state brought.
pub enum Waited {
    /// The state of a process, or that none has changed.
    Status(Event),
    /// The question was interrupted.
    Interrupted,
    /// There is nobody left to ask about.
    NoChildren,
    /// It failed, for this reason.
    Failed(String),
}

/// What to do after asking.
pub enum WaitStep {
    /// Sleep a little, and ask again.
    Sleep,
    /// Ask again.
    Again,
    /// The wait is over.
    Event(Event),
    /// The trace cannot go on.
    Fail(Report),
}

/// Take what asking brought. Once the time is up nothing else counts.
pub fn wait_step(late: bool, waited: Waited) -> (r: WaitStep)
    ensures
        late ==> r == WaitStep::Event(Event::Timeout),
        !late ==> match waited {
            Waited::Status(event) => if event == Event::StillAlive {
                r is Sleep
            } else {
                r == WaitStep::Event(event)
            },
            Waited::Interrupted => r is Again,
            Waited::NoChildren => r == WaitStep::Event(Event::NoChildren),
            Waited::Failed(reason) => r is Fail && r->Fail_0@ == said(
                "waitpid failed while tracing: "@ + reason@,
            ),
        },
{
    if late {
        return WaitStep::Event(Event::Timeout);
    }
    match waited {
        Waited::Status(event) => {
            if event == Event::StillAlive {
                WaitStep::Sleep
            } else {
                WaitStep::Event(event)
            }
        },
        Waited::Interrupted => WaitStep::Again,
        Waited::NoChildren => WaitStep::Event(Event::NoChildren),
        Waited::Failed(reason) => {
            let mut message = "waitpid failed while tracing: ".to_owned();
            message.push_str(reason.as_str());
            WaitStep::Fail(Report::new(message))
        },
    }
}

/// A process is where the first one with its number is, and past the end when there is
/// none.
pub proof fn lemma_processes_are_found_by_number(list: Seq<TraceeView>, pid: i32)
    ensures
        0 <= place_of(list, pid) <= list.len(),
        place_of(list, pid) < list.len() ==> list[place_of(list, pid)].pid == pid,
        forall|j: int| 0 <= j < place_of(list, pid) ==> (#[trigger] list[j]).pid != pid,
        is_known(list, pid) <==> exists|j: int|
            0 <= j < list.len() && (#[trigger] list[j]).pid == pid,
    decreases list.len(),
{
    if list.len() > 0 && list[0].pid != pid {
        let rest = list.skip(1);
        lemma_processes_are_found_by_number(rest, pid);
        assert forall|j: int| 0 <= j < place_of(list, pid) implies (#[trigger] list[j]).pid
            != pid by {
            if j > 0 {
                assert(rest[j - 1] == list[j]);
            }
        }
        if is_known(list, pid) {
            assert(list[place_of(list, pid)] == rest[place_of(rest, pid)]);
        }
    }
}

/// A process that is not known joins behind the others, in the middle of nothing; one
/// that is known is left as it is. A process that leaves takes nobody with it, and the
/// others stay in their order.
pub proof fn lemma_joining_and_leaving(list: Seq<TraceeView>, pid: i32)
    ensures
        (forall|j: int| 0 <= j < list.len() ==> (#[trigger] list[j]).pid != pid) ==> {
            let joined = joined_by(list, pid);
            &&& joined.drop_last() == list
            &&& joined.last().pid == pid
            &&& !joined.last().in_syscall
            &&& joined.last().pending.len() == 0
            &&& !joined.last().pending_is_exec
            &&& left_by(list, pid) == list
        },
        forall|at: int|
            0 <= at < list.len() && (#[trigger] list[at]).pid == pid && (forall|j: int|
                0 <= j < at ==> (#[trigger] list[j]).pid != pid) ==> joined_by(list, pid) == list
                && left_by(list, pid) == list.take(at) + list.skip(at + 1),
{
    lemma_processes_are_found_by_number(list, pid);
    let at = place_of(list, pid);
    if is_known(list, pid) {
        assert(list.remove(at) =~= list.take(at) + list.skip(at + 1));
    } else {
        assert(list.push(fresh(pid)).drop_last() =~= list);
    }
    assert forall|n: int|
        0 <= n < list.len() && (#[trigger] list[n]).pid == pid && (forall|j: int|
            0 <= j < n ==> (#[trigger] list[j]).pid != pid) implies n == at by {
        if at < n {
            assert(list[at].pid != pid);
        }
    }
}

/// What a program returns is what its first process returns, unless the time was up: no
/// other process counts, nor does a signal. A process that ends is no longer traced, and
/// what it was in the middle of is forgotten.
pub proof fn lemma_first_process_decides(v: SupervisorView, pid: i32, code: i32)
    ensures
        ({
            let after = after_event(v, Event::Exited { pid, code });
            let killed = after_event(v, Event::Signaled { pid });
            &&& pid == v.root && !v.timed_out ==> after.exit_status == Some(code)
            &&& pid != v.root ==> after.exit_status == v.exit_status
            &&& v.timed_out ==> after.exit_status == v.exit_status
            &&& after.tracees == left_by(v.tracees, pid)
            &&& after.observations == v.observations
            &&& after.timed_out == v.timed_out
            &&& after.root == v.root
            &&& killed.exit_status == v.exit_status
            &&& killed.tracees == left_by(v.tracees, pid)
            &&& killed.observations == v.observations
            &&& killed.timed_out == v.timed_out
            &&& killed.root == v.root
        }),
{
}

/// A trace goes on as long as a process is left, and ends with the last one.
pub proof fn lemma_trace_ends_with_the_last_process(v: SupervisorView, pid: i32, code: i32)
    ensures
        ({
            let over = v.tracees.len() == 0 || v.tracees.len() == 1 && v.tracees[0].pid == pid;
            &&& over ==> action_for(v, Event::Exited { pid, code }) == Action::Finish
            &&& over ==> action_for(v, Event::Signaled { pid }) == Action::Finish
            &&& !over ==> action_for(v, Event::Exited { pid, code }) == Action::Wait
            &&& !over ==> action_for(v, Event::Signaled { pid }) == Action::Wait
            &&& action_for(v, Event::NoChildren) == Action::Finish
            &&& after_event(v, Event::NoChildren) == v
        }),
{
    lemma_processes_are_found_by_number(v.tracees, pid);
}

/// When the time is up everything is killed, and there is no exit status.
pub proof fn lemma_time_is_up(v: SupervisorView)
    ensures
        action_for(v, Event::Timeout) == Action::KillAll,
        after_event(v, Event::Timeout).timed_out,
        after_event(v, Event::Timeout).exit_status is None,
        after_event(v, Event::Timeout).observations == v.observations,
        after_event(v, Event::Timeout).tracees == v.tracees,
{
}

/// Where nothing has happened, nothing is known: it is waited on.
pub proof fn lemma_nothing_happened(v: SupervisorView)
    ensures
        action_for(v, Event::StillAlive) == Action::Sleep,
        after_event(v, Event::StillAlive) == v,
        action_for(v, Event::Continued) == Action::Wait,
        after_event(v, Event::Continued) == v,
{
}

/// A process that stops at a call is looked at, and one that forks is let go on; either
/// is known from then on.
pub proof fn lemma_calls_are_looked_at(v: SupervisorView, pid: i32)
    ensures
        action_for(v, Event::Syscall { pid }) == (Action::Inspect { pid }),
        action_for(v, Event::Forked { pid }) == (Action::Resume { pid, signal: None }),
        after_event(v, Event::Syscall { pid }).tracees == joined_by(v.tracees, pid),
        after_event(v, Event::Forked { pid }).tracees == joined_by(v.tracees, pid),
        after_event(v, Event::Syscall { pid }).observations == v.observations,
        after_event(v, Event::Forked { pid }).observations == v.observations,
        after_event(v, Event::Syscall { pid }).exit_status == v.exit_status,
        after_event(v, Event::Forked { pid }).exit_status == v.exit_status,
{
}

/// A signal is passed on to the process it stopped, but for the trap and the stop that
/// tracing brings about, which are number 5 and number 19, and but for the stop that a
/// new process starts with.
pub proof fn lemma_signals_are_passed_on(v: SupervisorView, pid: i32, signal: i32, at: int)
    ensures
        0 <= at < v.tracees.len() && v.tracees[at].pid == pid && signal != 5 && signal != 19
            ==> action_for(v, Event::Stopped { pid, signal }) == (Action::Resume {
            pid,
            signal: Some(signal),
        }),
        signal == 5 || signal == 19 ==> action_for(v, Event::Stopped { pid, signal }) == (
        Action::Resume { pid, signal: None }),
        (forall|j: int| 0 <= j < v.tracees.len() ==> (#[trigger] v.tracees[j]).pid != pid)
            ==> action_for(v, Event::Stopped { pid, signal }) == (Action::Resume {
            pid,
            signal: None,
        }) && after_event(v, Event::Stopped { pid, signal }).tracees == joined_by(v.tracees, pid),
{
    lemma_processes_are_found_by_number(v.tracees, pid);
}

/// A trap while a program is being replaced says that it has been: what that implied is
/// recorded as having succeeded. Any other stop of a known process changes nothing.
pub proof fn lemma_trap_ends_a_replacement(v: SupervisorView, pid: i32, signal: i32, at: int)
    requires
        0 <= at < v.tracees.len(),
        v.tracees[at].pid == pid,
        forall|j: int| 0 <= j < at ==> (#[trigger] v.tracees[j]).pid != pid,
    ensures
        ({
            let after = after_event(v, Event::Stopped { pid, signal });
            let pending = v.tracees[at].pending;
            &&& signal != 5 || !v.tracees[at].pending_is_exec ==> after == v
            &&& signal == 5 && v.tracees[at].pending_is_exec ==> {
                &&& after.observations.len() == v.observations.len() + pending.len()
                &&& after.observations.take(v.observations.len() as int) == v.observations
                &&& forall|i: int|
                    0 <= i < pending.len() ==> {
                        let o = #[trigger] after.observations[v.observations.len() + i];
                        &&& o.succeeded
                        &&& o.pid == pending[i].pid
                        &&& o.syscall == pending[i].syscall
                        &&& o.permission == pending[i].permission
                        &&& o.path_resolved == pending[i].path_resolved
                        &&& o.granting == pending[i].granting
                    }
                &&& after.tracees.len() == v.tracees.len()
                &&& after.tracees[at].pending.len() == 0
                &&& !after.tracees[at].pending_is_exec
                &&& !after.tracees[at].in_syscall
                &&& forall|j: int|
                    0 <= j < v.tracees.len() && j != at ==> #[trigger] after.tracees[j]
                        == v.tracees[j]
            }
        }),
{
    lemma_place(v.tracees, pid, at);
    let after = after_event(v, Event::Stopped { pid, signal });
    if signal == 5 && v.tracees[at].pending_is_exec {
        assert(after.observations.take(v.observations.len() as int) =~= v.observations);
    }
}

/// The two halves of a call take turns where the kernel does not say which it is; where it
/// does, that is what it is.
pub proof fn lemma_halves_take_turns(said: Option<Phase>, in_syscall: bool)
    ensures
        said is Some ==> phase_of(said, in_syscall) == said->0,
        phase_of(None, true) == Phase::Exit,
        phase_of(None, false) == Phase::Entry,
{
}

/// A call that ends is recorded with everything it implied, in order, as having succeeded
/// exactly when its result is not one of the last 4095 numbers. From then on the process
/// is in the middle of nothing, and no other process is touched.
pub proof fn lemma_result_decides(
    v: SupervisorView,
    at: int,
    regs: Registers,
    said: Option<Phase>,
)
    requires
        0 <= at < v.tracees.len(),
        said == Some(Phase::Exit) || said is None && v.tracees[at].in_syscall,
    ensures
        ({
            let after = after_look(v, at, Some(regs), said);
            let pending = v.tracees[at].pending;
            &&& !starts_call(v, at, Some(regs), said)
            &&& after.observations.len() == v.observations.len() + pending.len()
            &&& after.observations.take(v.observations.len() as int) == v.observations
            &&& forall|i: int|
                0 <= i < pending.len() ==> {
                    let o = #[trigger] after.observations[v.observations.len() + i];
                    &&& o.succeeded <==> regs.result < 0xffff_ffff_ffff_f001
                    &&& o.pid == pending[i].pid
                    &&& o.syscall == pending[i].syscall
                    &&& o.permission == pending[i].permission
                    &&& o.path_resolved == pending[i].path_resolved
                    &&& o.granting == pending[i].granting
                }
            &&& after.tracees.len() == v.tracees.len()
            &&& after.tracees[at].pid == v.tracees[at].pid
            &&& after.tracees[at].pending.len() == 0
            &&& !after.tracees[at].pending_is_exec
            &&& !after.tracees[at].in_syscall
            &&& forall|j: int|
                0 <= j < v.tracees.len() && j != at ==> #[trigger] after.tracees[j] == v.tracees[j]
            &&& after.exit_status == v.exit_status
            &&& after.timed_out == v.timed_out
        }),
{
    let after = after_look(v, at, Some(regs), said);
    assert(after.observations.take(v.observations.len() as int) =~= v.observations);
}

/// A call that starts leaves the process in the middle of it, with nothing pending. What
/// was pending is recorded, as a success, where it was the replacement of a program, and
/// dropped where it was not.
pub proof fn lemma_start_of_a_call(
    v: SupervisorView,
    at: int,
    regs: Registers,
    said: Option<Phase>,
)
    requires
        0 <= at < v.tracees.len(),
        said == Some(Phase::Entry) || said is None && !v.tracees[at].in_syscall,
    ensures
        ({
            let after = after_look(v, at, Some(regs), said);
            let pending = v.tracees[at].pending;
            &&& starts_call(v, at, Some(regs), said) <==> syscall_entry(regs.number) is Some
            &&& !v.tracees[at].pending_is_exec ==> after.observations == v.observations
            &&& v.tracees[at].pending_is_exec ==> {
                &&& after.observations.len() == v.observations.len() + pending.len()
                &&& after.observations.take(v.observations.len() as int) == v.observations
                &&& forall|i: int|
                    0 <= i < pending.len() ==> {
                        let o = #[trigger] after.observations[v.observations.len() + i];
                        &&& o.succeeded
                        &&& o.pid == pending[i].pid
                        &&& o.syscall == pending[i].syscall
                        &&& o.permission == pending[i].permission
                        &&& o.path_resolved == pending[i].path_resolved
                        &&& o.granting == pending[i].granting
                    }
            }
            &&& after.tracees.len() == v.tracees.len()
            &&& after.tracees[at].pid == v.tracees[at].pid
            &&& after.tracees[at].pending.len() == 0
            &&& !after.tracees[at].pending_is_exec
            &&& after.tracees[at].in_syscall
            &&& forall|j: int|
                0 <= j < v.tracees.len() && j != at ==> #[trigger] after.tracees[j] == v.tracees[j]
            &&& after.exit_status == v.exit_status
            &&& after.timed_out == v.timed_out
        }),
{
    let after = after_look(v, at, Some(regs), said);
    assert(after.observations.take(v.observations.len() as int) =~= v.observations);
}

/// A process whose registers cannot be read tells nothing.
pub proof fn lemma_nothing_to_look_at(v: SupervisorView, at: int, said: Option<Phase>)
    ensures
        after_look(v, at, None, said) == v,
        !starts_call(v, at, None, said),
{
}

/// What a call implies is pending with the process that made it, and with no other, until
/// the call ends; nothing is recorded yet.
pub proof fn lemma_implications_wait(
    v: SupervisorView,
    pid: i32,
    entry: Entry,
    reads: ReadsView,
    at: int,
)
    requires
        0 <= at < v.tracees.len(),
        v.tracees[at].pid == pid,
        forall|j: int| 0 <= j < at ==> (#[trigger] v.tracees[j]).pid != pid,
    ensures
        ({
            let after = after_entry(v, pid, entry, reads);
            &&& after.observations == v.observations
            &&& after.exit_status == v.exit_status
            &&& after.timed_out == v.timed_out
            &&& after.tracees.len() == v.tracees.len()
            &&& after.tracees[at].pid == pid
            &&& after.tracees[at].in_syscall == v.tracees[at].in_syscall
            &&& after.tracees[at].pending == decoded(pid, entry, reads)
            &&& after.tracees[at].pending_is_exec <==> entry.shape is Exec
            &&& forall|j: int|
                0 <= j < v.tracees.len() && j != at ==> #[trigger] after.tracees[j] == v.tracees[j]
        }),
{
    lemma_place(v.tracees, pid, at);
}

/// A trace starts out with one process, in the middle of nothing, that was seen being
/// spawned and then executed.
pub proof fn lemma_start_of_a_trace(root: i32, program: Seq<u8>)
    ensures
        ({
            let v = started(root, program);
            &&& v.root == root
            &&& v.tracees.len() == 1
            &&& v.tracees[0].pid == root
            &&& !v.tracees[0].in_syscall
            &&& v.tracees[0].pending.len() == 0
            &&& !v.tracees[0].pending_is_exec
            &&& v.exit_status is None
            &&& !v.timed_out
            &&& v.observations.len() == 2
            &&& v.observations[0].permission == PermissionView::Spawn
            &&& v.observations[0].path_resolved
            &&& v.observations[1].permission == PermissionView::ExecPath(program)
            &&& v.observations[1].path_resolved <==> program.len() > 0 && program[0] == 0x2f
            &&& forall|i: int|
                0 <= i < 2 ==> (#[trigger] v.observations[i]).pid == root
                    && v.observations[i].succeeded && v.observations[i].granting
                    && v.observations[i].syscall == "execve"
        }),
{
}

} // verus!
