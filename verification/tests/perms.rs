//! The permission model, and what a trace makes of system calls.

use pm::path::FilePath;
use pm::perms::launch::prepare;
use pm::perms::monitor::{
    preflight_verdict, read_child_failure, report, unsupported_architecture, ChildFailure,
    Observation, TraceOptions, PTRACE_DENIED_HELP,
};
use pm::perms::supervise::{
    drain_step, exited_early, first_step, never_started, phase, Action, DrainStep, EarlyEnd, Event,
    wait_step, FirstStep, Phase, Registers, Supervisor, WaitStep, Waited, SIGSTOP, SIGTRAP,
};
use pm::perms::x86_64::{
    decode, is_errno, locate, lookup, sockaddr, sockaddr_want, Base, Entry, Family, Located,
    PathReader, PathStep, Reads, Shape, WordEnd, WordReader,
};
use pm::perms::{summarise, Enforcement, Grant, Permission, Permissions, Provenance};
use pm::pm_trace::{exit_code_for_child_failure, exit_code_for_report, report_directory};

use nix::libc;

fn path(text: &str) -> FilePath {
    FilePath::from_text(text)
}

fn read(text: &str) -> Permission {
    Permission::ReadPath(path(text))
}

fn write(text: &str) -> Permission {
    Permission::WritePath(path(text))
}

fn grant(permission: Permission, origin: Provenance, line: &str) -> Grant {
    Grant::new(permission, origin, vec![line.to_owned()])
}

fn texts(paths: Vec<&FilePath>) -> Vec<String> {
    paths.iter().map(|path| path.display()).collect()
}

#[test]
fn the_same_path_from_two_signals_becomes_one_grant_with_both_provenances() {
    let from_source = Permissions::from_grants(&vec![grant(
        read("/etc/ssl"),
        Provenance::SourceAnalysis,
        "src/tls.c:12: c:path-literal",
    )]);
    let from_monitor = Permissions::from_grants(&vec![grant(
        read("/etc/ssl"),
        Provenance::RuntimeMonitor,
        "openat /etc/ssl (pid 1)",
    )]);

    let merged = Permissions::merge(vec![from_source, from_monitor]);

    assert_eq!(merged.len(), 1, "{merged:?}");
    let grant = &merged.grants()[0];
    assert_eq!(grant.permission(), &read("/etc/ssl"));
    assert_eq!(
        *grant.provenance(),
        [Provenance::SourceAnalysis, Provenance::RuntimeMonitor],
        "both signals must survive the merge"
    );
    assert_eq!(grant.evidence().len(), 2, "both evidence lines must survive");
}

#[test]
fn paths_that_share_a_string_prefix_are_not_collapsed_into_each_other() {
    let merged = Permissions::from_grants(&vec![
        grant(read("/usr"), Provenance::ElfAnalysis, "DT_NEEDED libc.so.6"),
        grant(read("/usrlocal"), Provenance::ElfAnalysis, "DT_RUNPATH /usrlocal"),
    ]);

    assert_eq!(
        texts(merged.read_paths()),
        ["/usr", "/usrlocal"],
        "neither path covers the other"
    );
}

#[test]
fn a_real_subpath_does_collapse_into_its_ancestor() {
    let merged = Permissions::from_grants(&vec![
        grant(read("/usr"), Provenance::ElfAnalysis, "DT_NEEDED libc.so.6"),
        grant(
            read("/usr/lib64/man-db"),
            Provenance::SourceAnalysis,
            "src/man.c:3: c:path-literal",
        ),
    ]);

    assert_eq!(texts(merged.read_paths()), ["/usr"], "{merged:?}");

    let grant = &merged.grants()[0];
    assert_eq!(
        *grant.provenance(),
        [Provenance::SourceAnalysis, Provenance::ElfAnalysis],
        "the swallowed grant's provenance moves to the survivor"
    );
    assert!(
        grant.evidence().iter().any(|line| line == "covers /usr/lib64/man-db"),
        "the collapse must leave a trace: {:?}",
        grant.evidence()
    );
}

#[test]
fn a_read_grant_never_swallows_a_write_grant_below_it() {
    let merged = Permissions::from_grants(&vec![
        grant(read("/usr"), Provenance::ElfAnalysis, "DT_NEEDED libc.so.6"),
        grant(
            write("/usr/lib/cache"),
            Provenance::RuntimeMonitor,
            "openat /usr/lib/cache (pid 1)",
        ),
    ]);

    assert_eq!(texts(merged.read_paths()), ["/usr"]);
    assert_eq!(texts(merged.write_paths()), ["/usr/lib/cache"]);
}

#[test]
fn a_parent_dir_component_blocks_collapsing() {
    let merged = Permissions::from_grants(&vec![
        grant(read("/usr"), Provenance::ElfAnalysis, "a"),
        grant(read("/usr/lib/../../etc/shadow"), Provenance::ElfAnalysis, "b"),
    ]);
    assert_eq!(merged.len(), 2, "{merged:?}");
}

#[test]
fn a_fresh_profile_is_audit_only() {
    assert_eq!(Enforcement::default(), Enforcement::Audit);
    assert!(!Enforcement::default().denies());
    assert!(Enforcement::Enforce.denies());
}

#[test]
fn a_chain_of_nested_paths_collapses_into_the_outermost() {
    let merged = Permissions::from_grants(&vec![
        grant(write("/a/b/c"), Provenance::ElfAnalysis, "1"),
        grant(write("/a/b"), Provenance::SourceAnalysis, "2"),
        grant(write("//a/./"), Provenance::RuntimeMonitor, "3"),
        grant(write("/a/b"), Provenance::SourceAnalysis, "2"),
    ]);
    assert_eq!(merged.len(), 1);
    let only = &merged.grants()[0];
    assert_eq!(only.provenance().len(), 3);
    let mut lines = only.evidence().clone();
    lines.sort();
    assert_eq!(lines, ["1", "2", "3", "covers /a/b", "covers /a/b/c"]);
    assert!(Permissions::default().is_empty());
}

#[test]
fn a_profile_is_summarised_in_one_line() {
    let merged = Permissions::from_grants(&vec![
        grant(read("/etc"), Provenance::ElfAnalysis, "1"),
        grant(read("/usr"), Provenance::ElfAnalysis, "2"),
        grant(Permission::ExecPath(path("/bin/sh")), Provenance::ElfAnalysis, "3"),
        grant(Permission::Spawn, Provenance::ElfAnalysis, "4"),
        grant(Permission::Network, Provenance::ElfAnalysis, "5"),
    ]);
    assert_eq!(summarise(&merged), "2 read, 0 write, 1 exec, network, spawn");
    assert_eq!(summarise(&Permissions::default()), "0 read, 0 write, 0 exec");
    assert!(merged.wants_network() && merged.wants_spawn());
    assert_eq!(texts(merged.exec_paths()), ["/bin/sh"]);
}

fn seen(permission: Permission, succeeded: bool, granting: bool) -> Observation {
    Observation {
        pid: 7,
        syscall: "openat",
        permission,
        path_resolved: true,
        succeeded,
        granting,
    }
}

#[test]
fn only_successful_granting_calls_end_up_in_the_profile() {
    let made = report(
        vec![
            seen(read("/etc/hosts"), true, true),
            seen(read("/etc/absent"), false, true),
            seen(read("/"), true, false),
        ],
        false,
        Some(0),
    );
    assert_eq!(made.observations().len(), 3);
    assert_eq!(texts(made.permissions().read_paths()), ["/etc/hosts"]);
    assert_eq!(
        *made.permissions().grants()[0].evidence(),
        ["openat /etc/hosts (pid 7)"]
    );
    assert_eq!(
        *made.permissions().grants()[0].provenance(),
        [Provenance::RuntimeMonitor]
    );
    assert!(!made.timed_out());
    assert_eq!(made.exit_status(), Some(0));
    assert!(made.observations()[0].grants());
    assert!(!made.observations()[1].grants());
    assert!(!made.observations()[2].grants());
}

#[test]
fn evidence_says_when_a_path_is_not_where_it_seems() {
    let mut observation = seen(read("lib/x"), true, true);
    observation.path_resolved = false;
    assert_eq!(
        observation.evidence(),
        "openat lib/x (pid 7) [relative, dirfd unresolved - recorded as passed]"
    );
    assert!(!observation.path_is_resolved());
    assert_eq!(seen(Permission::Network, true, true).evidence(), "openat (no path) (pid 7)");
    assert_eq!(observation.pid(), 7);
    assert_eq!(observation.syscall(), "openat");
    assert_eq!(*observation.permission(), read("lib/x"));
    assert!(observation.succeeded());
}

#[test]
fn a_child_failure_crosses_the_pipe() {
    for failure in [
        ChildFailure::SetPgid(1),
        ChildFailure::Chdir(2),
        ChildFailure::Traceme(-1),
        ChildFailure::Execve(i32::MIN),
        ChildFailure::Execve(i32::MAX),
    ] {
        let message = failure.to_wire();
        assert_eq!(read_child_failure(&message.to_vec()), Ok(Some(failure)));
    }
    let mut expected = vec![4];
    expected.extend_from_slice(&13i32.to_ne_bytes());
    assert_eq!(ChildFailure::Execve(13).to_wire().to_vec(), expected);
}

#[test]
fn a_malformed_child_failure_is_not_a_clean_run() {
    assert_eq!(read_child_failure(&Vec::new()), Ok(None));
    assert_eq!(
        read_child_failure(&vec![9, 0, 0, 0, 0]).unwrap_err().message,
        "the child-failure pipe named an unknown failure kind 9"
    );
    assert_eq!(
        read_child_failure(&vec![1, 0]).unwrap_err().message,
        "the child-failure pipe delivered 2 of 5 expected bytes"
    );
}

#[test]
fn a_child_failure_says_what_failed_and_why() {
    assert_eq!(
        ChildFailure::Execve(libc::ENOENT).message(),
        "the traced program could not be executed: ENOENT: No such file or directory"
    );
    assert!(ChildFailure::Chdir(libc::ENOENT)
        .message()
        .starts_with("the traced child could not chdir into its working directory: ENOENT"));
    assert!(ChildFailure::SetPgid(libc::EPERM)
        .message()
        .starts_with("the traced child could not join its own process group: EPERM"));
    let denied = ChildFailure::Traceme(libc::EPERM);
    assert!(denied.message().starts_with("ptrace::traceme() was refused: EPERM"));
    assert_eq!(denied.help(), Some(PTRACE_DENIED_HELP));
    assert_eq!(ChildFailure::Execve(1).help(), None);
}

#[test]
fn each_failure_has_its_exit_code() {
    assert_eq!(exit_code_for_child_failure(&ChildFailure::Execve(2)), 4);
    assert_eq!(exit_code_for_child_failure(&ChildFailure::Traceme(1)), 5);
    assert_eq!(exit_code_for_child_failure(&ChildFailure::Chdir(2)), 6);
    assert_eq!(exit_code_for_child_failure(&ChildFailure::SetPgid(1)), 6);
    assert_eq!(exit_code_for_report(&report(Vec::new(), false, Some(9))), 0);
    assert_eq!(exit_code_for_report(&report(Vec::new(), true, None)), 3);
}

#[test]
fn a_report_is_put_together_beside_where_it_goes() {
    assert_eq!(report_directory(&path("/var/log/report.yaml")), path("/var/log"));
    assert_eq!(report_directory(&path("report.yaml")), path("."));
    assert_eq!(report_directory(&path("/")), path("."));
}

#[test]
fn only_a_stopped_probe_proves_that_tracing_works() {
    assert!(preflight_verdict(true, "").is_ok());
    let report = preflight_verdict(false, "Exited(Pid(7), 1)").unwrap_err();
    assert_eq!(
        report.message,
        "ptrace preflight failed: the probe never reached a traced stop (Exited(Pid(7), 1))"
    );
    assert_eq!(report.help.as_deref(), Some(PTRACE_DENIED_HELP));
    let report = unsupported_architecture("riscv64");
    assert_eq!(
        report.message,
        "the ptrace runtime monitor is implemented for x86_64 only (this is riscv64)"
    );
    assert!(report.help.is_some());
}

#[test]
fn the_table_of_syscalls_is_the_kernels() {
    let expected = [
        (libc::SYS_open, "open"),
        (libc::SYS_openat, "openat"),
        (libc::SYS_openat2, "openat2"),
        (libc::SYS_stat, "stat"),
        (libc::SYS_lstat, "lstat"),
        (libc::SYS_newfstatat, "newfstatat"),
        (libc::SYS_statx, "statx"),
        (libc::SYS_access, "access"),
        (libc::SYS_faccessat, "faccessat"),
        (libc::SYS_faccessat2, "faccessat2"),
        (libc::SYS_readlink, "readlink"),
        (libc::SYS_readlinkat, "readlinkat"),
        (libc::SYS_unlink, "unlink"),
        (libc::SYS_unlinkat, "unlinkat"),
        (libc::SYS_mkdir, "mkdir"),
        (libc::SYS_mkdirat, "mkdirat"),
        (libc::SYS_rename, "rename"),
        (libc::SYS_renameat, "renameat"),
        (libc::SYS_renameat2, "renameat2"),
        (libc::SYS_execve, "execve"),
        (libc::SYS_execveat, "execveat"),
        (libc::SYS_fork, "fork"),
        (libc::SYS_vfork, "vfork"),
        (libc::SYS_clone, "clone"),
        (libc::SYS_clone3, "clone3"),
        (libc::SYS_socket, "socket"),
        (libc::SYS_connect, "connect"),
        (libc::SYS_bind, "bind"),
        (libc::SYS_sendto, "sendto"),
    ];
    for (number, name) in expected {
        assert_eq!(lookup(number as u64).map(|known| known.0), Some(name));
    }
    let known = (0..1000u64).filter(|number| lookup(*number).is_some()).count();
    assert_eq!(known, expected.len());
    assert!(lookup(u64::MAX).is_none());
}

fn entry(number: i64, args: [u64; 6]) -> Entry {
    let (name, shape) = lookup(number as u64).expect("a known call");
    Entry { name, shape, args }
}

fn reads(paths: &[Option<&str>]) -> Reads {
    Reads {
        paths: paths
            .iter()
            .map(|one| one.map(|text| Located { path: path(text), resolved: true }))
            .collect(),
        directory: false,
        flags: None,
        sockaddr: None,
    }
}

fn decoded(entry: &Entry, reads: &Reads) -> Vec<Permission> {
    assert_eq!(entry.paths().len(), reads.paths.len());
    let observations = decode(3, entry, reads);
    assert!(observations.iter().all(|one| !one.succeeded && one.pid == 3));
    observations.into_iter().map(|one| one.permission).collect()
}

#[test]
fn an_open_is_a_write_when_its_flags_say_so() {
    let cases = [
        (libc::O_RDONLY, false),
        (libc::O_RDONLY | libc::O_DIRECTORY | libc::O_CLOEXEC, false),
        (libc::O_WRONLY, true),
        (libc::O_RDWR, true),
        (libc::O_RDONLY | libc::O_CREAT, true),
        (libc::O_RDONLY | libc::O_TRUNC, true),
        (libc::O_RDONLY | libc::O_APPEND, true),
    ];
    for (flags, writes) in cases {
        let call = entry(libc::SYS_openat, [0, 0x1000, flags as u64, 0, 0, 0]);
        let expected = if writes { write("/f") } else { read("/f") };
        assert_eq!(decoded(&call, &reads(&[Some("/f")])), [expected], "{flags:o}");

        let call = entry(libc::SYS_openat2, [0, 0x1000, 0x2000, 0, 0, 0]);
        assert_eq!(call.flags_at(), Some(0x2000));
        let mut how = reads(&[Some("/f")]);
        how.flags = Some((flags as u64).to_ne_bytes().to_vec());
        let expected = if writes { write("/f") } else { read("/f") };
        assert_eq!(decoded(&call, &how), [expected], "{flags:o}");
    }
    let call = entry(libc::SYS_openat2, [0, 0x1000, 0x2000, 0, 0, 0]);
    let mut how = reads(&[Some("/f")]);
    how.flags = Some(vec![1, 2, 3]);
    assert_eq!(decoded(&call, &how), [read("/f")]);
    assert!(decoded(&call, &reads(&[None])).is_empty());
}

#[test]
fn renames_and_removals_write() {
    let call = entry(libc::SYS_renameat2, [1, 0x10, 2, 0x20, 0, 0]);
    let args = call.paths();
    assert_eq!((args[0].dirfd, args[0].addr), (Some(1), 0x10));
    assert_eq!((args[1].dirfd, args[1].addr), (Some(2), 0x20));
    assert_eq!(
        decoded(&call, &reads(&[Some("/a"), Some("/b")])),
        [write("/a"), write("/b")]
    );
    assert_eq!(decoded(&call, &reads(&[None, Some("/b")])), [write("/b")]);
    let call = entry(libc::SYS_unlink, [0x10, 0, 0, 0, 0, 0]);
    assert_eq!(call.paths()[0].dirfd, None);
    assert_eq!(decoded(&call, &reads(&[Some("/a")])), [write("/a")]);
    assert!(matches!(call.shape, Shape::Write { .. }));
}

#[test]
fn starting_a_program_is_a_spawn_and_an_execution() {
    let call = entry(libc::SYS_execve, [0x10, 0, 0, 0, 0, 0]);
    assert_eq!(
        decoded(&call, &reads(&[Some("/bin/ls")])),
        [Permission::Spawn, Permission::ExecPath(path("/bin/ls"))]
    );
    assert_eq!(decoded(&call, &reads(&[None])), [Permission::Spawn]);
    let call = entry(libc::SYS_clone, [0; 6]);
    assert_eq!(decoded(&call, &reads(&[])), [Permission::Spawn]);
}

#[test]
fn a_probe_of_a_directory_grants_nothing() {
    let call = entry(libc::SYS_stat, [0x10, 0, 0, 0, 0, 0]);
    let mut found = reads(&[Some("/")]);
    found.directory = true;
    let observations = decode(3, &call, &found);
    assert_eq!(observations.len(), 1);
    assert!(!observations[0].granting);
    found.directory = false;
    assert!(decode(3, &call, &found)[0].granting);
}

fn address(family: i32, rest: &[u8]) -> Vec<u8> {
    let mut bytes = (family as u16).to_ne_bytes().to_vec();
    bytes.extend_from_slice(rest);
    bytes
}

#[test]
fn a_local_socket_is_a_path_and_not_the_network() {
    assert_eq!(sockaddr(&address(libc::AF_INET, &[0; 14])), Some(Family::Inet));
    assert_eq!(sockaddr(&address(libc::AF_INET6, &[0; 26])), Some(Family::Inet));
    assert_eq!(sockaddr(&address(libc::AF_NETLINK, &[0; 10])), Some(Family::Other));
    assert_eq!(
        sockaddr(&address(libc::AF_UNIX, b"/run/log\0junk")),
        Some(Family::Unix(path("/run/log")))
    );
    assert_eq!(
        sockaddr(&address(libc::AF_UNIX, b"/run/log")),
        Some(Family::Unix(path("/run/log")))
    );
    assert_eq!(sockaddr(&address(libc::AF_UNIX, b"\0abstract")), Some(Family::Other));
    assert_eq!(sockaddr(&address(libc::AF_UNIX, b"")), Some(Family::Other));
    assert_eq!(sockaddr(&vec![2]), None);

    let mut found = reads(&[]);
    found.sockaddr = Some(address(libc::AF_UNIX, b"/run/log\0"));
    let call = entry(libc::SYS_connect, [4, 0x10, 110, 0, 0, 0]);
    assert_eq!(call.sockaddr_at(), Some((0x10, 110)));
    assert_eq!(decoded(&call, &found), [read("/run/log")]);
    let call = entry(libc::SYS_bind, [4, 0x10, 110, 0, 0, 0]);
    assert_eq!(decoded(&call, &found), [write("/run/log")]);
    found.sockaddr = Some(address(libc::AF_INET, &[0; 14]));
    let call = entry(libc::SYS_sendto, [4, 0, 0, 0, 0x20, 16]);
    assert_eq!(call.sockaddr_at(), Some((0x20, 16)));
    assert_eq!(decoded(&call, &found), [Permission::Network]);
    found.sockaddr = None;
    assert!(decoded(&call, &found).is_empty());
}

#[test]
fn only_internet_sockets_are_the_network() {
    for (domain, network) in [
        (libc::AF_INET as u64, true),
        (libc::AF_INET6 as u64, true),
        (libc::AF_UNIX as u64, false),
        (libc::AF_NETLINK as u64, false),
        (0xdead_beef_0000_0002, true),
    ] {
        let call = entry(libc::SYS_socket, [domain, 0, 0, 0, 0, 0]);
        assert_eq!(!decoded(&call, &reads(&[])).is_empty(), network);
    }
}

#[test]
fn an_address_is_read_only_where_there_is_one() {
    assert_eq!(sockaddr_want(0, 16), None);
    assert_eq!(sockaddr_want(0x10, 1), None);
    assert_eq!(sockaddr_want(0x10, 16), Some(16));
    assert_eq!(sockaddr_want(0x10, u64::MAX), Some(4098));
}

#[test]
fn results_from_the_last_page_are_errors() {
    for errno in [1i64, 2, 4095] {
        assert!(is_errno((-errno) as u64));
    }
    for value in [0u64, 5, (-4096i64) as u64, 0x7fff_ffff_ffff_ffff] {
        assert!(!is_errno(value));
    }
}

#[test]
fn relative_paths_start_at_their_directory() {
    assert_eq!(Base::of(None), Base::Cwd);
    assert_eq!(Base::of(Some(libc::AT_FDCWD as u64)), Base::Cwd);
    assert_eq!(Base::of(Some(libc::AT_FDCWD as u32 as u64)), Base::Cwd);
    assert_eq!(Base::of(Some(5)), Base::Fd(5));
    assert_eq!(Base::Cwd.link(12), "/proc/12/cwd");
    assert_eq!(Base::of(Some(5)).link(12), "/proc/12/fd/5");
    assert_eq!(Base::of(Some(u64::MAX)).link(12), "/proc/12/fd/-1");

    let found = |text: &str, link: Option<&str>| {
        let located = locate(path(text), link.map(path));
        (located.path.display(), located.resolved)
    };
    assert_eq!(found("/etc/passwd", None), ("/etc/passwd".to_owned(), true));
    assert_eq!(found("passwd", Some("/etc")), ("/etc/passwd".to_owned(), true));
    assert_eq!(found("", Some("/etc")), ("/etc".to_owned(), true));
    assert_eq!(found("passwd", None), ("passwd".to_owned(), false));
    assert_eq!(found("passwd", Some("socket:[12]")), ("passwd".to_owned(), false));
}

/// Reads a path that starts at `addr` out of `memory`, which starts there too.
fn read_path(addr: u64, memory: &[u8]) -> Option<FilePath> {
    let mut reader = PathReader::new(addr)?;
    loop {
        let want = reader.want()?;
        let at = (reader.cursor - addr) as usize;
        assert!(want <= 256 && reader.cursor % 4096 + want as u64 <= 4096);
        let end = (at + want).min(memory.len());
        match reader.feed(&memory[at.min(end)..end]) {
            PathStep::Path(path) => return Some(path),
            PathStep::More => {}
            PathStep::Failed => return None,
        }
    }
}

#[test]
fn a_path_is_copied_up_to_its_end() {
    assert_eq!(read_path(0x1000, b"/etc/passwd\0rest"), Some(path("/etc/passwd")));
    assert_eq!(read_path(0x1ffd, b"/etc/passwd\0rest"), Some(path("/etc/passwd")));
    assert_eq!(read_path(0, b"/etc\0"), None);
    assert_eq!(read_path(0x1000, b""), None);
    assert_eq!(read_path(0x1000, b"/no/end"), None);
    let mut long = vec![b'a'; 4095];
    long.push(0);
    assert_eq!(read_path(0x1234, &long).map(|path| path.bytes.len()), Some(4095));
    assert_eq!(read_path(0x1234, &vec![b'a'; 5000]), None);
}

#[test]
fn a_program_is_prepared_with_its_arguments_and_variables() {
    let mut options = TraceOptions::default();
    assert_eq!(options.timeout, 30_000);
    assert!(options.follow_forks);
    options.env.push(("LANG".to_owned(), "C".to_owned()));
    options.working_dir = Some(path("/tmp"));
    let launch = prepare(&path("/bin/echo"), &vec!["hi".to_owned()], &options).unwrap();
    assert_eq!(launch.program, b"/bin/echo");
    assert_eq!(launch.argv, vec![b"/bin/echo".to_vec(), b"hi".to_vec()]);
    assert_eq!(launch.envp, vec![b"LANG=C".to_vec()]);
    assert_eq!(launch.working_dir, Some(b"/tmp".to_vec()));
}

#[test]
fn a_string_that_holds_a_nul_is_refused() {
    let options = TraceOptions::default();
    let report = prepare(&path("/bin/\0"), &Vec::new(), &options).unwrap_err();
    assert_eq!(report.message, "program path /bin/\0");
    assert_eq!(
        report.causes,
        vec![
            "cannot pass a string containing a NUL byte to the traced program",
            "nul byte found in provided data at position: 5",
        ]
    );
    let report = prepare(&path("/bin/x"), &vec!["a\0b".to_owned()], &options).unwrap_err();
    assert_eq!(report.message, "argument \"a\\0b\"");
    let mut options = TraceOptions::default();
    options.env.push(("A".to_owned(), "\0".to_owned()));
    let report = prepare(&path("/bin/x"), &Vec::new(), &options).unwrap_err();
    assert_eq!(report.message, "environment variable \"A\"");
    assert_eq!(report.causes[1], "nul byte found in provided data at position: 2");
    let mut options = TraceOptions::default();
    options.working_dir = Some(path("\0"));
    let report = prepare(&path("/bin/x"), &Vec::new(), &options).unwrap_err();
    assert_eq!(report.message, "working directory");
}

fn registers(number: i64, result: i64, args: [u64; 6]) -> Option<Registers> {
    Some(Registers { number: number as u64, result: result as u64, args })
}

/// One whole call of process `pid`, whose path argument reads `text`.
fn call(supervisor: &mut Supervisor, pid: i32, number: i64, text: &str, result: i64) {
    let args = [0u64, 0x1000, 0, 0, 0, 0];
    assert_eq!(supervisor.on_event(Event::Syscall { pid }), Action::Inspect { pid });
    let entry = supervisor
        .syscall_stop(pid, registers(number, 0, args), Some(Phase::Entry))
        .expect("a call worth decoding");
    supervisor.entered(pid, &entry, &reads(&[Some(text)]));
    assert_eq!(supervisor.on_event(Event::Syscall { pid }), Action::Inspect { pid });
    assert!(supervisor
        .syscall_stop(pid, registers(number, result, args), Some(Phase::Exit))
        .is_none());
}

#[test]
fn a_failed_open_is_observed_but_grants_nothing() {
    let mut supervisor = Supervisor::new(10, path("/bin/cat"));
    call(&mut supervisor, 10, libc::SYS_openat, "/etc/hosts", 3);
    call(&mut supervisor, 10, libc::SYS_openat, "/etc/absent", -2);
    assert_eq!(supervisor.on_event(Event::Exited { pid: 10, code: 0 }), Action::Finish);

    let report = supervisor.finish();
    assert_eq!(report.exit_status(), Some(0));
    assert!(!report.timed_out());
    assert_eq!(report.observations().len(), 4);
    assert!(report.observations().iter().any(|one| !one.succeeded()));
    assert_eq!(texts(report.permissions().read_paths()), ["/etc/hosts"]);
    assert_eq!(texts(report.permissions().exec_paths()), ["/bin/cat"]);
    assert!(report.permissions().wants_spawn());
    assert!(!report.permissions().wants_network());
}

#[test]
fn an_exec_is_settled_by_the_trap_that_follows_it() {
    let mut supervisor = Supervisor::new(10, path("/bin/sh"));
    supervisor.on_event(Event::Syscall { pid: 10 });
    let args = [0x1000u64, 0, 0, 0, 0, 0];
    let entry = supervisor.syscall_stop(10, registers(libc::SYS_execve, 0, args), None).unwrap();
    supervisor.entered(10, &entry, &reads(&[Some("/bin/ls")]));
    assert_eq!(
        supervisor.on_event(Event::Stopped { pid: 10, signal: SIGTRAP }),
        Action::Resume { pid: 10, signal: None }
    );
    assert_eq!(supervisor.observations.len(), 4);
    assert!(supervisor.observations[3].succeeded);
    assert!(!supervisor.tracees[0].in_syscall);
    // A second trap has nothing left to settle.
    supervisor.on_event(Event::Stopped { pid: 10, signal: SIGTRAP });
    assert_eq!(supervisor.observations.len(), 4);
}

#[test]
fn an_exec_whose_trap_was_missed_is_settled_by_the_next_call() {
    let mut supervisor = Supervisor::new(10, path("/bin/sh"));
    let args = [0x1000u64, 0, 0, 0, 0, 0];
    let entry = supervisor.syscall_stop(10, registers(libc::SYS_execve, 0, args), None).unwrap();
    supervisor.entered(10, &entry, &reads(&[Some("/bin/ls")]));
    assert!(supervisor
        .syscall_stop(10, registers(libc::SYS_getpid, 0, args), Some(Phase::Entry))
        .is_none());
    assert_eq!(supervisor.observations.len(), 4);
    assert!(supervisor.observations.iter().all(|one| one.succeeded));
}

#[test]
fn signals_are_passed_on_and_children_join() {
    let mut supervisor = Supervisor::new(10, path("/bin/sh"));
    assert_eq!(supervisor.on_event(Event::StillAlive), Action::Sleep);
    assert_eq!(
        supervisor.on_event(Event::Stopped { pid: 10, signal: 15 }),
        Action::Resume { pid: 10, signal: Some(15) }
    );
    assert_eq!(
        supervisor.on_event(Event::Stopped { pid: 10, signal: SIGSTOP }),
        Action::Resume { pid: 10, signal: None }
    );
    assert_eq!(
        supervisor.on_event(Event::Forked { pid: 10 }),
        Action::Resume { pid: 10, signal: None }
    );
    // A process that was never seen before is a child, whatever stopped it.
    assert_eq!(
        supervisor.on_event(Event::Stopped { pid: 11, signal: 15 }),
        Action::Resume { pid: 11, signal: None }
    );
    assert_eq!(supervisor.on_event(Event::Continued), Action::Wait);
    assert_eq!(supervisor.on_event(Event::Exited { pid: 10, code: 3 }), Action::Wait);
    assert_eq!(supervisor.on_event(Event::Signaled { pid: 11 }), Action::Finish);
    assert_eq!(supervisor.finish().exit_status(), Some(3));
}

#[test]
fn the_timeout_fires_on_a_program_that_never_exits() {
    let mut supervisor = Supervisor::new(10, path("/bin/sleep"));
    assert_eq!(supervisor.on_event(Event::Timeout), Action::KillAll);
    let report = supervisor.finish();
    assert!(report.timed_out());
    assert_eq!(report.exit_status(), None);
    assert_eq!(report.observations().len(), 2);

    let mut supervisor = Supervisor::new(10, path("/bin/sleep"));
    assert_eq!(supervisor.on_event(Event::NoChildren), Action::Finish);
    assert!(!supervisor.finish().timed_out());
}

#[test]
fn words_are_read_up_to_what_is_wanted() {
    let mut reader = WordReader::new(0x1000, 11);
    assert!(!reader.done());
    assert_eq!(reader.next(), Some(0x1000));
    reader.word(b"abcdefgh");
    assert_eq!(reader.next(), Some(0x1008));
    reader.word(b"ijklmnop");
    assert!(reader.done());
    assert_eq!(reader.copied, b"abcdefghijk");

    assert_eq!(WordReader::new(u64::MAX, 4).next(), Some(u64::MAX));
    let mut reader = WordReader::new(u64::MAX - 3, 16);
    reader.word(b"abcdefgh");
    assert_eq!(reader.next(), None);
    assert!(matches!(WordReader::new(1, 4).failed(true), WordEnd::Nothing));
    let mut reader = WordReader::new(1, 16);
    reader.word(b"abcdefgh");
    assert!(matches!(reader.failed(true), WordEnd::Short(bytes) if bytes == b"abcdefgh"));
    let mut reader = WordReader::new(1, 16);
    reader.word(b"abcdefgh");
    assert!(matches!(reader.failed(false), WordEnd::Nothing));
}

#[test]
fn nothing_counts_once_the_time_is_up() {
    let exited = Event::Exited { pid: 1, code: 0 };
    assert!(matches!(
        wait_step(true, Waited::Status(exited)),
        WaitStep::Event(Event::Timeout)
    ));
    assert!(matches!(wait_step(false, Waited::Status(exited)), WaitStep::Event(e) if e == exited));
    assert!(matches!(wait_step(false, Waited::Status(Event::StillAlive)), WaitStep::Sleep));
    assert!(matches!(wait_step(false, Waited::Interrupted), WaitStep::Again));
    assert!(matches!(
        wait_step(false, Waited::NoChildren),
        WaitStep::Event(Event::NoChildren)
    ));
    match wait_step(false, Waited::Failed("EINVAL".to_owned())) {
        WaitStep::Fail(report) => {
            assert_eq!(report.message, "waitpid failed while tracing: EINVAL");
        }
        _ => panic!("a failed wait ends the trace"),
    }
}

#[test]
fn signals_have_the_kernels_numbers() {
    assert_eq!(SIGTRAP, libc::SIGTRAP);
    assert_eq!(SIGSTOP, libc::SIGSTOP);
}

#[test]
fn stops_alternate_where_the_kernel_does_not_say() {
    assert_eq!(phase(None, false), Phase::Entry);
    assert_eq!(phase(None, true), Phase::Exit);
    assert_eq!(phase(Some(Phase::Entry), true), Phase::Entry);
    assert_eq!(phase(Some(Phase::Exit), false), Phase::Exit);

    let mut supervisor = Supervisor::new(10, path("/bin/sh"));
    assert!(supervisor.syscall_stop(10, None, None).is_none());
    assert!(!supervisor.tracees[0].in_syscall);
}

#[test]
fn the_first_wait_decides_whether_there_is_anything_to_trace() {
    assert_eq!(
        first_step(Event::Stopped { pid: 5, signal: SIGTRAP }, ""),
        Ok(FirstStep::Begin { pid: 5 })
    );
    assert_eq!(
        first_step(Event::Exited { pid: 5, code: 127 }, ""),
        Ok(FirstStep::ReadFailure { code: 127 })
    );
    assert_eq!(first_step(Event::Timeout, ""), Ok(FirstStep::KillAll));
    assert!(first_step(Event::NoChildren, "").unwrap_err().message.contains("vanished"));
    assert_eq!(
        first_step(Event::Signaled { pid: 5 }, "Signaled(5)").unwrap_err().message,
        "unexpected first wait status from the tracee: Signaled(5)"
    );
    assert!(never_started().timed_out());
}

/// What a child that failed this way is reported as, and how the tracing program ends.
fn failed_child(failure: ChildFailure) -> (ChildFailure, u8) {
    assert_eq!(
        first_step(Event::Exited { pid: 5, code: 127 }, ""),
        Ok(FirstStep::ReadFailure { code: 127 })
    );
    match exited_early(127, &failure.to_wire().to_vec()) {
        Ok(EarlyEnd::Failed(named)) => (named, exit_code_for_child_failure(&named)),
        _ => panic!("a program that never execs must not report a clean, zero-observation audit"),
    }
}

#[test]
fn a_missing_program_is_named_as_an_execve_child_failure() {
    let (failure, _) = failed_child(ChildFailure::Execve(libc::ENOENT));
    assert!(
        matches!(failure, ChildFailure::Execve(_)),
        "expected ChildFailure::Execve, got {failure:?}"
    );
}

#[test]
fn a_missing_working_directory_is_named_as_a_chdir_child_failure() {
    let (failure, _) = failed_child(ChildFailure::Chdir(libc::ENOENT));
    assert!(
        matches!(failure, ChildFailure::Chdir(_)),
        "expected ChildFailure::Chdir, got {failure:?}"
    );
}

#[test]
fn an_unexecutable_program_exits_with_the_execve_code() {
    let (_, code) = failed_child(ChildFailure::Execve(libc::ENOENT));
    assert_ne!(code, 0, "a missing program must not look like success");
    assert_ne!(
        code, 127,
        "a missing program must not be confused with a tracee that itself exited 127"
    );
    assert_eq!(code, 4);
}

#[test]
fn a_missing_working_dir_exits_with_the_child_setup_code() {
    assert_eq!(failed_child(ChildFailure::Chdir(libc::ENOENT)).1, 6);
}

#[test]
fn a_program_that_never_started_is_not_a_clean_run() {
    match exited_early(127, &ChildFailure::Execve(libc::ENOENT).to_wire().to_vec()) {
        Ok(EarlyEnd::Failed(failure)) => assert_eq!(failure, ChildFailure::Execve(libc::ENOENT)),
        _ => panic!("the failure must be named"),
    }
    match exited_early(127, &Vec::new()) {
        Ok(EarlyEnd::Ran(report)) => {
            assert_eq!(report.exit_status(), Some(127));
            assert!(report.permissions().is_empty());
        }
        _ => panic!("an empty pipe means that the program ran"),
    }
    assert!(exited_early(127, &vec![1]).is_err());
}

#[test]
fn whatever_stops_while_everything_is_killed_is_killed_too() {
    assert_eq!(drain_step(Event::StillAlive), DrainStep::Sleep);
    assert_eq!(drain_step(Event::Stopped { pid: 4, signal: 9 }), DrainStep::Kill { pid: 4 });
    assert_eq!(drain_step(Event::Syscall { pid: 4 }), DrainStep::Kill { pid: 4 });
    assert_eq!(drain_step(Event::Forked { pid: 4 }), DrainStep::Kill { pid: 4 });
    assert_eq!(drain_step(Event::Exited { pid: 4, code: 0 }), DrainStep::Wait);
    assert_eq!(drain_step(Event::NoChildren), DrainStep::Done);
}

#[test]
fn a_status_does_not_outlive_the_time() {
    let mut supervisor = Supervisor::new(10, path("/bin/sh"));
    assert_eq!(
        supervisor.on_event(Event::Forked { pid: 11 }),
        Action::Resume { pid: 11, signal: None }
    );
    assert_eq!(supervisor.on_event(Event::Exited { pid: 10, code: 0 }), Action::Wait);
    assert_eq!(supervisor.exit_status, Some(0));
    assert_eq!(supervisor.on_event(Event::Timeout), Action::KillAll);
    assert_eq!(supervisor.exit_status, None);
    let report = supervisor.finish();
    assert!(report.timed_out());
    assert_eq!(report.exit_status(), None);

    let mut supervisor = Supervisor::new(10, path("/bin/sh"));
    supervisor.on_event(Event::Timeout);
    supervisor.on_event(Event::Exited { pid: 10, code: 0 });
    assert_eq!(supervisor.finish().exit_status(), None);

    assert_eq!(report_of(true).exit_status(), None);
    assert_eq!(report_of(false).exit_status(), Some(0));
}

fn report_of(timed_out: bool) -> pm::perms::monitor::TraceReport {
    report(Vec::new(), timed_out, Some(0))
}

#[test]
fn a_relative_path_is_never_called_resolved() {
    let traced = Supervisor::new(10, path("tools/cc")).finish();
    let started = &traced.observations()[1];
    assert!(traced.observations()[0].path_is_resolved());
    assert!(!started.path_is_resolved());
    assert_eq!(
        started.evidence(),
        "execve tools/cc (pid 10) [relative, dirfd unresolved - recorded as passed]"
    );
    assert!(Supervisor::new(10, path("/bin/cc")).finish().observations()[1].path_is_resolved());

    let call = entry(libc::SYS_connect, [3, 0x10, 110, 0, 0, 0]);
    for (bytes, resolved) in [(&b"/run/log\0"[..], true), (&b"run/log\0"[..], false)] {
        let mut found = reads(&[]);
        found.sockaddr = Some(address(libc::AF_UNIX, bytes));
        let observations = decode(3, &call, &found);
        assert_eq!(observations.len(), 1);
        assert_eq!(observations[0].path_is_resolved(), resolved);
    }
}

#[test]
fn the_record_opens_with_the_program_that_was_started() {
    let mut supervisor = Supervisor::new(10, path("/bin/sh"));
    call(&mut supervisor, 10, libc::SYS_openat, "/etc/hosts", 3);
    supervisor.on_event(Event::Exited { pid: 10, code: 0 });
    let report = supervisor.finish();
    assert_eq!(report.observations()[0].permission(), &Permission::Spawn);
    assert_eq!(report.observations()[1].permission(), &Permission::ExecPath(path("/bin/sh")));
    let granted: Vec<&Permission> =
        report.permissions().grants().iter().map(Grant::permission).collect();
    assert_eq!(
        granted,
        [&Permission::Spawn, &Permission::ExecPath(path("/bin/sh")), &read("/etc/hosts")],
        "a profile keeps the order things were first seen in"
    );
}

#[test]
fn what_follows_a_child_failure_is_not_looked_at() {
    let mut message = ChildFailure::Execve(2).to_wire().to_vec();
    message.extend_from_slice(&[7, 7]);
    assert_eq!(read_child_failure(&message), Ok(Some(ChildFailure::Execve(2))));
    assert_eq!(
        read_child_failure(&vec![1, 0, 0, 0]).unwrap_err().message,
        "the child-failure pipe delivered 4 of 5 expected bytes"
    );
    assert!(read_child_failure(&vec![0, 0, 0, 0, 0, 1]).is_err());
}
