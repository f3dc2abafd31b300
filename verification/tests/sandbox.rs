//! The jail: what is mounted in it, and how commands are found.

use hakoniwa::{Container, MountOptions};
use pm::context::BuildContext;
use pm::path::FilePath;
use pm::policy::BuildPolicy;
use pm::progress::{Progress, Moment, Task};
use pm::report::Report;
use pm::sandbox::{
    basename, cannot_run, conclude_jailed, conclude_on_host, jail_command, parse_command,
    rootfs_roots, toolchain_roots, BuildSandbox, Captured, Drain, Extra, Lookup, Mode,
    CONTAINER_PATH, MOUNT_RDONLY, NIX_STORE, RO_OPTIONS, RW_OPTIONS,
};

fn path(text: &str) -> FilePath {
    FilePath::from_text(text)
}

fn paths(texts: &[&str]) -> Vec<FilePath> {
    texts.iter().map(|text| path(text)).collect()
}

fn shown(list: &[FilePath]) -> Vec<String> {
    list.iter().map(FilePath::display).collect()
}

fn context() -> BuildContext {
    BuildContext::captured(
        path("/home/me/project"),
        path("/home/me/.config/pm/trusted"),
        Some(path("/opt/tool/bin:relative::/usr/bin:/opt/more")),
        Some(path("/home/me")),
    )
}

fn policy(network: bool) -> BuildPolicy {
    BuildPolicy { network, fingerprint: "f00".to_owned() }
}

fn found(asked: &str, canonical: &str) -> Extra {
    Extra {
        asked: path(asked),
        lookup: Lookup::Found { canonical: path(canonical), is_dir: true },
    }
}

fn sandbox(network: bool) -> BuildSandbox {
    let made = BuildSandbox::new_in(
        &context(),
        &policy(network),
        found("work", "/tmp/ws/work"),
        found("pkg", "/tmp/ws/pkg"),
        Ok(()),
        paths(&["/nix/store", "/opt/tool/bin"]),
        vec![found("/src/../src", "/src")],
    );
    match made {
        Ok(sandbox) => sandbox,
        Err(report) => panic!("{report:?}"),
    }
}

#[test]
fn only_outermost_admitted_directories_are_toolchain_roots() {
    let candidates = paths(&[
        "/usr/bin",
        "/opt/tool/bin",
        "/home/me/.local/bin",
        NIX_STORE,
        "/opt/tool",
        "/",
        "/home",
        "/usrlocal/bin",
        "/nix/store/abc/bin",
        "/opt/tool",
    ]);
    let roots = toolchain_roots(&candidates, &Some(path("/home/me")));
    assert_eq!(shown(&roots), ["/nix/store", "/opt/tool", "/usrlocal/bin"]);

    let roots = toolchain_roots(&candidates, &None);
    assert_eq!(shown(&roots), ["/home", "/nix/store", "/opt/tool", "/usrlocal/bin"]);
    assert!(toolchain_roots(&Vec::new(), &None).is_empty());
}

#[test]
fn directories_come_before_what_is_in_them() {
    let roots = toolchain_roots(&paths(&["/b", "/a!", "/a/x", "/a", "/A"]), &None);
    assert_eq!(shown(&roots), ["/A", "/a", "/a!", "/b"]);
}

#[test]
fn the_two_staging_directories_are_the_only_writable_mounts() {
    let sandbox = sandbox(false);
    let Mode::Jailed(plan) = &sandbox.mode else { panic!("a jail was asked for") };
    let mounts: Vec<(&str, &str, u32)> = plan
        .mounts
        .iter()
        .map(|mount| (mount.source.as_str(), mount.target.as_str(), mount.options))
        .collect();
    assert_eq!(
        mounts,
        [
            ("/tmp/ws/work", "/build", RW_OPTIONS),
            ("/tmp/ws/pkg", "/dest", RW_OPTIONS),
            ("/nix/store", "/nix/store", RO_OPTIONS),
            ("/opt/tool/bin", "/opt/tool/bin", RO_OPTIONS),
            ("/src", "/src", RO_OPTIONS),
        ]
    );
    assert_eq!(plan.mounts.iter().filter(|mount| mount.options & MOUNT_RDONLY == 0).count(), 2);
    assert_eq!(
        shown(&sandbox.visible),
        [
            "/bin", "/etc", "/lib", "/lib32", "/lib64", "/sbin", "/usr", "/nix/store",
            "/opt/tool/bin", "/src",
        ]
    );
    assert_eq!(shown(&rootfs_roots()), shown(&sandbox.visible[..7]));
    assert_eq!(sandbox.workdir, path("/tmp/ws/work"));
    assert_eq!(sandbox.destdir, path("/tmp/ws/pkg"));
    assert!(!sandbox.progress().is_live());
}

#[test]
fn a_plan_configures_a_container() {
    let writable =
        MountOptions::BIND | MountOptions::REC | MountOptions::NOSUID | MountOptions::NODEV;
    assert_eq!(MountOptions::from_bits_retain(RW_OPTIONS), writable);
    assert_eq!(MountOptions::from_bits_retain(RO_OPTIONS), writable | MountOptions::RDONLY);
    let sandbox = sandbox(false);
    let Mode::Jailed(plan) = &sandbox.mode else { panic!("a jail was asked for") };
    let mut container = Container::empty();
    plan.configure(&mut container);
    let text = format!("{container:?}");
    for wanted in [
        "\"/dev\": Mount { source: \"devfs\", target: \"/dev\", fstype: \"devfs\"",
        "\"/tmp\": Mount { source: \"tmpfs\", target: \"/tmp\", fstype: \"tmpfs\", options: MountOptions(NOSUID | NODEV)",
        "\"/build\": Mount { source: \"/tmp/ws/work\", target: \"/build\", fstype: \"\", options: MountOptions(NOSUID | NODEV | BIND | REC)",
        "\"/dest\": Mount { source: \"/tmp/ws/pkg\"",
        "\"/src\": Mount { source: \"/src\", target: \"/src\", fstype: \"\", options: MountOptions(RDONLY | NOSUID | NODEV | BIND | REC)",
        "namespaces: {Network}",
        "runctl: {MountFallback}",
    ] {
        assert!(text.contains(wanted), "{wanted} is missing from {text}");
    }
}

#[test]
fn a_policy_that_grants_the_network_shares_it() {
    let sandbox = sandbox(true);
    let Mode::Jailed(plan) = &sandbox.mode else { panic!("a jail was asked for") };
    assert!(plan.network);
    let mut container = Container::empty();
    plan.configure(&mut container);
    assert!(format!("{container:?}").contains("namespaces: {}"));
}

fn failure(
    workdir: Extra,
    destdir: Extra,
    rootfs: Result<(), Report>,
    roots: Vec<FilePath>,
    extra: Vec<Extra>,
) -> Report {
    match BuildSandbox::new_in(&context(), &policy(false), workdir, destdir, rootfs, roots, extra) {
        Ok(_) => panic!("this jail cannot be set up"),
        Err(report) => report,
    }
}

fn missing(asked: &str) -> Extra {
    Extra { asked: path(asked), lookup: Lookup::Missing(Report::new("ENOENT".to_owned())) }
}

fn not_a_directory(asked: &str) -> Extra {
    Extra {
        asked: path(asked),
        lookup: Lookup::Found { canonical: path(asked), is_dir: false },
    }
}

fn not_text() -> FilePath {
    FilePath::from_bytes(b"/x/\xff")
}

#[test]
fn a_jail_that_cannot_be_set_up_says_why() {
    let good = || found("/w", "/w");
    let text = "Path `/x/\u{fffd}` is not valid UTF-8 and cannot be used inside the build sandbox";
    let odd = || Extra {
        asked: path("/x"),
        lookup: Lookup::Found { canonical: not_text(), is_dir: true },
    };

    let report = failure(missing("/w"), missing("/d"), Ok(()), vec![], vec![]);
    assert_eq!(report.message, "the build sandbox working directory `/w` does not exist");
    assert_eq!(report.causes, ["ENOENT"]);
    let report = failure(good(), not_a_directory("/d"), Ok(()), vec![], vec![]);
    assert_eq!(report.message, "the build sandbox staging directory `/d` is not a directory");
    let report =
        failure(odd(), good(), Err(Report::new("io".to_owned())), vec![not_text()], vec![]);
    assert_eq!(
        report.message,
        "cannot mirror the host system directories into the build sandbox"
    );
    assert_eq!(failure(odd(), good(), Ok(()), vec![], vec![missing("/e")]).message, text);
    assert_eq!(failure(good(), odd(), Ok(()), vec![], vec![missing("/e")]).message, text);
    let report = failure(good(), good(), Ok(()), vec![path("/a"), not_text()], vec![missing("/e")]);
    assert_eq!(report.message, text);
    let report = failure(good(), good(), Ok(()), vec![], vec![good(), missing("/e")]);
    assert_eq!(
        report.message,
        "cannot expose `/e` to the build sandbox: it does not exist"
    );
    assert_eq!(failure(good(), good(), Ok(()), vec![], vec![odd()]).message, text);
}

#[test]
fn commands_are_split_into_words() {
    let line = parse_command("  make\tinstall  PREFIX=/usr\n", "s").unwrap();
    assert_eq!(line.program, "make");
    assert_eq!(line.args, ["install", "PREFIX=/usr"]);
    assert_eq!(
        parse_command(" \t ", "build").unwrap_err().message,
        "Step `build` contains an empty command; every entry of `run` must name a program"
    );
}

fn none() -> Result<FilePath, Report> {
    Err(Report::new("ENOENT".to_owned()))
}

#[test]
fn a_bare_program_is_looked_for_in_absolute_directories() {
    let sandbox = sandbox(false);
    assert_eq!(
        shown(&sandbox.candidates("make")),
        ["/opt/tool/bin/make", "/usr/bin/make", "/opt/more/make"]
    );
    let found = paths(&["/opt/more/make", "/usr/bin/gmake"]);
    assert_eq!(sandbox.resolve("make", "s", &found, none()).unwrap(), "/usr/bin/gmake");
    assert_eq!(
        sandbox.resolve("make", "s", &Vec::new(), none()).unwrap_err().message,
        "Step `s` wants `make`, which is not on PATH. The build sandbox execs programs directly - \
         there is no shell and no PATH search inside it - so the program has to exist on the host \
         that configures the jail."
    );
    let hidden = paths(&["/opt/more/make", "/root/make"]);
    assert_eq!(
        sandbox.resolve("make", "s", &hidden, none()).unwrap_err().message,
        "Step `s` wants `make`, which resolves to `/opt/more/make`, `/root/make` on this host - \
         outside every directory the build sandbox can see. Pass the directory holding it to \
         `BuildSandbox::new` as an `extra_ro` path, or install the program under /usr."
    );
    let odd = vec![FilePath::from_bytes(b"/usr/\xff")];
    assert!(sandbox.resolve("make", "s", &odd, none()).is_err());
}

#[test]
fn a_program_with_a_slash_is_taken_where_it_is() {
    let sandbox = sandbox(false);
    let at = |program: &str, canonical: Result<FilePath, Report>| {
        sandbox.resolve(program, "s", &Vec::new(), canonical)
    };
    assert_eq!(at("./configure", none()).unwrap(), "./configure");
    assert_eq!(at("/tmp/ws/work/sub/configure", none()).unwrap(), "/build/sub/configure");
    assert_eq!(at("/tmp/ws/pkg//bin/x", none()).unwrap(), "/dest/bin/x");
    assert_eq!(at("/bin/sh", Ok(path("/usr/bin/dash"))).unwrap(), "/usr/bin/dash");
    let report = at("/bin/nope", none()).unwrap_err();
    assert_eq!(report.message, "Step `s` wants `/bin/nope`, which does not exist on this host");
    assert_eq!(report.causes, ["ENOENT"]);
    assert_eq!(
        at("/bin/sh", Ok(path("/home/me/sh"))).unwrap_err().message,
        "Step `s` wants `/bin/sh`, which resolves to `/home/me/sh` - outside every directory the \
         build sandbox can see. Pass the directory holding it to `BuildSandbox::new` as an \
         `extra_ro` path."
    );
}

#[test]
fn a_program_is_labelled_by_its_last_part() {
    assert_eq!(basename("/usr/bin/make"), "make");
    assert_eq!(basename("make"), "make");
    assert_eq!(basename("dir/"), "");
    assert_eq!(basename(""), "");
}

#[test]
fn a_failed_command_shows_what_was_captured() {
    let quiet = Captured::stderr_only(b" \n".to_vec());
    assert_eq!(quiet.describe(), "stderr:\n<no output>");
    assert_eq!(quiet.warnings(), None);
    let both = Captured { stdout: Some(b"one\n".to_vec()), stderr: b"\xfftwo\n".to_vec() };
    assert_eq!(both.describe(), "stdout:\none\nstderr:\n\u{fffd}two");
    assert_eq!(both.warnings().as_deref(), Some("\u{fffd}two"));

    assert!(conclude_jailed("make", "s", 0, "", &quiet).is_ok());
    assert_eq!(
        conclude_jailed("make", "s", -2, "killed", &both).unwrap_err().message,
        "Command `make` in step `s` failed inside the build sandbox with code -2 (killed)\nstdout:\
         \none\nstderr:\n\u{fffd}two"
    );
    assert!(conclude_on_host("make", "s", true, "", &quiet).is_ok());
    assert_eq!(
        conclude_on_host("make", "s", false, "exit status: 2", &quiet).unwrap_err().message,
        "Command `make` in step `s` failed with exit status: 2\nstderr:\n<no output>"
    );
}

#[test]
fn a_command_that_cannot_run_says_where() {
    let report = || Report::new("ENOMEM".to_owned());
    assert_eq!(
        cannot_run(&sandbox(false), "make", "s", report()).message,
        "Failed to run `make` for step `s` in the build sandbox"
    );
    let host = BuildSandbox::unsandboxed(path("/w"), path("/d"));
    assert!(matches!(host.mode, Mode::Host));
    assert!(host.visible.is_empty());
    assert_eq!(
        cannot_run(&host, "make", "s", report()).message,
        "Failed to spawn `make` in `/w` for step `s`"
    );
}

#[test]
fn output_is_kept_whole_while_its_lines_are_shown() {
    let mut drain = Drain::new();
    assert_eq!(drain.line(b"  CC x.o \r\n").as_deref(), Some("  CC x.o"));
    assert_eq!(drain.line(b" \n"), None);
    assert_eq!(drain.line(b"done").as_deref(), Some("done"));
    assert_eq!(drain.captured, b"  CC x.o \r\n \ndone");
}

#[test]
fn a_jailed_command_has_a_small_environment() {
    let args = vec!["install".to_owned(), "-j4".to_owned()];
    let command = jail_command(&Container::empty(), "/usr/bin/make", &args);
    assert_eq!(command.get_program(), "/usr/bin/make");
    assert_eq!(command.get_args(), args);
    assert_eq!(command.get_current_dir().map(|dir| dir.display().to_string()).as_deref(), Some("/build"));
    let mut variables: Vec<(String, String)> = command.get_envs().into_iter().collect();
    variables.sort();
    let expected = [
        ("DESTDIR", "/dest"),
        ("HOME", "/build"),
        ("LC_ALL", "C"),
        ("PATH", CONTAINER_PATH),
        ("TMPDIR", "/tmp"),
    ];
    let shown: Vec<(&str, &str)> =
        variables.iter().map(|(name, value)| (name.as_str(), value.as_str())).collect();
    assert_eq!(shown, expected);
}

#[test]
fn a_sandbox_reports_under_the_line_it_is_given() {
    let now = Moment { nanos: 0, wall_usec: 0 };
    let mut progress = Progress::silent();
    let task = progress.task("zlib".to_owned(), now);
    let sandbox = sandbox(false).with_progress(task.handle());
    assert!(sandbox.progress().is_live());
    let child: Task = sandbox.progress().child(&mut progress, basename("/usr/bin/make"), now);
    assert_eq!(progress.nodes()[1].label, "make");
    child.close(&mut progress, now);
    task.close(&mut progress, now);
}
