//! What resolution accepts, what it rejects, the order it hands packages back in,
//! and what a schedule does with them.

use pm::bf::{BuildFile, Verification};
use pm::cancel::Cancel;
use pm::graph::{Ask, Graph, Probe, Resolver};
use pm::path::FilePath;
use pm::policy::BuildPolicy;
use pm::report::Report;
use pm::schedule::{
    attempt_failed, attempt_panicked, render, workers, Claim, Progression, Schedule,
};
use pm::step::{Stage, Step};

/// Build files by their path, as they would lie in one directory.
struct Disk {
    files: Vec<(String, BuildFile)>,
}

fn path(text: &str) -> FilePath {
    FilePath::from_text(text)
}

impl Disk {
    fn new() -> Disk {
        Disk { files: Vec::new() }
    }

    /// Writes a build file named `name` at `/w/<file>.yaml` depending on `deps`.
    fn add(&mut self, file: &str, name: &str, version: &[&str], deps: &[&str], run: &[&str]) -> String {
        let at = format!("/w/{file}.yaml");
        let build = BuildFile {
            name: name.to_owned(),
            version: version.iter().map(|part| (*part).to_owned()).collect(),
            dependencies: deps.iter().map(|dep| path(dep)).collect(),
            steps: vec![Step {
                stage: Stage::Install,
                dl_urls: None,
                name: "install".to_owned(),
                run: run.iter().map(|command| (*command).to_owned()).collect(),
            }],
            source: Some(path(&at)),
            verification: Verification::Unverified,
        };
        self.files.push((at.clone(), build));
        at
    }

    fn package(&mut self, name: &str, deps: &[&str]) -> String {
        self.add(name, name, &["1"], deps, &[])
    }

    fn find(&self, at: &FilePath) -> Option<&BuildFile> {
        self.files
            .iter()
            .find(|(name, _)| path(name).same(at))
            .map(|(_, build)| build)
    }
}

/// A command that no fingerprint matches cannot be classified.
fn derive(build: &BuildFile, permissive: bool) -> Result<BuildPolicy, Report> {
    let known = build
        .steps
        .iter()
        .all(|step| step.run.iter().all(|command| command.starts_with("/bin/sh")));
    if known || permissive {
        Ok(BuildPolicy { network: false, fingerprint: "none".to_owned() })
    } else {
        Err(Report::new("no fingerprint matches".to_owned()))
    }
}

/// Resolves the graph rooted at `at`, counting how many build files were read.
fn resolve_from(disk: &Disk, cwd: &str, at: &str, reads: &mut usize) -> Result<Graph, Report> {
    let root = disk.find(&path(at)).expect("the root build file must load");
    let (mut resolver, mut ask) = Resolver::start(path(cwd), root, Some(path(at)), false);
    loop {
        let (next, question) = match ask {
            Ask::Policy { build, permissive } => resolver.policy_derived(derive(&build, permissive))?,
            Ask::Probe { path: wanted } => match disk.find(&wanted) {
                Some(_) => resolver.probed(Probe::At(wanted))?,
                None => resolver.probed(Probe::NotAFile)?,
            },
            Ask::Load { key, .. } => {
                *reads += 1;
                let build = disk.find(&key).expect("the file was there a moment ago");
                resolver.loaded(Ok(build.clone()))?
            }
            Ask::Done => return resolver.finish(),
        };
        resolver = next;
        ask = question;
    }
}

fn resolve(disk: &Disk, at: &str) -> Result<Graph, Report> {
    resolve_from(disk, "/w", at, &mut 0)
}

fn refused(result: Result<Graph, Report>) -> Report {
    match result {
        Ok(_) => panic!("this graph must not resolve"),
        Err(report) => report,
    }
}

#[test]
fn a_build_file_with_no_dependencies_resolves_to_itself_alone() {
    let mut disk = Disk::new();
    let only = disk.package("solo", &[]);

    let graph = resolve(&disk, &only).expect("a dependency-free build file must resolve");

    assert_eq!(graph.len(), 1);
    assert!(!graph.is_empty());
    assert_eq!(graph.order(), ["solo"]);
}

fn diamond(disk: &mut Disk) -> String {
    let shared = disk.package("shared", &[]);
    let left = disk.package("left", &[&shared]);
    let right = disk.package("right", &[&shared]);
    disk.package("top", &[&left, &right])
}

#[test]
fn a_diamond_resolves_to_one_node_per_build_file() {
    let mut disk = Disk::new();
    let top = diamond(&mut disk);
    let mut reads = 0;

    let graph = resolve_from(&disk, "/w", &top, &mut reads).expect("a diamond must resolve");

    assert_eq!(graph.len(), 4, "the shared package was duplicated: {:?}", graph.order());
    assert_eq!(reads, 3, "each dependency is read once");
}

#[test]
fn dependencies_come_before_the_packages_that_need_them() {
    let mut disk = Disk::new();
    let top = diamond(&mut disk);

    let graph = resolve(&disk, &top).expect("a diamond must resolve");
    let order = graph.order();

    let position = |name: &str| {
        order
            .iter()
            .position(|package| *package == name)
            .unwrap_or_else(|| panic!("{name} is missing from {order:?}"))
    };
    assert!(position("shared") < position("left"), "{order:?}");
    assert!(position("shared") < position("right"), "{order:?}");
    assert!(position("left") < position("top"), "{order:?}");
    assert!(position("right") < position("top"), "{order:?}");
}

#[test]
fn a_cycle_is_rejected_and_the_diagnostic_names_the_chain() {
    let mut disk = Disk::new();
    let first = disk.add("cyclea", "cyclea", &["0"], &["/w/cycleb.yaml"], &[]);
    disk.add("cycleb", "cycleb", &["0"], &["/w/cyclea.yaml"], &[]);

    let report = refused(resolve(&disk, &first)).message;

    assert!(report.contains("cycle"), "the diagnostic must say what is wrong: {report}");
    assert!(
        report.contains("cyclea.yaml") && report.contains("cycleb.yaml"),
        "the diagnostic must name both ends of the chain: {report}"
    );
    assert_eq!(
        report,
        "dependency cycle: /w/cyclea.yaml -> /w/cycleb.yaml -> /w/cyclea.yaml"
    );
}

#[test]
fn a_cycle_below_the_root_starts_where_it_is_entered() {
    let mut disk = Disk::new();
    let root = disk.package("root", &["/w/a.yaml"]);
    disk.package("a", &["/w/b.yaml"]);
    disk.package("b", &["a.yaml"]);

    assert_eq!(
        refused(resolve(&disk, &root)).message,
        "dependency cycle: /w/a.yaml -> /w/b.yaml -> /w/a.yaml"
    );
}

#[test]
fn a_package_that_depends_on_itself_is_a_cycle() {
    let mut disk = Disk::new();
    let root = disk.add("narcissus", "narcissus", &["0"], &["/w/narcissus.yaml"], &[]);

    assert!(
        refused(resolve(&disk, &root)).message.contains("cycle"),
        "a one-node cycle is still a cycle"
    );
}

#[test]
fn a_dependency_that_is_not_a_build_file_is_rejected_by_name() {
    let mut disk = Disk::new();
    let top = disk.package("top", &["/w/absent.yaml"]);

    let report = refused(resolve(&disk, &top)).message;

    assert!(
        report.contains("absent.yaml"),
        "the diagnostic must name the path that is missing: {report}"
    );
    assert_eq!(report, "dependency of top is not a build file: /w/absent.yaml");
}

#[test]
fn two_packages_claiming_one_archive_name_are_rejected() {
    let mut disk = Disk::new();
    let first = disk.add("first", "clash", &["1"], &[], &[]);
    let second = disk.add("second", "clash", &["1"], &[], &[]);
    let top = disk.package("top", &[&first, &second]);

    let report = refused(resolve(&disk, &top)).message;

    assert!(
        report.contains("clash-1.cpkg") || report.contains("clash"),
        "the diagnostic must name the archive being fought over: {report}"
    );
    assert_eq!(
        report,
        "two build files in this graph both package to `clash-1.cpkg`: /w/first.yaml and \
         /w/second.yaml; rename or re-version one of them"
    );
}

#[test]
fn a_build_file_whose_commands_cannot_be_classified_is_rejected() {
    let mut disk = Disk::new();
    let weird = disk.add(
        "weird",
        "weird",
        &["1"],
        &[],
        &["/pm-integration-test/not-a-known-build-command --wat"],
    );
    let top = disk.package("top", &[&weird]);

    let report = refused(resolve(&disk, &top));
    assert!(report.message.starts_with("cannot derive a sandbox policy for weird; run `pm explain`"));
    assert_eq!(report.causes, vec!["no fingerprint matches"]);
}

#[test]
fn a_dependency_that_cannot_be_resolved_or_read_is_reported() {
    let mut disk = Disk::new();
    let top = disk.package("top", &["dep.yaml"]);
    let root = disk.find(&path(&top)).unwrap();
    let policy = || BuildPolicy { network: true, fingerprint: String::new() };

    let (resolver, _) = Resolver::start(path("/w"), root, None, true);
    let (resolver, ask) = match resolver.policy_derived(Ok(policy())) {
        Ok(next) => next,
        Err(report) => panic!("{report:?}"),
    };
    match ask {
        Ask::Probe { path: wanted } => assert_eq!(wanted, path("/w/dep.yaml")),
        _ => panic!("the dependency must be looked up"),
    }
    let failed = resolver.probed(Probe::Unresolvable(Report::new("denied".to_owned())));
    let report = failed.err().expect("there is nothing to go on with");
    assert_eq!(report.message, "cannot resolve dependency dep.yaml");
    assert_eq!(report.causes, vec!["denied"]);

    let (resolver, _) = Resolver::start(path("/w"), root, None, true);
    let (resolver, _) = resolver.policy_derived(Ok(policy())).ok().unwrap();
    let (resolver, ask) = resolver.probed(Probe::At(path("/real/dep.yaml"))).ok().unwrap();
    match ask {
        Ask::Load { key, verification } => {
            assert_eq!(key, path("/real/dep.yaml"));
            assert_eq!(verification, Verification::Unverified);
        }
        _ => panic!("the dependency must be read"),
    }
    let failed = resolver.loaded(Err(Report::new("bad yaml".to_owned())));
    let report = failed.err().expect("there is nothing to go on with");
    assert_eq!(report.message, "dependency /real/dep.yaml failed");
}

#[test]
fn relative_dependency_paths_resolve_against_ctx_cwd() {
    // The dependency is named only by a RELATIVE path from a root that lies elsewhere.
    let mut disk = Disk::new();
    disk.package("dep", &[]);
    let root = disk.package("rootcheck", &["dep.yaml"]);

    let graph = resolve_from(&disk, "/w", &root, &mut 0)
        .ok()
        .expect("a relative dependency path must resolve against ctx.cwd");
    assert_eq!(graph.nodes[0].key, path("/w/dep.yaml"));

    let report = refused(resolve_from(&disk, "/elsewhere", &root, &mut 0));
    assert_eq!(report.message, "dependency of rootcheck is not a build file: dep.yaml");
}

#[test]
fn a_dependency_that_does_not_exist_fails_the_build_and_names_the_path() {
    let mut disk = Disk::new();
    let missing = "/w/no-such-dependency.yaml";
    let root = disk.add("build", "needsmissing", &["0"], &[missing], &[]);
    let report = refused(resolve(&disk, &root)).message;
    assert!(
        report.contains(missing),
        "the diagnostic must name the missing dependency, got: {report}"
    );
}

#[test]
fn a_root_that_is_not_on_disk_resolves_by_itself() {
    let root = BuildFile::generate();
    let (resolver, ask) = Resolver::start(path("/w"), &root, None, false);
    match ask {
        Ask::Policy { build, permissive } => {
            assert_eq!(build.name(), "example");
            assert!(!permissive);
        }
        _ => panic!("the root needs a policy"),
    }
    let policy = BuildPolicy { network: false, fingerprint: String::new() };
    let (resolver, ask) = resolver.policy_derived(Ok(policy)).ok().unwrap();
    assert!(matches!(ask, Ask::Done));
    let graph = resolver.finish().ok().unwrap();
    assert_eq!(graph.nodes[0].key, path("<in-memory build file>"));
}

#[test]
fn dependencies_are_read_as_strictly_as_the_root() {
    let mut disk = Disk::new();
    let top = diamond(&mut disk);
    for (_, build) in &mut disk.files {
        if build.name == "top" {
            build.verification = Verification::Signed;
        }
    }
    let graph = resolve(&disk, &top).ok().unwrap();
    for node in &graph.nodes {
        assert_eq!(node.build.verification(), Verification::Signed);
    }
}

// --- Building the resolved graph -------------------------------------------

/// What became of one build: the result, what was built in what order, and the most
/// packages that were in flight at once.
struct Run {
    result: Result<FilePath, Report>,
    built: Vec<String>,
    most: usize,
}

/// Builds `graph` with `jobs` workers; the packages in `failing` fail.
fn build(graph: &Graph, jobs: usize, failing: &[&str]) -> Run {
    let workers = workers(Some(jobs), 1, graph.len());
    let mut schedule = Schedule::new(graph);
    let mut running: Vec<usize> = Vec::new();
    let mut built = Vec::new();
    let mut most = 0;
    loop {
        while running.len() < workers {
            match schedule.claim(graph) {
                Claim::Package { index, archives } => {
                    assert_eq!(archives.len(), graph.nodes[index].dependencies.len());
                    running.push(index);
                }
                Claim::Over | Claim::Wait => break,
            }
        }
        assert_eq!(schedule.running(), running.len());
        most = most.max(running.len());
        if running.is_empty() {
            break;
        }
        let index = running.remove(0);
        let name = graph.nodes[index].build.name().to_owned();
        if failing.contains(&name.as_str()) {
            let report = Report::new(format!("{name} is doomed"));
            schedule.settle(graph, index, Err(attempt_failed(&name, report)));
        } else {
            let archive = graph.nodes[index].build.archive_name();
            schedule.settle(graph, index, Ok(path(&format!("/out/{archive}"))));
            built.push(name);
        }
    }
    Run { result: schedule.outcome(graph), built, most }
}

#[test]
fn a_graph_builds_every_package_and_returns_the_roots_archive() {
    let mut disk = Disk::new();
    let left = disk.package("gleft", &[]);
    let right = disk.package("gright", &[]);
    let top = disk.package("gtop", &[&left, &right]);

    let run = build(&resolve(&disk, &top).ok().unwrap(), 4, &[]);
    let archive = run.result.expect("the graph must build");

    assert_eq!(
        archive.file_name().expect("the archive must have a name"),
        path("gtop-1.cpkg"),
        "the build must hand back the ROOT's archive"
    );
    for name in ["gleft", "gright", "gtop"] {
        assert!(run.built.iter().any(|built| built == name), "{name} was not produced");
    }
}

#[test]
fn independent_packages_build_at_the_same_time() {
    let mut disk = Disk::new();
    let deps: Vec<String> = (0..4).map(|i| disk.package(&format!("par{i}"), &[])).collect();
    let borrowed: Vec<&str> = deps.iter().map(String::as_str).collect();
    let top = disk.package("partop", &borrowed);

    let run = build(&resolve(&disk, &top).ok().unwrap(), 4, &[]);
    run.result.expect("the graph must build");
    assert_eq!(run.most, 4, "four independent packages must overlap with four workers");
}

#[test]
fn one_job_builds_them_one_at_a_time() {
    let mut disk = Disk::new();
    let deps: Vec<String> = (0..3).map(|i| disk.package(&format!("seq{i}"), &[])).collect();
    let borrowed: Vec<&str> = deps.iter().map(String::as_str).collect();
    let top = disk.package("seqtop", &borrowed);

    let run = build(&resolve(&disk, &top).ok().unwrap(), 1, &[]);
    run.result.expect("the graph must build");
    assert_eq!(run.most, 1, "they must not have overlapped");
}

#[test]
fn an_unrelated_package_still_builds_when_another_fails() {
    let mut disk = Disk::new();
    let doomed = disk.package("fdoomed", &[]);
    let fine = disk.package("ffine", &[]);
    let top = disk.package("ftop", &[&doomed, &fine]);

    let run = build(&resolve(&disk, &top).ok().unwrap(), 4, &["fdoomed"]);
    let error = run.result.expect_err("a failing dependency must fail the build");

    assert_eq!(
        run.built,
        ["ffine"],
        "a package unrelated to the failure must still have been built"
    );
    assert!(error.message.contains("fdoomed"), "the diagnostic must name what failed: {error:?}");
    assert_eq!(
        error.message,
        "1 of 3 packages failed\n\n  fdoomed\n    package fdoomed failed\n      fdoomed is \
         doomed\n\n1 skipped because a dependency failed: ftop\n"
    );
}

#[test]
fn every_independent_failure_is_reported_not_just_the_first() {
    let mut disk = Disk::new();
    let first = disk.package("mfirst", &[]);
    let second = disk.package("msecond", &[]);
    let top = disk.package("mtop", &[&first, &second]);

    let run = build(&resolve(&disk, &top).ok().unwrap(), 4, &["mfirst", "msecond"]);
    let report = run.result.expect_err("both dependencies fail").message;

    assert!(
        report.contains("mfirst") && report.contains("msecond"),
        "both independent failures must be reported, got: {report}"
    );
}

#[test]
fn a_package_whose_dependency_failed_is_never_started() {
    let mut disk = Disk::new();
    let doomed = disk.package("sdoomed", &[]);
    let dependent = disk.package("sdependent", &[&doomed]);
    let top = disk.package("stop", &[&dependent]);

    let run = build(&resolve(&disk, &top).ok().unwrap(), 4, &["sdoomed"]);
    let report = run.result.expect_err("the build must fail").message;

    assert!(run.built.is_empty(), "nothing above the failure must be built: {:?}", run.built);
    assert!(
        report.to_lowercase().contains("skip"),
        "the diagnostic must say what was skipped and why: {report}"
    );
    assert!(report.ends_with("2 skipped because a dependency failed: sdependent, stop\n"));
}

#[test]
fn a_shared_dependency_is_built_once_however_many_workers_there_are() {
    let mut disk = Disk::new();
    let shared = disk.package("dshared", &[]);
    let left = disk.package("dleft", &[&shared]);
    let right = disk.package("dright", &[&shared]);
    let top = disk.package("dtop", &[&left, &right]);

    let run = build(&resolve(&disk, &top).ok().unwrap(), 4, &[]);
    run.result.expect("the diamond must build");

    assert_eq!(run.built.iter().filter(|name| *name == "dshared").count(), 1);
    assert_eq!(run.built.len(), 4);
}

#[test]
fn every_dependent_of_one_package_is_built_when_it_finishes() {
    let mut disk = Disk::new();
    let shared = disk.package("wshared", &[]);
    let dependents: Vec<String> =
        (0..5).map(|i| disk.package(&format!("wdep{i}"), &[&shared])).collect();
    let borrowed: Vec<&str> = dependents.iter().map(String::as_str).collect();
    let top = disk.package("wtop", &borrowed);

    let run = build(&resolve(&disk, &top).ok().unwrap(), 8, &[]);
    run.result.expect("the graph must build");
    for i in 0..5 {
        assert!(
            run.built.contains(&format!("wdep{i}")),
            "wdep{i} was not built, though wshared finished"
        );
    }
    assert_eq!(run.built.last().map(String::as_str), Some("wtop"));
}

#[test]
fn a_dependency_named_twice_is_waited_for_once() {
    let mut disk = Disk::new();
    let shared = disk.package("shared", &[]);
    let top = disk.package("top", &[&shared, "shared.yaml"]);

    let graph = resolve(&disk, &top).ok().unwrap();
    assert_eq!(graph.nodes[1].dependencies, [0, 0]);
    let run = build(&graph, 2, &[]);
    assert_eq!(run.built, ["shared", "top"]);
    assert!(run.result.is_ok());
}

#[test]
fn a_cancelled_token_makes_a_parked_worker_return_instead_of_hang() {
    let mut disk = Disk::new();
    let dep = disk.package("canceldep", &[]);
    let top = disk.package("canceltop", &[&dep]);
    let graph = resolve(&disk, &top).ok().unwrap();

    let mut schedule = Schedule::new(&graph);
    assert!(matches!(schedule.claim(&graph), Claim::Package { index: 0, .. }));
    assert!(matches!(schedule.claim(&graph), Claim::Wait));
    assert_eq!(schedule.describe(graph.len()), "1 building, 0 of 2 done");
    schedule.cancel();
    assert!(matches!(schedule.claim(&graph), Claim::Over));
    schedule.settle(&graph, 0, Ok(path("/out/canceldep-1.cpkg")));
    assert!(matches!(schedule.claim(&graph), Claim::Over));
    assert_eq!(schedule.describe(graph.len()), "0 building, 1 of 2 done");
    let report = schedule.outcome(&graph).expect_err("the root was never built");
    assert_eq!(
        report.message,
        "the build finished without producing an archive for canceltop"
    );
}

#[test]
fn what_is_abandoned_counts_as_skipped() {
    let mut disk = Disk::new();
    let dep = disk.package("dep", &[]);
    let top = disk.package("top", &[&dep]);
    let graph = resolve(&disk, &top).ok().unwrap();
    let mut schedule = Schedule::new(&graph);
    schedule.abandon_remaining();
    assert_eq!(schedule.unsettled, 0);
    assert!(schedule.progression.iter().all(|p| matches!(p, Progression::Skipped)));
}

#[test]
fn no_more_workers_start_than_there_are_packages() {
    assert_eq!(workers(Some(8), 4, 3), 3);
    assert_eq!(workers(Some(2), 4, 3), 2);
    assert_eq!(workers(None, 4, 9), 4);
    assert_eq!(workers(Some(0), 4, 9), 4);
    assert_eq!(workers(None, 4, 0), 1);
}

#[test]
fn failures_are_rendered_one_cause_per_line() {
    let report = Report::new("c".to_owned()).wrap("b".to_owned()).wrap("a".to_owned());
    assert_eq!(render(&report), "a\n      b\n      c");
    assert_eq!(
        attempt_panicked("zlib", Some("boom")).message,
        "the build of zlib panicked: boom"
    );
    assert_eq!(
        attempt_panicked("zlib", None).message,
        "the build of zlib panicked: a panic carrying no message"
    );
}

#[test]
fn a_build_whose_token_was_tripped_before_it_began_starts_nothing() {
    let mut disk = Disk::new();
    let dep = disk.package("dep", &[]);
    let top = disk.package("top", &[&dep]);
    let graph = resolve(&disk, &top).ok().unwrap();

    let mut cancel: Cancel = Cancel::new();
    let mut schedule = Schedule::start(&graph, &cancel);
    assert!(matches!(schedule.claim(&graph), Claim::Package { index: 0, .. }));

    cancel.cancel();
    let mut schedule = Schedule::start(&graph, &cancel);
    assert!(matches!(schedule.claim(&graph), Claim::Over));
    assert_eq!(schedule.running(), 0);
    assert!(schedule.progression.iter().all(|p| matches!(p, Progression::Waiting)));
    let report = schedule.outcome(&graph).expect_err("nothing was built");
    assert_eq!(report.message, "the build finished without producing an archive for top");
}

#[test]
fn the_root_of_the_graph_is_the_build_file_it_started_at() {
    let mut disk = Disk::new();
    let shared = disk.package("shared", &[]);
    let left = disk.package("left", &[&shared]);
    let top = disk.package("top", &[&left, &shared]);
    let graph = resolve(&disk, &top).ok().unwrap();
    assert_eq!(graph.nodes[graph.root].key, path(&top));
    assert_eq!(&graph.nodes[graph.root].build, disk.find(&path(&top)).unwrap());
    assert_eq!(graph.order, [0, 1, 2]);
}
