//! Build files, and how a package is laid out.

use pm::bf::{
    cannot_stage, collect_entrypoints, dependency_entry, distinct_paths, packing_failed, refused,
    step_failed, unparsable, unreadable, BuildFile, BuildOptions, Verification, Walked,
};
use pm::context::BuildContext;
use pm::path::FilePath;
use pm::perms::{Grant, Permission, Permissions, Provenance};
use pm::report::Report;
use pm::sandbox::CONTAINER_PATH;
use pm::step::{Stage, Step};

fn path(text: &str) -> FilePath {
    FilePath::from_text(text)
}

fn named(name: &str) -> BuildFile {
    let mut build = BuildFile::generate();
    build.name = name.to_owned();
    build
}

#[test]
fn the_archive_is_named_after_the_package_and_its_version() {
    let build = named("nameck");
    assert_eq!(build.archive_name(), "nameck-0.1.0.cpkg");
    assert_eq!(build.package_name(), "nameck-0.1.0");
    assert_eq!(build.destination(&path("/out")), path("/out/nameck-0.1.0.cpkg"));
}

#[test]
fn every_entrypoint_path_is_relative_to_the_package_root() {
    let staging = path("/tmp/ws/pkg");
    let walked = vec![
        Walked::Found { path: path("/tmp/ws/pkg"), kind: None },
        Walked::Found { path: path("/tmp/ws/pkg/usr/bin/mytool"), kind: Some(1u8) },
        Walked::Found { path: path("/tmp/ws/pkg/deps/left-1.cpkg"), kind: Some(2) },
        Walked::Found { path: path("/tmp/ws/pkg/depsx"), kind: Some(3) },
    ];
    let found = collect_entrypoints(&walked, &staging).unwrap();
    let shown: Vec<(String, u8)> =
        found.iter().map(|(path, kind)| (path.display(), *kind)).collect();
    assert_eq!(shown, [("usr/bin/mytool".to_owned(), 1), ("depsx".to_owned(), 3)]);
    for (path, _) in &found {
        assert!(!path.is_absolute());
    }
}

#[test]
fn a_walk_that_fails_or_escapes_is_reported() {
    let staging = path("/pkg");
    let walked: Vec<Walked<u8>> = vec![Walked::Failed(Report::new("EACCES".to_owned()))];
    let report = collect_entrypoints(&walked, &staging).unwrap_err();
    assert_eq!(report.message, "cannot walk /pkg");
    assert_eq!(report.causes, ["EACCES"]);
    let walked = vec![Walked::Found { path: path("/pkgs/x"), kind: Some(1u8) }];
    let report = collect_entrypoints(&walked, &staging).unwrap_err();
    assert_eq!(report.message, "/pkgs/x escaped the staging tree");
    let walked: Vec<Walked<u8>> = vec![Walked::Found { path: path("/pkgs/x"), kind: None }];
    assert!(collect_entrypoints(&walked, &staging).unwrap().is_empty());
}

#[test]
fn a_generated_build_file_is_buildable_as_it_stands() {
    let build = BuildFile::generate();
    assert_eq!(build.name(), "example");
    assert_eq!(*build.version(), ["0", "1", "0"]);
    assert_eq!(build.version_string(), "0.1.0");
    assert!(build.dependencies().is_empty());
    assert_eq!(build.steps().len(), 1);
    assert_eq!(build.steps()[0].stage, Stage::Prepare);
    assert_eq!(build.steps()[0].name, "fetch");
    assert_eq!(build.steps()[0].dl_urls, Some(Vec::new()));
    assert!(build.steps()[0].run.is_empty());
    assert_eq!(build.source(), None);
    assert_eq!(build.verification(), Verification::default());
    assert_eq!(
        BuildOptions::default(),
        BuildOptions { permissive: false, unsandboxed: false, jobs: None }
    );
}

#[test]
fn a_build_file_remembers_where_it_was_read() {
    let build = named("x").read_from(path("/w/x.yaml"), Verification::Signed);
    assert_eq!(build.source(), Some(&path("/w/x.yaml")));
    assert_eq!(build.verification(), Verification::Signed);
    assert_eq!(build.clone(), build);
}

#[test]
fn a_package_is_put_together_in_sibling_directories() {
    let layout = named("x").layout(&path("/tmp/ws"));
    assert_eq!(layout.workdir, path("/tmp/ws/work"));
    assert_eq!(layout.staging, path("/tmp/ws/pkg"));
    assert_eq!(layout.deps, path("/tmp/ws/pkg/deps"));
    assert_eq!(layout.archive, path("/tmp/ws/x-0.1.0.cpkg"));
}

#[test]
fn archives_of_dependencies_keep_their_names() {
    let entry = dependency_entry(&path("/out/left-1.cpkg"), &path("/ws/pkg/deps")).unwrap();
    assert_eq!(entry.copy_to, path("/ws/pkg/deps/left-1.cpkg"));
    assert_eq!(entry.entry, path("deps/left-1.cpkg"));
    assert_eq!(
        dependency_entry(&path("/out/.."), &path("/d")).unwrap_err().message,
        "dependency archive has no file name: /out/.."
    );
}

#[test]
fn steps_run_by_stage_and_then_as_written() {
    let step = |name: &str, stage: Stage| Step {
        stage,
        dl_urls: None,
        name: name.to_owned(),
        run: Vec::new(),
    };
    let mut build = named("x");
    build.steps = vec![
        step("i1", Stage::Install),
        step("b1", Stage::Build),
        step("p1", Stage::Prepare),
        step("b2", Stage::Build),
        step("p2", Stage::Prepare),
    ];
    let order: Vec<String> = build.ordered_steps().into_iter().map(|step| step.name).collect();
    assert_eq!(order, ["p1", "p2", "b1", "b2", "i1"]);
}

#[test]
fn steps_may_read_beside_the_build_file_and_the_archives() {
    let build = named("x").read_from(path("/src/x/build.yaml"), Verification::Unverified);
    let archives = vec![path("/out/a.cpkg"), path("/src/x/b.cpkg"), path("/")];
    let candidates = build.read_only_candidates(&archives);
    assert_eq!(candidates, [path("/src/x"), path("/out"), path("/src/x")]);
    assert_eq!(distinct_paths(&candidates), [path("/src/x"), path("/out")]);
    assert_eq!(distinct_paths(&vec![path("/a"), path("//a/"), path("/b")]), [path("/a"), path("/b")]);
    assert!(named("x").read_only_candidates(&Vec::new()).is_empty());
}

fn profile(permission: Permission, origin: Provenance) -> Permissions {
    Permissions::from_grants(&vec![Grant::new(permission, origin, vec!["line".to_owned()])])
}

#[test]
fn a_profile_adds_up_from_sources_and_programs() {
    let build = named("x");
    let merged = build
        .derive_permissions(
            &path("/w"),
            Ok(profile(Permission::Network, Provenance::SourceAnalysis)),
            vec![
                Ok(None),
                Ok(Some(profile(Permission::ReadPath(path("/usr")), Provenance::ElfAnalysis))),
                Err(Report::new("truncated".to_owned())),
                Ok(Some(profile(Permission::Network, Provenance::ElfAnalysis))),
            ],
        )
        .unwrap();
    assert_eq!(merged.len(), 2);
    assert_eq!(
        *merged.grants()[0].provenance(),
        [Provenance::SourceAnalysis, Provenance::ElfAnalysis]
    );

    let report = build
        .derive_permissions(&path("/w"), Err(Report::new("EIO".to_owned())), Vec::new())
        .unwrap_err();
    assert_eq!(
        report.message,
        "cannot scan the sources of x in /w for the run-time permission profile"
    );
}

#[test]
fn packing_and_signatures_fail_with_a_message() {
    assert_eq!(
        packing_failed("exit status: 2", &b"tar: no space\n".to_vec()).message,
        "tar exited with exit status: 2: tar: no space"
    );
    let report = refused(&path("/w/x.yaml"), Report::new("no signature".to_owned()));
    assert_eq!(
        report.message,
        "refusing to read the build file /w/x.yaml: its signature did not check out"
    );
    assert_eq!(report.causes, ["no signature"]);
    let inner = || Report::new("x".to_owned());
    let at = path("/w/x.yaml");
    assert_eq!(unreadable(&at, inner()).message, "cannot read build file /w/x.yaml");
    assert_eq!(unparsable(&at, inner()).message, "cannot parse build file /w/x.yaml");
    assert_eq!(cannot_stage(&at, inner()).message, "cannot stage dependency /w/x.yaml");
    let build = BuildFile::generate();
    assert_eq!(step_failed(&build.steps()[0], inner()).message, "step fetch failed");
    assert_eq!(build.sandbox_failed(inner()).message, "cannot build the sandbox for example");
}

#[test]
fn a_context_starts_from_the_process_and_is_adjusted() {
    let captured = BuildContext::captured(path("/c"), path("/t"), None, None);
    assert_eq!(captured.output_dir, path("/c"));
    assert_eq!(captured.path, path(CONTAINER_PATH));
    assert_eq!(captured.home, None);
    assert_eq!(captured.scratch_root, None);
    let changed = captured
        .with_cwd(path("/1"))
        .with_output_dir(path("/2"))
        .with_trust_dir(path("/3"))
        .with_path(path("/4"))
        .with_home(Some(path("/5")))
        .with_scratch_root(Some(path("/6")));
    assert_eq!(changed.cwd, path("/1"));
    assert_eq!(changed.output_dir, path("/2"));
    assert_eq!(changed.trust_dir, path("/3"));
    assert_eq!(changed.path, path("/4"));
    assert_eq!(changed.home, Some(path("/5")));
    assert_eq!(changed.scratch_root, Some(path("/6")));
}
