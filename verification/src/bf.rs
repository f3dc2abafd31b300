//! Build files: what they say, and how a package is laid out.

use vstd::prelude::*;
use vstd::utf8::encode_utf8;

use crate::path::{
    below, file_name_of, joined_path, lossy, lossy_text, parent_of, paths, same_path, starts_with,
    FilePath,
};
use crate::perms::{adds_up_to, all_grants, Permissions};
use crate::report::{copy_texts, said, wrapped, Report, ReportView};
use crate::step::{stage_rank, step_views, Stage, Step, StepView};
use crate::text::{join, joined, texts, trim, trimmed};

verus! {

/// How a [`BuildFile`] came to be trusted.
#[derive(Debug, Clone, Copy, PartialEq, Eq, Structural)]
pub enum Verification {
    /// No signature was checked.
    Unverified,
    /// A detached signature was verified against the local trust store.
    Signed,
}

impl Default for Verification {
    fn default() -> (r: Self)
        ensures
            r == Verification::Unverified,
    {
        Verification::Unverified
    }
}

/// Knobs of a build, all of which default to the safe answer.
#[derive(Debug, Clone, Copy, PartialEq, Eq, Structural)]
pub struct BuildOptions {
    /// Allow step commands that match no built-in fingerprint.
    pub permissive: bool,
    /// Run the steps straight on the host instead of inside the jail.
    pub unsandboxed: bool,
    /// How many packages may build at once; `None` leaves it to the machine.
    pub jobs: Option<usize>,
}

impl Default for BuildOptions {
    fn default() -> (r: Self)
        ensures
            !r.permissive,
            !r.unsandboxed,
            r.jobs is None,
    {
        BuildOptions { permissive: false, unsandboxed: false, jobs: None }
    }
}

/// A parsed build file: everything needed to build and package one package.
#[derive(Debug, PartialEq, Eq)]
pub struct BuildFile {
    pub name: String,
    pub version: Vec<String>,
    pub dependencies: Vec<FilePath>,
    pub steps: Vec<Step>,
    /// Canonical path this build file was loaded from.
    pub source: Option<FilePath>,
    /// Whether the file this was parsed from carried a trusted signature.
    pub verification: Verification,
}

/// What a [`BuildFile`] says.
pub struct BuildFileView {
    pub name: Seq<char>,
    pub version: Seq<Seq<char>>,
    pub dependencies: Seq<Seq<u8>>,
    pub steps: Seq<StepView>,
    pub source: Option<Seq<u8>>,
    pub verification: Verification,
}

/// The bytes of an optional path.
pub open spec fn optional_path(p: Option<FilePath>) -> Option<Seq<u8>> {
    match p {
        Some(path) => Some(path@),
        None => None,
    }
}

impl View for BuildFile {
    type V = BuildFileView;

    open spec fn view(&self) -> BuildFileView {
        BuildFileView {
            name: self.name@,
            version: texts(self.version@),
            dependencies: paths(self.dependencies@),
            steps: step_views(self.steps@),
            source: optional_path(self.source),
            verification: self.verification,
        }
    }
}

/// The components of a version with a `.` between each two of them.
pub open spec fn version_text(version: Seq<Seq<char>>) -> Seq<char> {
    joined(version, "."@)
}

/// The name of a package together with its version.
pub open spec fn package_text(build: BuildFileView) -> Seq<char> {
    build.name + "-"@ + version_text(build.version)
}

/// The file name a package is archived under.
pub open spec fn archive_text(build: BuildFileView) -> Seq<char> {
    package_text(build) + ".cpkg"@
}

/// Copy a list of paths.
pub fn copy_paths(list: &Vec<FilePath>) -> (r: Vec<FilePath>)
    ensures
        paths(r@) == paths(list@),
        r@.len() == list@.len(),
{
    let mut r: Vec<FilePath> = Vec::new();
    let mut i: usize = 0;
    while i < list.len()
        invariant
            i <= list@.len(),
            r@.len() == i,
            forall|j: int| 0 <= j < i ==> (#[trigger] r@[j])@ == list@[j]@,
        decreases list@.len() - i,
    {
        r.push(list[i].clone());
        i += 1;
    }
    assert(paths(r@) =~= paths(list@));
    r
}

fn copy_steps(list: &Vec<Step>) -> (r: Vec<Step>)
    ensures
        step_views(r@) == step_views(list@),
{
    let mut r: Vec<Step> = Vec::new();
    let mut i: usize = 0;
    while i < list.len()
        invariant
            i <= list@.len(),
            r@.len() == i,
            forall|j: int| 0 <= j < i ==> (#[trigger] r@[j])@ == list@[j]@,
        decreases list@.len() - i,
    {
        r.push(list[i].clone());
        i += 1;
    }
    assert(step_views(r@) =~= step_views(list@));
    r
}

/// Copy an optional path.
pub fn copy_optional_path(p: &Option<FilePath>) -> (r: Option<FilePath>)
    ensures
        optional_path(r) == optional_path(*p),
{
    match p {
        Some(path) => Some(path.clone()),
        None => None,
    }
}

impl Clone for BuildFile {
    fn clone(&self) -> (r: Self)
        ensures
            r@ == self@,
    {
        BuildFile {
            name: self.name.clone(),
            version: copy_texts(&self.version),
            dependencies: copy_paths(&self.dependencies),
            steps: copy_steps(&self.steps),
            source: copy_optional_path(&self.source),
            verification: self.verification,
        }
    }
}

impl BuildFile {
    /// Build a skeleton build file, meant as a starting point for a new package.
    ///
    /// It is buildable as it stands: it depends on nothing and runs nothing.
    pub fn generate() -> (r: BuildFile)
        ensures
            r@ == (BuildFileView {
                name: "example"@,
                version: seq!["0"@, "1"@, "0"@],
                dependencies: Seq::empty(),
                steps: seq![
                    StepView {
                        stage: Stage::Prepare,
                        dl_urls: Some(Seq::empty()),
                        name: "fetch"@,
                        run: Seq::empty(),
                    },
                ],
                source: None,
                verification: Verification::Unverified,
            }),
    {
        let step = Step {
            stage: Stage::Prepare,
            dl_urls: Some(Vec::new()),
            name: "fetch".to_owned(),
            run: Vec::new(),
        };
        assert(texts(step.run@) =~= Seq::<Seq<char>>::empty());
        assert(crate::step::download_views(step.dl_urls->0@) =~= Seq::<
            (Seq<char>, Seq<char>),
        >::empty());
        let ghost step_view = step@;
        let r = BuildFile {
            name: "example".to_owned(),
            version: vec!["0".to_owned(), "1".to_owned(), "0".to_owned()],
            dependencies: Vec::new(),
            steps: vec![step],
            source: None,
            verification: Verification::Unverified,
        };
        proof {
            assert(texts(r.version@) =~= seq!["0"@, "1"@, "0"@]);
            assert(paths(r.dependencies@) =~= Seq::<Seq<u8>>::empty());
            assert(step_views(r.steps@) =~= seq![step_view]);
        }
        r
    }

    /// The package name.
    pub fn name(&self) -> (r: &str)
        ensures
            r@ == self@.name,
    {
        self.name.as_str()
    }

    /// The version, one component per element.
    pub fn version(&self) -> (r: &Vec<String>)
        ensures
            texts(r@) == self@.version,
    {
        &self.version
    }

    /// Version components joined with `.`, e.g. `0.1.0`.
    pub fn version_string(&self) -> (r: String)
        ensures
            r@ == version_text(self@.version),
    {
        join(&self.version, ".")
    }

    /// Where this build file was read from, if it came off disk.
    pub fn source(&self) -> (r: Option<&FilePath>)
        ensures
            r is Some <==> self@.source is Some,
            r is Some ==> r->0@ == self@.source->0,
    {
        match &self.source {
            Some(path) => Some(path),
            None => None,
        }
    }

    /// How far this build file was trusted when it was loaded.
    pub fn verification(&self) -> (r: Verification)
        ensures
            r == self@.verification,
    {
        self.verification
    }

    /// Paths of the build files this package depends on.
    pub fn dependencies(&self) -> (r: &Vec<FilePath>)
        ensures
            paths(r@) == self@.dependencies,
    {
        &self.dependencies
    }

    /// The build steps, in the order the file declares them.
    pub fn steps(&self) -> (r: &Vec<Step>)
        ensures
            step_views(r@) == self@.steps,
    {
        &self.steps
    }

    /// The name of the package together with its version.
    pub fn package_name(&self) -> (r: String)
        ensures
            r@ == package_text(self@),
    {
        let mut r = self.name.clone();
        r.push_str("-");
        r.push_str(self.version_string().as_str());
        r
    }

    /// The file name the package is archived under.
    pub fn archive_name(&self) -> (r: String)
        ensures
            r@ == archive_text(self@),
    {
        let mut r = self.package_name();
        r.push_str(".cpkg");
        r
    }

    /// This build file as it was read from `source`, trusted as far as
    /// `verification` says.
    pub fn read_from(self, source: FilePath, verification: Verification) -> (r: BuildFile)
        ensures
            r@ == (BuildFileView { source: Some(source@), verification, ..self@ }),
    {
        BuildFile {
            name: self.name,
            version: self.version,
            dependencies: self.dependencies,
            steps: self.steps,
            source: Some(source),
            verification,
        }
    }
}

/// Where a package is put together.
#[derive(Debug)]
pub struct Layout {
    /// The working directory the steps run in.
    pub workdir: FilePath,
    /// The tree that ends up inside the archive.
    pub staging: FilePath,
    /// The part of that tree that holds the archives of dependencies.
    pub deps: FilePath,
    /// The archive, beside both of them.
    pub archive: FilePath,
}

/// `tail`, which is text, as seen from `base`.
pub open spec fn joined_text(base: Seq<u8>, tail: Seq<char>) -> Seq<u8> {
    joined_path(base, encode_utf8(tail))
}

impl BuildFile {
    /// Where the package is put together under `root`.
    pub fn layout(&self, root: &FilePath) -> (r: Layout)
        ensures
            r.workdir@ == joined_text(root@, "work"@),
            r.staging@ == joined_text(root@, "pkg"@),
            r.deps@ == joined_text(joined_text(root@, "pkg"@), "deps"@),
            r.archive@ == joined_text(root@, archive_text(self@)),
    {
        let workdir = root.join_text("work");
        let staging = root.join_text("pkg");
        let deps = staging.join_text("deps");
        let archive = root.join_text(self.archive_name().as_str());
        Layout { workdir, staging, deps, archive }
    }

    /// Where the finished archive goes, in the output directory `output`.
    pub fn destination(&self, output: &FilePath) -> (r: FilePath)
        ensures
            r@ == joined_text(output@, archive_text(self@)),
    {
        output.join_text(self.archive_name().as_str())
    }
}

/// Where the archive of a dependency is copied to, and how the package refers to it.
#[derive(Debug)]
pub struct DependencyEntry {
    pub copy_to: FilePath,
    pub entry: FilePath,
}

/// Where the archive at `source` is copied to, given the directory for archives of
/// dependencies.
pub fn dependency_entry(source: &FilePath, deps: &FilePath) -> (r: Result<DependencyEntry, Report>)
    ensures
        r is Ok <==> file_name_of(source@) is Some,
        match r {
            Ok(entry) => {
                &&& entry.copy_to@ == joined_path(deps@, file_name_of(source@)->0)
                &&& entry.entry@ == joined_path(encode_utf8("deps"@), file_name_of(source@)->0)
            },
            Err(report) => report@ == said(
                "dependency archive has no file name: "@ + lossy(source@),
            ),
        },
{
    match source.file_name() {
        Some(name) => Ok(
            DependencyEntry {
                copy_to: deps.join(&name),
                entry: FilePath::from_text("deps").join(&name),
            },
        ),
        None => {
            let mut message = "dependency archive has no file name: ".to_owned();
            message.push_str(source.display().as_str());
            Err(Report::new(message))
        },
    }
}

/// The directories that the paths of `list` are in.
pub open spec fn parents(list: Seq<Seq<u8>>) -> Seq<Seq<u8>>
    decreases list.len(),
{
    if list.len() == 0 {
        Seq::empty()
    } else {
        let rest = parents(list.drop_last());
        match parent_of(list.last()) {
            Some(p) => rest.push(p),
            None => rest,
        }
    }
}

/// The paths of `list`, each of them where it first occurs.
pub open spec fn first_occurrences(list: Seq<Seq<u8>>) -> Seq<Seq<u8>>
    decreases list.len(),
{
    if list.len() == 0 {
        Seq::empty()
    } else {
        let rest = first_occurrences(list.drop_last());
        if holds_path(rest, list.last()) {
            rest
        } else {
            rest.push(list.last())
        }
    }
}

/// Some path of `list` is the same as `p`.
pub open spec fn holds_path(list: Seq<Seq<u8>>, p: Seq<u8>) -> bool {
    exists|i: int| 0 <= i < list.len() && same_path(#[trigger] list[i], p)
}

/// The paths of `list`, each of them where it first occurs.
pub fn distinct_paths(list: &Vec<FilePath>) -> (r: Vec<FilePath>)
    ensures
        paths(r@) == first_occurrences(paths(list@)),
{
    let ghost all = paths(list@);
    let mut r: Vec<FilePath> = Vec::new();
    let mut i: usize = 0;
    assert(paths(r@) =~= first_occurrences(all.take(0)));
    while i < list.len()
        invariant
            i <= list@.len(),
            all == paths(list@),
            paths(r@) == first_occurrences(all.take(i as int)),
        decreases list@.len() - i,
    {
        let ghost before = paths(r@);
        let ghost p = all[i as int];
        assert(all.take(i + 1).drop_last() =~= all.take(i as int));
        assert(p == list@[i as int]@);
        let mut seen = false;
        let mut k: usize = 0;
        while k < r.len()
            invariant
                k <= r@.len(),
                i < list@.len(),
                before == paths(r@),
                p == list@[i as int]@,
                seen == exists|j: int| 0 <= j < k && same_path(#[trigger] before[j], p),
            decreases r@.len() - k,
        {
            assert(before[k as int] == r@[k as int]@);
            if r[k].same(&list[i]) {
                seen = true;
            }
            k += 1;
        }
        if !seen {
            r.push(list[i].clone());
            assert(paths(r@) =~= before.push(p));
        }
        i += 1;
    }
    assert(all.take(all.len() as int) =~= all);
    r
}

/// No two of the paths that are left are the same, and none is lost.
pub proof fn lemma_first_occurrences(list: Seq<Seq<u8>>)
    ensures
        forall|i: int, j: int|
            0 <= i < j < first_occurrences(list).len() ==> !same_path(
                #[trigger] first_occurrences(list)[i],
                #[trigger] first_occurrences(list)[j],
            ),
        forall|i: int|
            0 <= i < list.len() ==> holds_path(first_occurrences(list), #[trigger] list[i]),
    decreases list.len(),
{
    if list.len() > 0 {
        let shorter = list.drop_last();
        lemma_first_occurrences(shorter);
        let rest = first_occurrences(shorter);
        let all = first_occurrences(list);
        assert forall|i: int| 0 <= i < list.len() implies holds_path(all, #[trigger] list[i]) by {
            if i < shorter.len() {
                assert(shorter[i] == list[i]);
                assert(holds_path(rest, list[i]));
                let k = choose|k: int| 0 <= k < rest.len() && same_path(#[trigger] rest[k], list[i]);
                assert(all[k] == rest[k]);
            } else if !holds_path(rest, list.last()) {
                assert(all[rest.len() as int] == list.last());
            }
        }
    }
}

impl BuildFile {
    /// Host directories the steps may read: the directory that holds this build file,
    /// and the directory each archive of a dependency sits in.
    pub fn read_only_candidates(&self, archives: &Vec<FilePath>) -> (r: Vec<FilePath>)
        ensures
            paths(r@) == parents(
                (match self@.source {
                    Some(source) => seq![source],
                    None => Seq::empty(),
                }) + paths(archives@),
            ),
    {
        let mut all: Vec<FilePath> = Vec::new();
        match &self.source {
            Some(source) => all.push(source.clone()),
            None => {},
        }
        let ghost head = paths(all@);
        assert(head =~= (match self@.source {
            Some(source) => seq![source],
            None => Seq::empty(),
        }));
        let mut copies = copy_paths(archives);
        let ghost tail = copies@;
        let ghost first = all@;
        all.append(&mut copies);
        assert(all@ =~= first + tail);
        assert(paths(all@) =~= head + paths(archives@)) by {
            assert(paths(tail) == paths(archives@));
            assert forall|i: int| 0 <= i < tail.len() implies paths(all@)[first.len() + i]
                == paths(archives@)[i] by {
                assert(all@[first.len() + i] == tail[i]);
                assert(paths(tail)[i] == tail[i]@);
            }
        }
        let ghost list = paths(all@);
        let mut r: Vec<FilePath> = Vec::new();
        let mut i: usize = 0;
        assert(paths(r@) =~= parents(list.take(0)));
        while i < all.len()
            invariant
                i <= all@.len(),
                list == paths(all@),
                paths(r@) == parents(list.take(i as int)),
            decreases all@.len() - i,
        {
            let ghost before = paths(r@);
            assert(list.take(i + 1).drop_last() =~= list.take(i as int));
            assert(list[i as int] == all@[i as int]@);
            match all[i].parent() {
                Some(p) => {
                    let ghost shown = p@;
                    r.push(p);
                    assert(paths(r@) =~= before.push(shown));
                },
                None => {},
            }
            i += 1;
        }
        assert(list.take(list.len() as int) =~= list);
        r
    }

    /// The steps in the order they run in: by stage, and within a stage as written.
    pub fn ordered_steps(&self) -> (r: Vec<Step>)
        ensures
            step_views(r@) == in_stage(self@.steps, 0) + in_stage(self@.steps, 1) + in_stage(
                self@.steps,
                2,
            ),
    {
        let mut r: Vec<Step> = Vec::new();
        self.push_stage(&mut r, 0);
        self.push_stage(&mut r, 1);
        self.push_stage(&mut r, 2);
        assert(step_views(r@) =~= in_stage(self@.steps, 0) + in_stage(self@.steps, 1) + in_stage(
            self@.steps,
            2,
        ));
        r
    }

    fn push_stage(&self, out: &mut Vec<Step>, rank: u8)
        ensures
            step_views(final(out)@) == step_views(old(out)@) + in_stage(self@.steps, rank as int),
    {
        let ghost all = self@.steps;
        let mut i: usize = 0;
        assert(step_views(out@) =~= step_views(old(out)@) + in_stage(all.take(0), rank as int));
        while i < self.steps.len()
            invariant
                i <= self.steps@.len(),
                all == self@.steps,
                step_views(out@) == step_views(old(out)@) + in_stage(
                    all.take(i as int),
                    rank as int,
                ),
            decreases self.steps@.len() - i,
        {
            let ghost before = step_views(out@);
            assert(all.take(i + 1).drop_last() =~= all.take(i as int));
            assert(all[i as int] == self.steps@[i as int]@);
            if self.steps[i].stage.rank() == rank {
                out.push(self.steps[i].clone());
                assert(step_views(out@) =~= before.push(all[i as int]));
            }
            assert(step_views(out@) =~= step_views(old(out)@) + in_stage(
                all.take(i + 1),
                rank as int,
            ));
            i += 1;
        }
        assert(all.take(all.len() as int) =~= all);
    }
}

/// The steps of one stage, as written.
pub open spec fn in_stage(steps: Seq<StepView>, rank: int) -> Seq<StepView>
    decreases steps.len(),
{
    if steps.len() == 0 {
        Seq::empty()
    } else {
        let rest = in_stage(steps.drop_last(), rank);
        if stage_rank(steps.last().stage) == rank {
            rest.push(steps.last())
        } else {
            rest
        }
    }
}

/// No step is lost or added when they are put in order.
pub proof fn lemma_every_step_runs(steps: Seq<StepView>)
    ensures
        in_stage(steps, 0).len() + in_stage(steps, 1).len() + in_stage(steps, 2).len()
            == steps.len(),
    decreases steps.len(),
{
    if steps.len() > 0 {
        lemma_every_step_runs(steps.drop_last());
    }
}

/// Something found under the staging tree: what a walk brought, and what kind of
/// entry it is, if it is one.
pub enum Walked<K> {
    Failed(Report),
    Found {
        path: FilePath,
        kind: Option<K>,
    },
}

/// What a [`Walked`] says.
pub enum WalkedView<K> {
    Failed(ReportView),
    Found {
        path: Seq<u8>,
        kind: Option<K>,
    },
}

impl<K> View for Walked<K> {
    type V = WalkedView<K>;

    open spec fn view(&self) -> WalkedView<K> {
        match *self {
            Walked::Failed(report) => WalkedView::Failed(report@),
            Walked::Found { path, kind } => WalkedView::Found { path: path@, kind },
        }
    }
}

/// What each member of a list says.
pub open spec fn walked_views<K>(list: Seq<Walked<K>>) -> Seq<WalkedView<K>> {
    list.map_values(|w: Walked<K>| w@)
}

/// Why something found under the staging tree cannot be recorded.
pub open spec fn walk_failure<K>(w: WalkedView<K>, staging: Seq<u8>) -> Option<ReportView> {
    match w {
        WalkedView::Failed(report) => Some(wrapped("cannot walk "@ + lossy(staging), report)),
        WalkedView::Found { path, kind } => if kind is Some && below(path, staging) is None {
            Some(
                wrapped(
                    lossy(path) + " escaped the staging tree"@,
                    said("prefix not found"@),
                ),
            )
        } else {
            None
        },
    }
}

/// Why the first thing from `i` on that cannot be recorded cannot be.
pub open spec fn walk_failures<K>(
    list: Seq<WalkedView<K>>,
    staging: Seq<u8>,
    i: int,
) -> Option<ReportView>
    decreases list.len() - i,
{
    if i < 0 || i >= list.len() {
        None
    } else if walk_failure(list[i], staging) is Some {
        walk_failure(list[i], staging)
    } else {
        walk_failures(list, staging, i + 1)
    }
}

/// What is recorded: every file that has a kind, by its path relative to the staging
/// tree, but for the archives of dependencies, which belong to other packages.
pub open spec fn recorded<K>(list: Seq<WalkedView<K>>, staging: Seq<u8>) -> Seq<(Seq<u8>, K)>
    decreases list.len(),
{
    if list.len() == 0 {
        Seq::empty()
    } else {
        let rest = recorded(list.drop_last(), staging);
        match list.last() {
            WalkedView::Found { path, kind } => match (kind, below(path, staging)) {
                (Some(k), Some(relative)) => if starts_with(relative, encode_utf8("deps"@)) {
                    rest
                } else {
                    rest.push((relative, k))
                },
                _ => rest,
            },
            _ => rest,
        }
    }
}

/// The views of recorded entries.
pub open spec fn entry_views<K>(list: Seq<(FilePath, K)>) -> Seq<(Seq<u8>, K)> {
    list.map_values(|e: (FilePath, K)| (e.0@, e.1))
}

/// Every regular file under the staging tree, by its relative path: a package is
/// unpacked somewhere else entirely, where a build-time path names nothing.
#[verifier::loop_isolation(false)]
pub fn collect_entrypoints<K: Copy>(walked: &Vec<Walked<K>>, staging: &FilePath) -> (r: Result<
    Vec<(FilePath, K)>,
    Report,
>)
    ensures
        r is Err <==> walk_failures(walked_views(walked@), staging@, 0) is Some,
        match r {
            Ok(list) => entry_views(list@) == recorded(walked_views(walked@), staging@),
            Err(report) => report@ == walk_failures(walked_views(walked@), staging@, 0)->0,
        },
{
    let ghost all = walked_views(walked@);
    let deps = FilePath::from_text("deps");
    let mut out: Vec<(FilePath, K)> = Vec::new();
    let mut i: usize = 0;
    assert(entry_views(out@) =~= recorded(all.take(0), staging@));
    while i < walked.len()
        invariant
            i <= walked@.len(),
            walk_failures(all, staging@, i as int) == walk_failures(all, staging@, 0),
            entry_views(out@) == recorded(all.take(i as int), staging@),
        decreases walked@.len() - i,
    {
        let ghost before = entry_views(out@);
        assert(all.take(i + 1).drop_last() =~= all.take(i as int));
        assert(all[i as int] == walked@[i as int]@);
        match &walked[i] {
            Walked::Failed(report) => {
                let mut message = "cannot walk ".to_owned();
                message.push_str(staging.display().as_str());
                return Err(report.clone().wrap(message));
            },
            Walked::Found { path, kind } => match kind {
                Some(k) => match path.strip_prefix(staging) {
                    Some(relative) => {
                        if !relative.starts_with(&deps) {
                            let ghost shown = relative@;
                            out.push((relative, *k));
                            assert(entry_views(out@) =~= before.push((shown, *k)));
                        }
                    },
                    None => {
                        let mut message = path.display();
                        message.push_str(" escaped the staging tree");
                        return Err(Report::new("prefix not found".to_owned()).wrap(message));
                    },
                },
                None => {},
            },
        }
        i += 1;
    }
    assert(all.take(all.len() as int) =~= all);
    Ok(out)
}

/// The profiles that an analysis came up with; what could not be analysed and what
/// is no program adds nothing.
pub open spec fn found_profiles(list: Seq<Result<Option<Permissions>, Report>>) -> Seq<Permissions>
    decreases list.len(),
{
    if list.len() == 0 {
        Seq::empty()
    } else {
        let rest = found_profiles(list.drop_last());
        match list.last() {
            Ok(Some(p)) => rest.push(p),
            _ => rest,
        }
    }
}

impl BuildFile {
    /// The run-time profile of the package that was just staged: what the scan of its
    /// sources in `workdir` found, together with what the analysis of each staged
    /// program found.
    ///
    /// Only a failed scan is an error. A program that cannot be analysed narrows the
    /// profile, which is only written down and denies nothing.
    pub fn derive_permissions(
        &self,
        workdir: &FilePath,
        sources: Result<Permissions, Report>,
        analyses: Vec<Result<Option<Permissions>, Report>>,
    ) -> (r: Result<Permissions, Report>)
        ensures
            r is Ok <==> sources is Ok,
            match r {
                Ok(p) => adds_up_to(
                    all_grants(seq![sources->Ok_0] + found_profiles(analyses@)),
                    p.grants@,
                ),
                Err(report) => report@ == wrapped(
                    "cannot scan the sources of "@ + self@.name + " in "@ + lossy(workdir@)
                        + " for the run-time permission profile"@,
                    sources->Err_0@,
                ),
            },
    {
        let scanned = match sources {
            Ok(p) => p,
            Err(report) => {
                let mut message = "cannot scan the sources of ".to_owned();
                message.push_str(self.name());
                message.push_str(" in ");
                message.push_str(workdir.display().as_str());
                message.push_str(" for the run-time permission profile");
                return Err(report.wrap(message));
            },
        };
        let ghost whole = seq![scanned] + found_profiles(analyses@);
        let mut late: Vec<Permissions> = Vec::new();
        let mut rest = analyses;
        while rest.len() > 0
            invariant
                seq![scanned] + found_profiles(rest@) + late@.reverse() == whole,
            decreases rest@.len(),
        {
            let ghost before = rest@;
            let ghost held = late@;
            match rest.pop() {
                Some(one) => {
                    assert(rest@ =~= before.drop_last());
                    match one {
                        Ok(Some(p)) => {
                            late.push(p);
                            assert(late@.reverse() =~= seq![p] + held.reverse());
                            assert(seq![scanned] + found_profiles(rest@) + late@.reverse()
                                =~= seq![scanned] + found_profiles(before) + held.reverse());
                        },
                        _ => {},
                    }
                },
                None => {},
            }
        }
        assert(found_profiles(rest@) =~= Seq::<Permissions>::empty());
        assert(seq![scanned] + found_profiles(rest@) =~= seq![scanned]);
        let ghost order = late@.reverse();
        let mut sets: Vec<Permissions> = Vec::new();
        sets.push(scanned);
        assert(sets@ =~= seq![scanned]);
        while late.len() > 0
            invariant
                sets@ + late@.reverse() == whole,
            decreases late@.len(),
        {
            let ghost before = sets@;
            let ghost held = late@;
            match late.pop() {
                Some(p) => {
                    sets.push(p);
                    assert(held.reverse() =~= seq![p] + late@.reverse());
                    assert(sets@ + late@.reverse() =~= before + held.reverse());
                },
                None => {},
            }
        }
        assert(sets@ =~= whole);
        Ok(Permissions::merge(sets))
    }
}

/// What is said of a packing tool that failed.
pub fn packing_failed(status: &str, stderr: &Vec<u8>) -> (r: Report)
    ensures
        r@ == said("tar exited with "@ + status@ + ": "@ + trimmed(lossy(stderr@))),
{
    let mut message = "tar exited with ".to_owned();
    message.push_str(status);
    message.push_str(": ");
    message.push_str(trim(lossy_text(stderr.as_slice()).as_str()).as_str());
    Report::new(message)
}

/// What is said of a build file whose signature is not good.
pub fn refused(path: &FilePath, report: Report) -> (r: Report)
    ensures
        r@ == wrapped(
            "refusing to read the build file "@ + lossy(path@)
                + ": its signature did not check out"@,
            report@,
        ),
{
    let mut message = "refusing to read the build file ".to_owned();
    message.push_str(path.display().as_str());
    message.push_str(": its signature did not check out");
    report.wrap(message)
}

/// What is said of a build file that cannot be read.
pub fn unreadable(path: &FilePath, report: Report) -> (r: Report)
    ensures
        r@ == wrapped("cannot read build file "@ + lossy(path@), report@),
{
    let mut message = "cannot read build file ".to_owned();
    message.push_str(path.display().as_str());
    report.wrap(message)
}

/// What is said of a build file that makes no sense.
pub fn unparsable(path: &FilePath, report: Report) -> (r: Report)
    ensures
        r@ == wrapped("cannot parse build file "@ + lossy(path@), report@),
{
    let mut message = "cannot parse build file ".to_owned();
    message.push_str(path.display().as_str());
    report.wrap(message)
}

/// What is said of the archive of a dependency that cannot be copied.
pub fn cannot_stage(source: &FilePath, report: Report) -> (r: Report)
    ensures
        r@ == wrapped("cannot stage dependency "@ + lossy(source@), report@),
{
    let mut message = "cannot stage dependency ".to_owned();
    message.push_str(source.display().as_str());
    report.wrap(message)
}

/// What is said of a step that failed.
pub fn step_failed(step: &Step, report: Report) -> (r: Report)
    ensures
        r@ == wrapped("step "@ + step@.name + " failed"@, report@),
{
    let mut message = "step ".to_owned();
    message.push_str(step.name.as_str());
    message.push_str(" failed");
    report.wrap(message)
}

impl BuildFile {
    /// What is said of a package whose jail cannot be set up.
    pub fn sandbox_failed(&self, report: Report) -> (r: Report)
        ensures
            r@ == wrapped("cannot build the sandbox for "@ + self@.name, report@),
    {
        let mut message = "cannot build the sandbox for ".to_owned();
        message.push_str(self.name());
        report.wrap(message)
    }
}

proof fn lemma_in_stage(steps: Seq<StepView>, rank: int) -> (p: Seq<int>)
    ensures
        p.len() == in_stage(steps, rank).len(),
        forall|a: int|
            0 <= a < p.len() ==> 0 <= #[trigger] p[a] < steps.len() && in_stage(steps, rank)[a]
                == steps[p[a]] && stage_rank(steps[p[a]].stage) == rank,
        forall|a: int, b: int| 0 <= a < b < p.len() ==> #[trigger] p[a] < #[trigger] p[b],
    decreases steps.len(),
{
    if steps.len() == 0 {
        Seq::empty()
    } else {
        let shorter = steps.drop_last();
        let p = lemma_in_stage(shorter, rank);
        assert forall|a: int| 0 <= a < p.len() implies 0 <= #[trigger] p[a] < steps.len()
            && in_stage(steps, rank)[a] == steps[p[a]] && stage_rank(steps[p[a]].stage)
            == rank by {
            assert(shorter[p[a]] == steps[p[a]]);
        }
        if stage_rank(steps.last().stage) == rank {
            p.push(steps.len() - 1)
        } else {
            p
        }
    }
}

/// The steps run in a rearrangement of the order they are written in, `p` saying which
/// step comes where: what prepares runs before what builds, what builds before what
/// installs, and two steps of the same stage, whichever it is, run as they are written.
pub proof fn lemma_steps_run_by_stage_and_as_written(steps: Seq<StepView>) -> (p: Seq<int>)
    ensures
        ({
            let run = in_stage(steps, 0) + in_stage(steps, 1) + in_stage(steps, 2);
            &&& run.len() == steps.len()
            &&& p.len() == steps.len()
            &&& forall|a: int|
                0 <= a < p.len() ==> 0 <= #[trigger] p[a] < steps.len() && run[a] == steps[p[a]]
            &&& forall|a: int, b: int|
                0 <= a < b < p.len() ==> {
                    let (s, t) = (steps[#[trigger] p[a]].stage, steps[#[trigger] p[b]].stage);
                    &&& p[a] != p[b]
                    &&& s == t ==> p[a] < p[b]
                    &&& s == Stage::Install ==> t == Stage::Install
                    &&& s == Stage::Build ==> t != Stage::Prepare
                }
        }),
{
    let p0 = lemma_in_stage(steps, 0);
    let p1 = lemma_in_stage(steps, 1);
    let p2 = lemma_in_stage(steps, 2);
    lemma_every_step_runs(steps);
    let p = p0 + p1 + p2;
    let run = in_stage(steps, 0) + in_stage(steps, 1) + in_stage(steps, 2);
    let (m, n) = (p0.len() as int, (p0.len() + p1.len()) as int);
    assert forall|a: int| 0 <= a < p.len() implies 0 <= #[trigger] p[a] < steps.len() && run[a]
        == steps[p[a]] && stage_rank(steps[p[a]].stage) == (if a < m {
        0int
    } else if a < n {
        1
    } else {
        2
    }) by {
        if a < m {
            assert(p[a] == p0[a]);
        } else if a < n {
            assert(p[a] == p1[a - m]);
        } else {
            assert(p[a] == p2[a - n]);
        }
    }
    assert forall|a: int, b: int| 0 <= a < b < p.len() implies ({
        let (s, t) = (steps[#[trigger] p[a]].stage, steps[#[trigger] p[b]].stage);
        &&& p[a] != p[b]
        &&& s == t ==> p[a] < p[b]
        &&& s == Stage::Install ==> t == Stage::Install
        &&& s == Stage::Build ==> t != Stage::Prepare
    }) by {
        if b < m {
            assert(p[a] == p0[a] && p[b] == p0[b]);
        } else if m <= a && b < n {
            assert(p[a] == p1[a - m] && p[b] == p1[b - m]);
        } else if n <= a {
            assert(p[a] == p2[a - n] && p[b] == p2[b - n]);
        }
    }
    p
}

/// What is recorded of a walk, `p` saying which member of it each record is: exactly the
/// members that have a kind and lie in the staging tree outside its `deps`, each by its
/// place below the tree, one record for each and in the order they were walked.
pub proof fn lemma_every_file_is_recorded<K>(list: Seq<WalkedView<K>>, staging: Seq<u8>) -> (p: Seq<
    int,
>)
    ensures
        p.len() == recorded(list, staging).len(),
        forall|a: int|
            0 <= a < p.len() ==> {
                let (relative, kind) = recorded(list, staging)[a];
                &&& 0 <= #[trigger] p[a] < list.len()
                &&& list[p[a]] is Found
                &&& list[p[a]]->kind == Some(kind)
                &&& below(list[p[a]]->path, staging) == Some(relative)
                &&& !starts_with(relative, encode_utf8("deps"@))
            },
        forall|a: int, b: int| 0 <= a < b < p.len() ==> #[trigger] p[a] < #[trigger] p[b],
        forall|i: int|
            0 <= i < list.len() && (#[trigger] list[i]) is Found && list[i]->kind is Some && (
            below(list[i]->path, staging) matches Some(relative) && !starts_with(
                relative,
                encode_utf8("deps"@),
            )) ==> p.contains(i),
    decreases list.len(),
{
    let all = recorded(list, staging);
    if list.len() == 0 {
        Seq::empty()
    } else {
        let shorter = list.drop_last();
        let rest = recorded(shorter, staging);
        let q = lemma_every_file_is_recorded(shorter, staging);
        let n = list.len() - 1;
        assert(list[n] == list.last());
        let p = if all.len() > rest.len() {
            q.push(n)
        } else {
            q
        };
        assert forall|a: int| 0 <= a < p.len() implies ({
            let (relative, kind) = all[a];
            &&& 0 <= #[trigger] p[a] < list.len()
            &&& list[p[a]] is Found
            &&& list[p[a]]->kind == Some(kind)
            &&& below(list[p[a]]->path, staging) == Some(relative)
            &&& !starts_with(relative, encode_utf8("deps"@))
        }) by {
            if a < q.len() {
                assert(p[a] == q[a]);
                assert(shorter[q[a]] == list[q[a]]);
                assert(all[a] == rest[a]);
            }
        }
        assert forall|i: int|
            0 <= i < list.len() && (#[trigger] list[i]) is Found && list[i]->kind is Some && (
            below(list[i]->path, staging) matches Some(relative) && !starts_with(
                relative,
                encode_utf8("deps"@),
            )) implies p.contains(i) by {
            if i < n {
                assert(shorter[i] == list[i]);
                assert(q.contains(i));
                let a = choose|a: int| 0 <= a < q.len() && q[a] == i;
                assert(p[a] == i);
            } else {
                assert(p[p.len() - 1] == i);
            }
        }
        p
    }
}

/// A walk is given up at the first member that cannot be recorded, and for what is wrong
/// with that one: the walk failed there, or what has a kind lies outside the staging
/// tree. It is given up for nothing else.
pub proof fn lemma_walk_is_given_up_at_the_first_failure<K>(
    list: Seq<WalkedView<K>>,
    staging: Seq<u8>,
    i: int,
)
    requires
        0 <= i <= list.len(),
    ensures
        walk_failures(list, staging, i) is None ==> forall|j: int|
            i <= j < list.len() ==> (#[trigger] list[j]) is Found && (list[j]->kind is None || below(
                list[j]->path,
                staging,
            ) is Some),
        walk_failures(list, staging, i) matches Some(report) ==> exists|k: int|
            #![trigger list[k]]
            i <= k < list.len() && (match list[k] {
                WalkedView::Failed(reason) => report == wrapped(
                    "cannot walk "@ + lossy(staging),
                    reason,
                ),
                WalkedView::Found { path, kind } => kind is Some && below(path, staging) is None
                    && report == wrapped(
                    lossy(path) + " escaped the staging tree"@,
                    said("prefix not found"@),
                ),
            }) && forall|j: int|
                i <= j < k ==> (#[trigger] list[j]) is Found && (list[j]->kind is None || below(
                    list[j]->path,
                    staging,
                ) is Some),
    decreases list.len() - i,
{
    if i < list.len() {
        lemma_walk_is_given_up_at_the_first_failure(list, staging, i + 1);
        if walk_failure(list[i], staging) is None {
            if walk_failures(list, staging, i + 1) is Some {
                let report = walk_failures(list, staging, i + 1)->0;
                let k = choose|k: int|
                    #![trigger list[k]]
                    i + 1 <= k < list.len() && (match list[k] {
                        WalkedView::Failed(reason) => report == wrapped(
                            "cannot walk "@ + lossy(staging),
                            reason,
                        ),
                        WalkedView::Found { path, kind } => kind is Some && below(path, staging)
                            is None && report == wrapped(
                            lossy(path) + " escaped the staging tree"@,
                            said("prefix not found"@),
                        ),
                    }) && forall|j: int|
                        i + 1 <= j < k ==> (#[trigger] list[j]) is Found && (list[j]->kind is None
                            || below(list[j]->path, staging) is Some);
                assert forall|j: int| i <= j < k implies (#[trigger] list[j]) is Found && (
                list[j]->kind is None || below(list[j]->path, staging) is Some) by {}
                assert(list[k] == list[k]);
            }
        } else {
            assert(list[i] == list[i]);
        }
    }
}

/// Of paths that are the same the first is kept, where it stands, and nothing else is
/// dropped: `p` says which of the paths are kept.
pub proof fn lemma_first_of_the_same_is_kept(list: Seq<Seq<u8>>) -> (p: Seq<int>)
    ensures
        p.len() == first_occurrences(list).len(),
        forall|a: int|
            0 <= a < p.len() ==> 0 <= #[trigger] p[a] < list.len() && first_occurrences(list)[a]
                == list[p[a]],
        forall|a: int, b: int| 0 <= a < b < p.len() ==> #[trigger] p[a] < #[trigger] p[b],
        forall|i: int, j: int|
            #![trigger list[i], list[j]]
            0 <= j < i < list.len() && p.contains(i) ==> !same_path(list[j], list[i]),
        forall|i: int|
            0 <= i < list.len() && !(#[trigger] p.contains(i)) ==> exists|j: int|
                0 <= j < i && same_path(#[trigger] list[j], list[i]),
    decreases list.len(),
{
    let all = first_occurrences(list);
    if list.len() == 0 {
        Seq::empty()
    } else {
        let shorter = list.drop_last();
        let rest = first_occurrences(shorter);
        let q = lemma_first_of_the_same_is_kept(shorter);
        let n = list.len() - 1;
        lemma_first_occurrences(shorter);
        let p = if holds_path(rest, list.last()) {
            q
        } else {
            q.push(n)
        };
        assert forall|a: int| 0 <= a < p.len() implies 0 <= #[trigger] p[a] < list.len() && all[a]
            == list[p[a]] by {
            if a < q.len() {
                assert(p[a] == q[a]);
                assert(shorter[q[a]] == list[q[a]]);
                assert(all[a] == rest[a]);
            }
        }
        assert forall|i: int, j: int|
            #![trigger list[i], list[j]]
            0 <= j < i < list.len() && p.contains(i) implies !same_path(list[j], list[i]) by {
            let a = choose|a: int| 0 <= a < p.len() && p[a] == i;
            assert(shorter[j] == list[j]);
            if i < n {
                assert(q[a] == i);
                assert(shorter[i] == list[i]);
            } else {
                if holds_path(rest, list.last()) {
                    assert(q[a] < shorter.len());
                }
                assert(holds_path(rest, shorter[j]));
                let k = choose|k: int|
                    0 <= k < rest.len() && same_path(#[trigger] rest[k], shorter[j]);
                assert(!same_path(rest[k], list.last()));
            }
        }
        assert forall|i: int|
            0 <= i < list.len() && !(#[trigger] p.contains(i)) implies exists|j: int|
            0 <= j < i && same_path(#[trigger] list[j], list[i]) by {
            if i < n {
                assert(shorter[i] == list[i]);
                if q.contains(i) {
                    let a = choose|a: int| 0 <= a < q.len() && q[a] == i;
                    assert(p[a] == i);
                }
                let j = choose|j: int|
                    0 <= j < i && same_path(#[trigger] shorter[j], shorter[i]);
                assert(list[j] == shorter[j]);
            } else {
                if !holds_path(rest, list.last()) {
                    assert(p[p.len() - 1] == i);
                }
                let k = choose|k: int|
                    0 <= k < rest.len() && same_path(#[trigger] rest[k], list.last());
                assert(q[k] < n);
                assert(list[q[k]] == shorter[q[k]]);
            }
        }
        p
    }
}

/// The directory of every path that is in one is named, in order and as often as it
/// holds a path; `p` says which path each is of.
pub proof fn lemma_parents_are_named_in_order(list: Seq<Seq<u8>>) -> (p: Seq<int>)
    ensures
        p.len() == parents(list).len(),
        forall|a: int|
            0 <= a < p.len() ==> 0 <= #[trigger] p[a] < list.len() && parent_of(list[p[a]]) == Some(
                parents(list)[a],
            ),
        forall|a: int, b: int| 0 <= a < b < p.len() ==> #[trigger] p[a] < #[trigger] p[b],
        forall|i: int|
            0 <= i < list.len() && parent_of(#[trigger] list[i]) is Some ==> p.contains(i),
    decreases list.len(),
{
    if list.len() == 0 {
        Seq::empty()
    } else {
        let shorter = list.drop_last();
        let q = lemma_parents_are_named_in_order(shorter);
        let n = list.len() - 1;
        let p = if parent_of(list.last()) is Some {
            q.push(n)
        } else {
            q
        };
        assert forall|a: int| 0 <= a < p.len() implies 0 <= #[trigger] p[a] < list.len()
            && parent_of(list[p[a]]) == Some(parents(list)[a]) by {
            if a < q.len() {
                assert(p[a] == q[a]);
                assert(shorter[q[a]] == list[q[a]]);
            }
        }
        assert forall|i: int|
            0 <= i < list.len() && parent_of(#[trigger] list[i]) is Some implies p.contains(i) by {
            if i < n {
                assert(shorter[i] == list[i]);
                let a = choose|a: int| 0 <= a < q.len() && q[a] == i;
                assert(p[a] == i);
            } else {
                assert(p[p.len() - 1] == i);
            }
        }
        p
    }
}

/// Every profile that an analysis came up with counts, in order, and nothing else does;
/// `p` says which analysis each is of.
pub proof fn lemma_every_profile_found_counts(list: Seq<Result<Option<Permissions>, Report>>) -> (p:
    Seq<int>)
    ensures
        p.len() == found_profiles(list).len(),
        forall|a: int|
            0 <= a < p.len() ==> 0 <= #[trigger] p[a] < list.len() && list[p[a]] is Ok
                && list[p[a]]->Ok_0 == Some(found_profiles(list)[a]),
        forall|a: int, b: int| 0 <= a < b < p.len() ==> #[trigger] p[a] < #[trigger] p[b],
        forall|i: int|
            0 <= i < list.len() && (#[trigger] list[i]) is Ok && list[i]->Ok_0 is Some
                ==> p.contains(i),
    decreases list.len(),
{
    if list.len() == 0 {
        Seq::empty()
    } else {
        let shorter = list.drop_last();
        let q = lemma_every_profile_found_counts(shorter);
        let n = list.len() - 1;
        let p = if list.last() is Ok && list.last()->Ok_0 is Some {
            q.push(n)
        } else {
            q
        };
        assert forall|a: int| 0 <= a < p.len() implies 0 <= #[trigger] p[a] < list.len()
            && list[p[a]] is Ok && list[p[a]]->Ok_0 == Some(found_profiles(list)[a]) by {
            if a < q.len() {
                assert(p[a] == q[a]);
                assert(shorter[q[a]] == list[q[a]]);
            }
        }
        assert forall|i: int|
            0 <= i < list.len() && (#[trigger] list[i]) is Ok && list[i]->Ok_0 is Some implies
            p.contains(i) by {
            if i < n {
                assert(shorter[i] == list[i]);
                let a = choose|a: int| 0 <= a < q.len() && q[a] == i;
                assert(p[a] == i);
            } else {
                assert(p[p.len() - 1] == i);
            }
        }
        p
    }
}

/// An archive is named for its package: the name, a dash, the version, and the suffix
/// that archives have. The components of the version have dots between them.
pub proof fn lemma_archives_are_named_for_their_packages(build: BuildFileView)
    ensures
        ({
            let name = archive_text(build);
            let n = build.name.len() as int;
            let version = name.subrange(n + 1, name.len() - 5);
            &&& name.len() >= n + 6
            &&& name.take(n) == build.name
            &&& name[n] == '-'
            &&& name.skip(name.len() - 5) == seq!['.', 'c', 'p', 'k', 'g']
            &&& name.take(name.len() - 5) == package_text(build)
            &&& version == version_text(build.version)
            &&& build.version.len() == 1 ==> version == build.version[0]
            &&& build.version.len() > 1 ==> version == version_text(build.version.drop_last()).push(
                '.',
            ) + build.version.last()
        }),
{
    reveal_strlit("-");
    reveal_strlit(".");
    reveal_strlit(".cpkg");
    let name = archive_text(build);
    let n = build.name.len() as int;
    assert(name.take(n) =~= build.name);
    assert(name.skip(name.len() - 5) =~= seq!['.', 'c', 'p', 'k', 'g']);
    assert(name.take(name.len() - 5) =~= package_text(build));
    assert(name.subrange(n + 1, name.len() - 5) =~= version_text(build.version));
    if build.version.len() > 1 {
        let start = version_text(build.version.drop_last());
        assert(version_text(build.version) =~= start.push('.') + build.version.last());
    }
}

} // verus!
