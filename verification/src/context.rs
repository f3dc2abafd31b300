//! What a build reads out of the environment.
//!
//! A daemon that builds on a caller's behalf has a working directory, a search
//! path and a home of its own, and none of them is the caller's. A
//! [`BuildContext`] carries the caller's.

use vstd::prelude::*;
use vstd::utf8::encode_utf8;

use crate::bf::optional_path;
use crate::path::FilePath;
use crate::sandbox::CONTAINER_PATH;

verus! {

/// Everything a build reads out of "the environment" instead of taking as an
/// explicit argument.
#[derive(Debug)]
pub struct BuildContext {
    /// The base relative dependency paths resolve against.
    pub cwd: FilePath,
    /// Where a finished package lands.
    pub output_dir: FilePath,
    /// The trust store build-file signatures verify against.
    pub trust_dir: FilePath,
    /// The directories a step's first word is looked up in, separated by colons.
    pub path: FilePath,
    /// The home directory that toolchain mounting refuses to cross.
    pub home: Option<FilePath>,
    /// The parent directory for build workspaces; `None` means the system's.
    pub scratch_root: Option<FilePath>,
}

/// What a [`BuildContext`] says.
pub struct BuildContextView {
    pub cwd: Seq<u8>,
    pub output_dir: Seq<u8>,
    pub trust_dir: Seq<u8>,
    pub path: Seq<u8>,
    pub home: Option<Seq<u8>>,
    pub scratch_root: Option<Seq<u8>>,
}

impl View for BuildContext {
    type V = BuildContextView;

    open spec fn view(&self) -> BuildContextView {
        BuildContextView {
            cwd: self.cwd@,
            output_dir: self.output_dir@,
            trust_dir: self.trust_dir@,
            path: self.path@,
            home: optional_path(self.home),
            scratch_root: optional_path(self.scratch_root),
        }
    }
}

impl BuildContext {
    /// The context of a process that runs in `cwd`: packages land there, and a
    /// process without a search path gets the one commands have in the jail.
    pub fn captured(
        cwd: FilePath,
        trust_dir: FilePath,
        path: Option<FilePath>,
        home: Option<FilePath>,
    ) -> (r: BuildContext)
        ensures
            r@ == (BuildContextView {
                cwd: cwd@,
                output_dir: cwd@,
                trust_dir: trust_dir@,
                path: match path {
                    Some(p) => p@,
                    None => encode_utf8(CONTAINER_PATH@),
                },
                home: optional_path(home),
                scratch_root: None,
            }),
    {
        let path = match path {
            Some(p) => p,
            None => FilePath::from_text(CONTAINER_PATH),
        };
        BuildContext { output_dir: cwd.clone(), cwd, trust_dir, path, home, scratch_root: None }
    }

    /// Resolve relative dependency paths against `cwd` instead.
    pub fn with_cwd(self, cwd: FilePath) -> (r: BuildContext)
        ensures
            r@ == (BuildContextView { cwd: cwd@, ..self@ }),
    {
        BuildContext { cwd, ..self }
    }

    /// Write a finished archive under `output_dir` instead.
    pub fn with_output_dir(self, output_dir: FilePath) -> (r: BuildContext)
        ensures
            r@ == (BuildContextView { output_dir: output_dir@, ..self@ }),
    {
        BuildContext { output_dir, ..self }
    }

    /// Verify build-file signatures against `trust_dir` instead.
    pub fn with_trust_dir(self, trust_dir: FilePath) -> (r: BuildContext)
        ensures
            r@ == (BuildContextView { trust_dir: trust_dir@, ..self@ }),
    {
        BuildContext { trust_dir, ..self }
    }

    /// Resolve step commands and toolchain mounts against `path` instead.
    pub fn with_path(self, path: FilePath) -> (r: BuildContext)
        ensures
            r@ == (BuildContextView { path: path@, ..self@ }),
    {
        BuildContext { path, ..self }
    }

    /// Treat `home` as the home directory toolchain mounting refuses to cross.
    pub fn with_home(self, home: Option<FilePath>) -> (r: BuildContext)
        ensures
            r@ == (BuildContextView { home: optional_path(home), ..self@ }),
    {
        BuildContext { home, ..self }
    }

    /// Place build workspaces under `scratch_root` instead.
    pub fn with_scratch_root(self, scratch_root: Option<FilePath>) -> (r: BuildContext)
        ensures
            r@ == (BuildContextView { scratch_root: optional_path(scratch_root), ..self@ }),
    {
        BuildContext { scratch_root, ..self }
    }
}

} // verus!
