//! The steps of a build file.

use vstd::prelude::*;

use crate::report::copy_texts;
use crate::text::texts;

verus! {

/// When a step runs. The stages run in this order.
#[derive(Debug, Clone, Copy, PartialEq, Eq, Structural)]
pub enum Stage {
    /// Fetching and unpacking.
    Prepare,
    /// Compiling.
    Build,
    /// Copying into the package tree.
    Install,
}

/// Where a stage stands in the order they run in.
pub open spec fn stage_rank(stage: Stage) -> int {
    match stage {
        Stage::Prepare => 0,
        Stage::Build => 1,
        Stage::Install => 2,
    }
}

impl Stage {
    /// Where this stage stands in the order they run in.
    pub fn rank(&self) -> (r: u8)
        ensures
            r as int == stage_rank(*self),
    {
        match self {
            Stage::Prepare => 0,
            Stage::Build => 1,
            Stage::Install => 2,
        }
    }
}

/// A file to fetch before a step runs, and the digest it must have.
#[derive(Debug, PartialEq, Eq)]
pub struct Download {
    pub url: String,
    pub sha256: String,
}

impl Clone for Download {
    fn clone(&self) -> (r: Self)
        ensures
            r == *self,
    {
        Download { url: self.url.clone(), sha256: self.sha256.clone() }
    }
}

/// One step: what to fetch, and which commands to run.
#[derive(Debug, PartialEq, Eq)]
pub struct Step {
    pub stage: Stage,
    pub dl_urls: Option<Vec<Download>>,
    pub name: String,
    pub run: Vec<String>,
}

/// What a [`Step`] says.
pub struct StepView {
    pub stage: Stage,
    pub dl_urls: Option<Seq<(Seq<char>, Seq<char>)>>,
    pub name: Seq<char>,
    pub run: Seq<Seq<char>>,
}

/// Each address to fetch, with the digest it must have.
pub open spec fn download_views(list: Seq<Download>) -> Seq<(Seq<char>, Seq<char>)> {
    list.map_values(|d: Download| (d.url@, d.sha256@))
}

impl View for Step {
    type V = StepView;

    open spec fn view(&self) -> StepView {
        StepView {
            stage: self.stage,
            dl_urls: match self.dl_urls {
                Some(list) => Some(download_views(list@)),
                None => None,
            },
            name: self.name@,
            run: texts(self.run@),
        }
    }
}

/// What each step of a list says.
pub open spec fn step_views(list: Seq<Step>) -> Seq<StepView> {
    list.map_values(|s: Step| s@)
}

fn copy_downloads(list: &Vec<Download>) -> (r: Vec<Download>)
    ensures
        r@ == list@,
{
    let mut r: Vec<Download> = Vec::new();
    let mut i: usize = 0;
    while i < list.len()
        invariant
            i <= list@.len(),
            r@ == list@.take(i as int),
        decreases list@.len() - i,
    {
        r.push(list[i].clone());
        assert(list@.take(i + 1) =~= list@.take(i as int).push(list@[i as int]));
        i += 1;
    }
    assert(list@.take(list@.len() as int) =~= list@);
    r
}

impl Clone for Step {
    fn clone(&self) -> (r: Self)
        ensures
            r@ == self@,
    {
        let dl_urls = match &self.dl_urls {
            Some(list) => Some(copy_downloads(list)),
            None => None,
        };
        Step { stage: self.stage, dl_urls, name: self.name.clone(), run: copy_texts(&self.run) }
    }
}

/// What prepares comes before what builds, and that before what installs.
pub proof fn lemma_order_of_stages(stage: Stage)
    ensures
        stage == Stage::Prepare <==> stage_rank(stage) == 0,
        stage == Stage::Build <==> stage_rank(stage) == 1,
        stage == Stage::Install <==> stage_rank(stage) == 2,
{
}

} // verus!
