//! Resolving a build file's dependency graph.
//!
//! The shape of the graph is settled before anything is built. A [`Resolver`]
//! walks the build files reachable from a root depth first. It decides what to
//! ask next - a sandbox policy, where a dependency really lies, what a build file
//! says - and takes the answers; it rejects a missing build file, a cycle or a
//! command that cannot be classified. What it ends with is a [`Graph`], in which
//! two packages never fight over one archive name.

use vstd::prelude::*;

use crate::bf::{archive_text, BuildFile, BuildFileView, Verification};
use crate::path::{joined_path, lossy, same_path, FilePath};
use crate::policy::BuildPolicy;
use crate::report::{said, wrapped, Report};
use crate::schedule::{needs, ordered, Edges};
use crate::text::{join, joined, texts};

verus! {

/// One package in the graph.
pub struct Node {
    /// Canonical path of the build file. Two build files at one path are one
    /// package, which is what makes a diamond a single node.
    pub key: FilePath,
    pub build: BuildFile,
    pub policy: BuildPolicy,
    /// Indices of the packages this one depends on.
    pub dependencies: Vec<usize>,
}

/// The numbers in `list` as mathematical integers.
pub open spec fn indices(list: Seq<usize>) -> Seq<int> {
    list.map_values(|x: usize| x as int)
}

/// What a [`Node`] says.
pub struct NodeView {
    pub key: Seq<u8>,
    pub build: BuildFileView,
    pub policy: BuildPolicy,
    pub dependencies: Seq<int>,
}

impl View for Node {
    type V = NodeView;

    open spec fn view(&self) -> NodeView {
        NodeView {
            key: self.key@,
            build: self.build@,
            policy: self.policy,
            dependencies: indices(self.dependencies@),
        }
    }
}

/// What each node of a list says.
pub open spec fn node_views(nodes: Seq<Node>) -> Seq<NodeView> {
    nodes.map_values(|n: Node| n@)
}

/// What each package of a list depends on.
pub open spec fn edges_of(nodes: Seq<Node>) -> Edges {
    nodes.map_values(|n: Node| n.dependencies@)
}

/// Every build file reachable from a root, resolved and checked.
///
/// Holding one of these is the statement that the graph is buildable: the
/// checks that could reject it have already run.
pub struct Graph {
    pub nodes: Vec<Node>,
    /// The package the caller asked for, whose archive is the build's result.
    pub root: usize,
    /// Node indices in an order where every dependency precedes its dependents.
    pub order: Vec<usize>,
}

/// Some package after `i` depends on package `i`.
pub open spec fn named_by_node(nodes: Seq<NodeView>, i: int) -> bool {
    exists|j: int, k: int|
        i < j < nodes.len() && 0 <= k < nodes[j].dependencies.len() && #[trigger] nodes[j].dependencies[k]
            == i
}

/// Each node depends on earlier nodes, one for each dependency its build file
/// lists.
pub open spec fn nodes_in_order(nodes: Seq<NodeView>) -> bool {
    &&& forall|i: int, k: int|
        0 <= i < nodes.len() && 0 <= k < nodes[i].dependencies.len()
            ==> 0 <= #[trigger] nodes[i].dependencies[k] < i
    &&& forall|i: int|
        0 <= i < nodes.len() ==> (#[trigger] nodes[i]).dependencies.len()
            == nodes[i].build.dependencies.len()
}

/// No two nodes share a build file.
pub open spec fn distinct_nodes(nodes: Seq<NodeView>) -> bool {
    forall|i: int, j: int|
        0 <= i < j < nodes.len() ==> !same_path((#[trigger] nodes[i]).key, (
        #[trigger] nodes[j]).key)
}

/// No two nodes are packaged to the same file name.
pub open spec fn distinct_archives(nodes: Seq<NodeView>) -> bool {
    forall|i: int, j: int|
        0 <= i < j < nodes.len() ==> archive_text((#[trigger] nodes[i]).build) != archive_text(
            (#[trigger] nodes[j]).build,
        )
}

/// Each position holds its own number.
pub open spec fn in_sequence(order: Seq<usize>) -> bool {
    forall|i: int| 0 <= i < order.len() ==> #[trigger] order[i] == i
}

impl Graph {
    /// What each package depends on.
    pub open spec fn edges(&self) -> Edges {
        edges_of(self.nodes@)
    }

    /// The graph can be built: dependencies come before what needs them, one node
    /// stands for each build file, each package but the root is there because a
    /// later one depends on it, and every package has an archive name of its own.
    pub open spec fn wf(&self) -> bool {
        let nodes = node_views(self.nodes@);
        &&& nodes.len() > 0
        &&& self.root == nodes.len() - 1
        &&& self.order@.len() == nodes.len()
        &&& in_sequence(self.order@)
        &&& nodes_in_order(nodes)
        &&& distinct_nodes(nodes)
        &&& distinct_archives(nodes)
        &&& forall|i: int| 0 <= i < self.root ==> #[trigger] named_by_node(nodes, i)
        &&& forall|i: int|
            0 <= i < nodes.len() ==> (#[trigger] nodes[i]).build.verification
                == nodes[self.root as int].build.verification
    }

    /// How many packages the graph holds, the root included.
    pub fn len(&self) -> (r: usize)
        ensures
            r == self.nodes@.len(),
    {
        self.nodes.len()
    }

    /// Whether the graph holds no packages at all.
    pub fn is_empty(&self) -> (r: bool)
        ensures
            r == (self.nodes@.len() == 0),
    {
        self.nodes.len() == 0
    }

    /// Package names, every dependency ahead of the packages that need it.
    pub fn order(&self) -> (names: Vec<&str>)
        requires
            forall|i: int|
                0 <= i < self.order@.len() ==> (#[trigger] self.order@[i]) < self.nodes@.len(),
        ensures
            names@.len() == self.order@.len(),
            forall|i: int|
                0 <= i < names@.len() ==> (#[trigger] names@[i])@
                    == self.nodes@[self.order@[i] as int].build@.name,
    {
        let mut names: Vec<&str> = Vec::new();
        let mut i: usize = 0;
        while i < self.order.len()
            invariant
                i <= self.order@.len(),
                forall|j: int|
                    0 <= j < self.order@.len() ==> (#[trigger] self.order@[j])
                        < self.nodes@.len(),
                names@.len() == i,
                forall|j: int|
                    0 <= j < i ==> (#[trigger] names@[j])@
                        == self.nodes@[self.order@[j] as int].build@.name,
            decreases self.order@.len() - i,
        {
            let index: usize = self.order[i];
            names.push(self.nodes[index].build.name());
            i += 1;
        }
        names
    }

    /// Reject two packages that would be packaged to the same file name.
    ///
    /// The first node whose archive name an earlier one has is what is reported,
    /// with that earlier one.
    fn reject_archive_collisions(&self) -> (r: Result<(), Report>)
        ensures
            r is Ok <==> distinct_archives(node_views(self.nodes@)),
            r is Err ==> exists|i: int, j: int|
                0 <= i < j < self.nodes@.len() && #[trigger] first_collision(
                    node_views(self.nodes@),
                    i,
                    j,
                ) && r->Err_0@ == said(collision_text(node_views(self.nodes@), i, j)),
    {
        let ghost nodes = node_views(self.nodes@);
        let mut j: usize = 0;
        while j < self.nodes.len()
            invariant
                j <= self.nodes@.len(),
                nodes == node_views(self.nodes@),
                distinct_archives(nodes.take(j as int)),
            decreases self.nodes@.len() - j,
        {
            let archive = self.nodes[j].build.archive_name();
            assert(nodes[j as int].build == self.nodes@[j as int].build@);
            let mut i: usize = 0;
            while i < j
                invariant
                    i <= j < self.nodes@.len(),
                    nodes == node_views(self.nodes@),
                    archive@ == archive_text(nodes[j as int].build),
                    distinct_archives(nodes.take(j as int)),
                    forall|m: int|
                        0 <= m < i ==> archive_text((#[trigger] nodes[m]).build) != archive@,
                decreases j - i,
            {
                assert(nodes[i as int].build == self.nodes@[i as int].build@);
                let earlier = self.nodes[i].build.archive_name();
                if earlier == archive {
                    let mut message = "two build files in this graph both package to `".to_owned();
                    message.push_str(archive.as_str());
                    message.push_str("`: ");
                    message.push_str(self.nodes[i].key.display().as_str());
                    message.push_str(" and ");
                    message.push_str(self.nodes[j].key.display().as_str());
                    message.push_str("; rename or re-version one of them");
                    proof {
                        assert(message@ =~= collision_text(nodes, i as int, j as int));
                        assert(first_collision(nodes, i as int, j as int));
                        assert(!distinct_archives(nodes)) by {
                            assert(archive_text(nodes[i as int].build) == archive_text(
                                nodes[j as int].build,
                            ));
                        }
                    }
                    return Err(Report::new(message));
                }
                i += 1;
            }
            proof {
                let shown = nodes.take(j + 1);
                assert forall|a: int, b: int| 0 <= a < b < shown.len() implies archive_text(
                    (#[trigger] shown[a]).build,
                ) != archive_text((#[trigger] shown[b]).build) by {
                    if b < j {
                        assert(nodes.take(j as int)[a] == shown[a]);
                        assert(nodes.take(j as int)[b] == shown[b]);
                    } else {
                        assert(shown[a] == nodes[a]);
                    }
                }
            }
            j += 1;
        }
        assert(nodes.take(nodes.len() as int) =~= nodes);
        Ok(())
    }
}

/// `j` is the first node whose archive name an earlier node has, and `i` is that
/// earlier node.
pub open spec fn first_collision(nodes: Seq<NodeView>, i: int, j: int) -> bool {
    &&& archive_text(nodes[i].build) == archive_text(nodes[j].build)
    &&& distinct_archives(nodes.take(j))
}

/// What is said of two build files that package to one name.
pub open spec fn collision_text(nodes: Seq<NodeView>, i: int, j: int) -> Seq<char> {
    "two build files in this graph both package to `"@ + archive_text(nodes[j].build) + "`: "@
        + lossy(nodes[i].key) + " and "@ + lossy(nodes[j].key)
        + "; rename or re-version one of them"@
}

/// A build file on the current depth-first path, and the dependencies of it that
/// have been resolved so far.
pub struct Frame {
    pub key: FilePath,
    pub build: BuildFile,
    pub policy: BuildPolicy,
    pub resolved: Vec<usize>,
}

/// What a [`Frame`] says.
pub struct FrameView {
    pub key: Seq<u8>,
    pub build: BuildFileView,
    pub policy: BuildPolicy,
    pub resolved: Seq<int>,
}

impl View for Frame {
    type V = FrameView;

    open spec fn view(&self) -> FrameView {
        FrameView {
            key: self.key@,
            build: self.build@,
            policy: self.policy,
            resolved: indices(self.resolved@),
        }
    }
}

/// What each frame of a path says.
pub open spec fn frame_views(stack: Seq<Frame>) -> Seq<FrameView> {
    stack.map_values(|f: Frame| f@)
}

/// A build file that is not on the path yet.
pub enum Pending {
    /// Every build file that was read is on the path or resolved.
    Nothing,
    /// Its sandbox policy is being derived.
    Entering {
        key: FilePath,
        build: BuildFile,
    },
    /// It is being read.
    Loading {
        key: FilePath,
    },
}

/// What a [`Pending`] says.
pub enum PendingView {
    Nothing,
    Entering {
        key: Seq<u8>,
        build: BuildFileView,
    },
    Loading {
        key: Seq<u8>,
    },
}

impl View for Pending {
    type V = PendingView;

    open spec fn view(&self) -> PendingView {
        match *self {
            Pending::Nothing => PendingView::Nothing,
            Pending::Entering { key, build } => PendingView::Entering { key: key@, build: build@ },
            Pending::Loading { key } => PendingView::Loading { key: key@ },
        }
    }
}

/// What the resolver wants to know next.
pub enum Ask {
    /// Derive the sandbox policy of this build file.
    Policy {
        build: BuildFile,
        permissive: bool,
    },
    /// Say whether there is a file here, and what its canonical path is.
    Probe {
        path: FilePath,
    },
    /// Read the build file at this path, as strictly as this.
    Load {
        key: FilePath,
        verification: Verification,
    },
    /// Nothing: the graph is complete.
    Done,
}

/// What an [`Ask`] says.
pub enum AskView {
    Policy {
        build: BuildFileView,
        permissive: bool,
    },
    Probe {
        path: Seq<u8>,
    },
    Load {
        key: Seq<u8>,
        verification: Verification,
    },
    Done,
}

impl View for Ask {
    type V = AskView;

    open spec fn view(&self) -> AskView {
        match *self {
            Ask::Policy { build, permissive } => AskView::Policy { build: build@, permissive },
            Ask::Probe { path } => AskView::Probe { path: path@ },
            Ask::Load { key, verification } => AskView::Load { key: key@, verification },
            Ask::Done => AskView::Done,
        }
    }
}

/// What was found at a path.
pub enum Probe {
    /// There is no regular file there.
    NotAFile,
    /// There is one, but its canonical path cannot be determined.
    Unresolvable(Report),
    /// There is one, and this is its canonical path.
    At(FilePath),
}

/// Depth-first resolution state.
pub struct Resolver {
    /// Where relative dependency paths start.
    pub cwd: FilePath,
    /// How strictly build files are read: as strictly as the root was.
    pub verification: Verification,
    pub permissive: bool,
    pub nodes: Vec<Node>,
    pub order: Vec<usize>,
    pub stack: Vec<Frame>,
    pub pending: Pending,
}

/// What a [`Resolver`] knows.
pub struct ResolverView {
    pub cwd: Seq<u8>,
    pub verification: Verification,
    pub permissive: bool,
    pub nodes: Seq<NodeView>,
    pub order: Seq<int>,
    pub stack: Seq<FrameView>,
    pub pending: PendingView,
}

impl View for Resolver {
    type V = ResolverView;

    open spec fn view(&self) -> ResolverView {
        ResolverView {
            cwd: self.cwd@,
            verification: self.verification,
            permissive: self.permissive,
            nodes: node_views(self.nodes@),
            order: indices(self.order@),
            stack: frame_views(self.stack@),
            pending: self.pending@,
        }
    }
}

/// Every dependency of the build file is resolved.
pub open spec fn complete(f: FrameView) -> bool {
    f.resolved.len() >= f.build.dependencies.len()
}

/// The state once the complete build file at the end of the path has become a
/// node, and whatever asked for it has been told its index.
pub open spec fn closed_once(v: ResolverView) -> ResolverView {
    let f = v.stack.last();
    let rest = v.stack.drop_last();
    let node = NodeView {
        key: f.key,
        build: f.build,
        policy: f.policy,
        dependencies: f.resolved,
    };
    ResolverView {
        nodes: v.nodes.push(node),
        order: v.order.push(v.nodes.len() as int),
        stack: if rest.len() == 0 {
            rest
        } else {
            told(rest, v.nodes.len() as int)
        },
        ..v
    }
}

/// The path once the build file at its end has had its next dependency resolved
/// to `index`.
pub open spec fn told(stack: Seq<FrameView>, index: int) -> Seq<FrameView> {
    let f = stack.last();
    stack.drop_last().push(FrameView { resolved: f.resolved.push(index), ..f })
}

/// The state once every build file at the end of the path that is complete has
/// become a node.
pub open spec fn closed(v: ResolverView) -> ResolverView
    decreases v.stack.len(),
{
    if v.stack.len() == 0 || !complete(v.stack.last()) {
        v
    } else {
        closed(closed_once(v))
    }
}

/// The build file the walk started at, and its identity: the first on the path, the
/// one about to be put there, or the last to have become a node.
pub open spec fn root_of(v: ResolverView) -> (Seq<u8>, BuildFileView) {
    if v.stack.len() > 0 {
        (v.stack[0].key, v.stack[0].build)
    } else {
        match v.pending {
            PendingView::Entering { key, build } => (key, build),
            _ => (v.nodes.last().key, v.nodes.last().build),
        }
    }
}

/// What a graph is resolved by stays as it was at the start.
pub open spec fn same_terms(v: ResolverView, w: ResolverView) -> bool {
    v.cwd == w.cwd && v.verification == w.verification && v.permissive == w.permissive
}

proof fn lemma_closing_keeps_the_root(v: ResolverView)
    requires
        v.pending is Nothing,
    ensures
        root_of(closed(v)) == root_of(v),
        closed(v).pending is Nothing,
        closed(v).cwd == v.cwd,
        closed(v).verification == v.verification,
        closed(v).permissive == v.permissive,
    decreases v.stack.len(),
{
    if v.stack.len() > 0 && complete(v.stack.last()) {
        lemma_closing_keeps_the_root(closed_once(v));
    }
}

/// The dependency that comes next, as its build file writes it.
pub open spec fn next_dependency(v: ResolverView) -> Seq<u8> {
    let f = v.stack.last();
    f.build.dependencies[f.resolved.len() as int]
}

/// What there is to ask in this state.
pub open spec fn ask_of(v: ResolverView) -> AskView {
    match v.pending {
        PendingView::Entering { key, build } => AskView::Policy {
            build,
            permissive: v.permissive,
        },
        PendingView::Loading { key } => AskView::Load { key, verification: v.verification },
        PendingView::Nothing => if v.stack.len() == 0 {
            AskView::Done
        } else {
            AskView::Probe { path: joined_path(v.cwd, next_dependency(v)) }
        },
    }
}

/// The build file at `key` is resolved, at some index.
pub open spec fn is_resolved(v: ResolverView, key: Seq<u8>) -> bool {
    exists|i: int| 0 <= i < v.nodes.len() && same_path((#[trigger] v.nodes[i]).key, key)
}

/// The build file at `key` is on the current path.
pub open spec fn is_visiting(v: ResolverView, key: Seq<u8>) -> bool {
    exists|i: int| 0 <= i < v.stack.len() && same_path((#[trigger] v.stack[i]).key, key)
}

/// The keys of the build files on a path.
pub open spec fn stack_keys(stack: Seq<FrameView>) -> Seq<Seq<u8>> {
    stack.map_values(|f: FrameView| f.key)
}

/// Some frame has had a dependency resolved to `i`.
pub open spec fn named_by_frame(stack: Seq<FrameView>, i: int) -> bool {
    exists|f: int, k: int|
        0 <= f < stack.len() && 0 <= k < stack[f].resolved.len() && #[trigger] stack[f].resolved[k]
            == i
}

/// What holds of nodes and path at any time, whether or not the build file at the
/// end of the path is complete.
pub open spec fn walking(v: ResolverView) -> bool {
    &&& nodes_in_order(v.nodes)
    &&& distinct_nodes(v.nodes)
    &&& forall|f: int, g: int|
        0 <= f < g < v.stack.len() ==> !same_path((#[trigger] v.stack[f]).key, (
        #[trigger] v.stack[g]).key)
    &&& forall|i: int, f: int|
        0 <= i < v.nodes.len() && 0 <= f < v.stack.len() ==> !same_path(
            (#[trigger] v.nodes[i]).key,
            (#[trigger] v.stack[f]).key,
        )
    &&& forall|f: int, k: int|
        0 <= f < v.stack.len() && 0 <= k < v.stack[f].resolved.len()
            ==> 0 <= #[trigger] v.stack[f].resolved[k] < v.nodes.len()
    &&& forall|f: int|
        0 <= f < v.stack.len() ==> (#[trigger] v.stack[f]).resolved.len()
            <= v.stack[f].build.dependencies.len() && (f < v.stack.len() - 1
            ==> v.stack[f].resolved.len() < v.stack[f].build.dependencies.len())
    &&& forall|i: int|
        0 <= i < v.nodes.len() ==> #[trigger] named_by_node(v.nodes, i) || named_by_frame(
            v.stack,
            i,
        ) || (v.stack.len() == 0 && i == v.nodes.len() - 1)
    &&& forall|i: int|
        0 <= i < v.nodes.len() ==> (#[trigger] v.nodes[i]).build.verification == v.verification
    &&& forall|f: int|
        0 <= f < v.stack.len() ==> (#[trigger] v.stack[f]).build.verification == v.verification
}

/// The resolver has a question to ask, and its answer can be used.
pub open spec fn resting(v: ResolverView) -> bool {
    &&& walking(v)
    &&& v.stack.len() > 0 ==> !complete(v.stack.last())
    &&& match v.pending {
        PendingView::Nothing => v.nodes.len() > 0 || v.stack.len() > 0,
        PendingView::Entering { key, build } => {
            &&& !is_resolved(v, key)
            &&& !is_visiting(v, key)
            &&& build.verification == v.verification
            &&& v.stack.len() == 0 ==> v.nodes.len() == 0
        },
        PendingView::Loading { key } => {
            &&& !is_resolved(v, key)
            &&& !is_visiting(v, key)
            &&& v.stack.len() > 0
        },
    }
}

proof fn lemma_closed_once(v: ResolverView)
    requires
        walking(v),
        v.stack.len() > 0,
        complete(v.stack.last()),
    ensures
        walking(closed_once(v)),
{
    let w = closed_once(v);
    let top = v.stack.len() - 1;
    let n = v.nodes.len() as int;
    assert(v.stack[top] == v.stack.last());
    assert forall|i: int| 0 <= i < w.nodes.len() implies #[trigger] named_by_node(w.nodes, i)
        || named_by_frame(w.stack, i) || (w.stack.len() == 0 && i == w.nodes.len() - 1) by {
        if i == n {
            if w.stack.len() > 0 {
                let f = w.stack.len() - 1;
                let k = w.stack[f].resolved.len() - 1;
                assert(w.stack[f].resolved[k] == i);
            }
        } else if named_by_node(v.nodes, i) {
            let (j, k) = choose|j: int, k: int|
                i < j < v.nodes.len() && 0 <= k < v.nodes[j].dependencies.len()
                    && #[trigger] v.nodes[j].dependencies[k] == i;
            assert(w.nodes[j] == v.nodes[j]);
            assert(w.nodes[j].dependencies[k] == i);
        } else {
            let (f, k) = choose|f: int, k: int|
                0 <= f < v.stack.len() && 0 <= k < v.stack[f].resolved.len()
                    && #[trigger] v.stack[f].resolved[k] == i;
            if f == top {
                assert(w.nodes[n].dependencies[k] == i);
            } else {
                assert(w.stack[f].resolved[k] == i);
            }
        }
    }
    assert forall|i: int, k: int|
        0 <= i < w.nodes.len() && 0 <= k < w.nodes[i].dependencies.len() implies
        0 <= #[trigger] w.nodes[i].dependencies[k] < i by {
        if i == n {
            assert(v.stack[top].resolved[k] < v.nodes.len());
        } else {
            assert(v.nodes[i].dependencies[k] < i);
        }
    }
    assert forall|f: int, k: int|
        0 <= f < w.stack.len() && 0 <= k < w.stack[f].resolved.len() implies
        0 <= #[trigger] w.stack[f].resolved[k] < w.nodes.len() by {
        if k < v.stack[f].resolved.len() {
            assert(v.stack[f].resolved[k] < v.nodes.len());
            assert(w.stack[f].resolved[k] == v.stack[f].resolved[k]);
        }
    }
    assert forall|f: int| 0 <= f < w.stack.len() implies (#[trigger] w.stack[f]).resolved.len()
        <= w.stack[f].build.dependencies.len() && (f < w.stack.len() - 1
        ==> w.stack[f].resolved.len() < w.stack[f].build.dependencies.len())
        && w.stack[f].build.verification == w.verification by {
        assert(v.stack[f].resolved.len() < v.stack[f].build.dependencies.len());
    }
    assert forall|f: int, g: int| 0 <= f < g < w.stack.len() implies !same_path(
        (#[trigger] w.stack[f]).key,
        (#[trigger] w.stack[g]).key,
    ) by {
        assert(w.stack[f].key == v.stack[f].key);
        assert(w.stack[g].key == v.stack[g].key);
    }
    assert forall|i: int, f: int| 0 <= i < w.nodes.len() && 0 <= f < w.stack.len() implies
        !same_path((#[trigger] w.nodes[i]).key, (#[trigger] w.stack[f]).key) by {
        assert(w.stack[f].key == v.stack[f].key);
        if i == n {
            assert(!same_path(v.stack[f].key, v.stack[top].key));
        } else {
            assert(w.nodes[i] == v.nodes[i]);
        }
    }
    assert forall|i: int, j: int| 0 <= i < j < w.nodes.len() implies !same_path(
        (#[trigger] w.nodes[i]).key,
        (#[trigger] w.nodes[j]).key,
    ) by {
        assert(w.nodes[i] == v.nodes[i]);
        if j == n {
            assert(!same_path(v.nodes[i].key, v.stack[top].key));
        } else {
            assert(w.nodes[j] == v.nodes[j]);
        }
    }
}

proof fn lemma_closed(v: ResolverView)
    requires
        walking(v),
        v.pending is Nothing,
        v.nodes.len() > 0 || v.stack.len() > 0,
    ensures
        resting(closed(v)),
    decreases v.stack.len(),
{
    if v.stack.len() > 0 && complete(v.stack.last()) {
        lemma_closed_once(v);
        lemma_closed(closed_once(v));
    }
}

/// Where `key` first occurs on a path, counting from the front.
pub open spec fn first_same(keys: Seq<Seq<u8>>, key: Seq<u8>) -> int
    decreases keys.len(),
{
    if keys.len() == 0 || same_path(keys[0], key) {
        0
    } else {
        1 + first_same(keys.skip(1), key)
    }
}

/// The cycle that `key` closes on a path that holds it: each build file from
/// `key` on, and `key` again.
pub open spec fn cycle_text(keys: Seq<Seq<u8>>, key: Seq<u8>) -> Seq<char> {
    let start = if first_same(keys, key) < keys.len() {
        first_same(keys, key)
    } else {
        0
    };
    joined(keys.skip(start).push(key).map_values(|p: Seq<u8>| lossy(p)), " -> "@)
}

/// The keys of a path.
pub open spec fn frame_keys(stack: Seq<Frame>) -> Seq<Seq<u8>> {
    stack_keys(frame_views(stack))
}

proof fn lemma_first_same(keys: Seq<Seq<u8>>, key: Seq<u8>, i: int)
    requires
        0 <= i <= keys.len(),
        forall|j: int| 0 <= j < i ==> !same_path(#[trigger] keys[j], key),
        i < keys.len() ==> same_path(keys[i], key),
    ensures
        first_same(keys, key) == i,
    decreases keys.len(),
{
    if i > 0 {
        assert(!same_path(keys[0], key));
        let rest = keys.skip(1);
        assert forall|j: int| 0 <= j < i - 1 implies !same_path(#[trigger] rest[j], key) by {
            assert(rest[j] == keys[j + 1]);
        }
        lemma_first_same(rest, key, i - 1);
    }
}

/// Render the cycle that `key` closes when it is entered again.
fn cycle_chain(visiting: &Vec<Frame>, key: &FilePath) -> (r: String)
    ensures
        r@ == cycle_text(frame_keys(visiting@), key@),
{
    let ghost keys = frame_keys(visiting@);
    let mut start: usize = 0;
    while start < visiting.len() && !visiting[start].key.same(key)
        invariant
            start <= visiting@.len(),
            keys == frame_keys(visiting@),
            forall|j: int| 0 <= j < start ==> !same_path(#[trigger] keys[j], key@),
        decreases visiting@.len() - start,
    {
        assert(keys[start as int] == visiting@[start as int].key@);
        start += 1;
    }
    proof {
        if start < visiting@.len() {
            assert(keys[start as int] == visiting@[start as int].key@);
        }
        lemma_first_same(keys, key@, start as int);
    }
    if start == visiting.len() {
        start = 0;
    }
    let mut shown: Vec<String> = Vec::new();
    let mut i: usize = start;
    let ghost from = keys.skip(start as int);
    while i < visiting.len()
        invariant
            start <= i <= visiting@.len(),
            keys == frame_keys(visiting@),
            from == keys.skip(start as int),
            shown@.len() == i - start,
            forall|j: int| 0 <= j < shown@.len() ==> (#[trigger] shown@[j])@ == lossy(from[j]),
        decreases visiting@.len() - i,
    {
        assert(from[i - start] == visiting@[i as int].key@);
        shown.push(visiting[i].key.display());
        i += 1;
    }
    shown.push(key.display());
    proof {
        let all = from.push(key@).map_values(|p: Seq<u8>| lossy(p));
        assert(texts(shown@) =~= all);
    }
    join(&shown, " -> ")
}

/// The identity of the root when it was not read from a file.
pub const IN_MEMORY: &'static str = "<in-memory build file>";

/// The identity of the root: its canonical path, the path it was read from where
/// there is no canonical one, and a fixed name where it was not read at all.
pub open spec fn root_key(source: Option<Seq<u8>>, canonical: Option<Seq<u8>>) -> Seq<u8> {
    match source {
        Some(path) => match canonical {
            Some(key) => key,
            None => path,
        },
        None => vstd::utf8::encode_utf8(IN_MEMORY@),
    }
}

/// What is said of a build file whose policy cannot be derived.
pub open spec fn policy_failure(name: Seq<char>) -> Seq<char> {
    "cannot derive a sandbox policy for "@ + name
        + "; run `pm explain` on it to see the whole build file, or build with --permissive to allow the commands anyway"@
}

impl Resolver {
    /// The resolver is in a state it can go on from.
    pub open spec fn wf(&self) -> bool {
        &&& resting(self@)
        &&& self.order@.len() == self.nodes@.len()
        &&& in_sequence(self.order@)
    }

    /// Start at `root`, whose source has this canonical path.
    pub fn start(
        cwd: FilePath,
        root: &BuildFile,
        canonical: Option<FilePath>,
        permissive: bool,
    ) -> (r: (Resolver, Ask))
        ensures
            r.0.wf(),
            r.0@ == (ResolverView {
                cwd: cwd@,
                verification: root@.verification,
                permissive,
                nodes: Seq::empty(),
                order: Seq::empty(),
                stack: Seq::empty(),
                pending: PendingView::Entering {
                    key: root_key(root@.source, crate::bf::optional_path(canonical)),
                    build: root@,
                },
            }),
            r.1@ == ask_of(r.0@),
            root_of(r.0@) == (
                root_key(root@.source, crate::bf::optional_path(canonical)),
                root@,
            ),
            forall|a: Answers| #[trigger] is_as_answered(a, r.0@),
    {
        let key = match &root.source {
            Some(source) => match canonical {
                Some(key) => key,
                None => source.clone(),
            },
            None => FilePath::from_text(IN_MEMORY),
        };
        let resolver = Resolver {
            cwd,
            verification: root.verification,
            permissive,
            nodes: Vec::new(),
            order: Vec::new(),
            stack: Vec::new(),
            pending: Pending::Entering { key, build: root.clone() },
        };
        proof {
            assert(node_views(resolver.nodes@) =~= Seq::<NodeView>::empty());
            assert(indices(resolver.order@) =~= Seq::<int>::empty());
            assert(frame_views(resolver.stack@) =~= Seq::<FrameView>::empty());
            assert forall|a: Answers| #[trigger] is_as_answered(a, resolver@) by {
                lemma_start_is_as_answered(a, resolver@);
            }
        }
        let ask = Ask::Policy { build: root.clone(), permissive };
        (resolver, ask)
    }

    /// What there is to ask.
    fn ask(&self) -> (r: Ask)
        requires
            resting(self@),
        ensures
            r@ == ask_of(self@),
    {
        match &self.pending {
            Pending::Entering { key, build } => Ask::Policy {
                build: build.clone(),
                permissive: self.permissive,
            },
            Pending::Loading { key } => Ask::Load {
                key: key.clone(),
                verification: self.verification,
            },
            Pending::Nothing => {
                if self.stack.len() == 0 {
                    Ask::Done
                } else {
                    let top = &self.stack[self.stack.len() - 1];
                    assert(self@.stack.last() == top@);
                    let dependency = &top.build.dependencies[top.resolved.len()];
                    assert(next_dependency(self@) == dependency@);
                    Ask::Probe { path: self.cwd.join(dependency) }
                }
            },
        }
    }

    /// Turn every complete build file at the end of the path into a node.
    fn close(self) -> (r: Resolver)
        requires
            walking(self@),
            self@.pending is Nothing,
            self@.nodes.len() > 0 || self@.stack.len() > 0,
            self.order@.len() == self.nodes@.len(),
            in_sequence(self.order@),
        ensures
            r.wf(),
            r@ == closed(self@),
            root_of(r@) == root_of(self@),
            same_terms(r@, self@),
    {
        let ghost goal = closed(self@);
        proof {
            lemma_closed(self@);
            lemma_closing_keeps_the_root(self@);
        }
        let mut r = self;
        while r.stack.len() > 0 && r.stack[r.stack.len() - 1].resolved.len() >= r.stack[r.stack.len()
            - 1].build.dependencies.len()
            invariant
                walking(r@),
                r@.pending is Nothing,
                closed(r@) == goal,
                r.order@.len() == r.nodes@.len(),
                in_sequence(r.order@),
            decreases r.stack@.len(),
        {
            let ghost v = r@;
            let ghost stack_before = r.stack@;
            let ghost nodes_before = r.nodes@;
            proof {
                assert(v.stack.last() == r.stack@[r.stack@.len() - 1]@);
                lemma_closed_once(v);
            }
            match r.stack.pop() {
                Some(top) => {
                    let index: usize = r.nodes.len();
                    let ghost done = top@;
                    r.nodes.push(
                        Node {
                            key: top.key,
                            build: top.build,
                            policy: top.policy,
                            dependencies: top.resolved,
                        },
                    );
                    let ghost order = r.order@;
                    r.order.push(index);
                    let ghost rest = r.stack@;
                    proof {
                        assert(done == v.stack.last());
                        assert(frame_views(rest) =~= v.stack.drop_last());
                        assert(r.nodes@.len() == index + 1);
                        assert(node_views(r.nodes@) =~= closed_once(v).nodes);
                        assert(indices(r.order@) =~= indices(order).push(index as int));
                    }
                    match r.stack.pop() {
                        Some(mut parent) => {
                            let ghost before = parent@;
                            let ghost list = parent.resolved@;
                            parent.resolved.push(index);
                            proof {
                                assert(indices(parent.resolved@) =~= indices(list).push(
                                    index as int,
                                ));
                            }
                            r.stack.push(parent);
                            proof {
                                assert(before == frame_views(rest).last());
                                assert(frame_views(r.stack@) =~= told(
                                    frame_views(rest),
                                    index as int,
                                ));
                            }
                        },
                        None => {
                            assert(frame_views(r.stack@) =~= frame_views(rest));
                        },
                    }
                    assert(r@ == closed_once(v));
                },
                None => {},
            }
        }
        proof {
            if r@.stack.len() > 0 {
                assert(r@.stack.last() == r.stack@[r.stack@.len() - 1]@);
            }
        }
        r
    }
}

/// The state once the build file that was waiting for a policy is on the path.
pub open spec fn entered(v: ResolverView, policy: BuildPolicy) -> ResolverView {
    closed(
        ResolverView {
            stack: v.stack.push(
                FrameView {
                    key: v.pending->Entering_key,
                    build: v.pending->build,
                    policy,
                    resolved: Seq::empty(),
                },
            ),
            pending: PendingView::Nothing,
            ..v
        },
    )
}

/// The index of the node for the build file at `key`.
pub open spec fn resolved_at(v: ResolverView, key: Seq<u8>, i: int) -> bool {
    0 <= i < v.nodes.len() && same_path(v.nodes[i].key, key)
}

/// The state once the next dependency has turned out to be node `i`.
pub open spec fn reused(v: ResolverView, i: int) -> ResolverView {
    closed(ResolverView { stack: told(v.stack, i), ..v })
}

proof fn lemma_entered(v: ResolverView, policy: BuildPolicy)
    requires
        resting(v),
        v.pending is Entering,
    ensures
        walking(
            ResolverView {
                stack: v.stack.push(
                    FrameView {
                        key: v.pending->Entering_key,
                        build: v.pending->build,
                        policy,
                        resolved: Seq::empty(),
                    },
                ),
                pending: PendingView::Nothing,
                ..v
            },
        ),
{
    let key = v.pending->Entering_key;
    let frame = FrameView {
        key,
        build: v.pending->build,
        policy,
        resolved: Seq::<int>::empty(),
    };
    let w = ResolverView { stack: v.stack.push(frame), pending: PendingView::Nothing, ..v };
    let top = v.stack.len() as int;
    assert forall|i: int| 0 <= i < w.nodes.len() implies #[trigger] named_by_node(w.nodes, i)
        || named_by_frame(w.stack, i) by {
        if !named_by_node(v.nodes, i) {
            let (f, k) = choose|f: int, k: int|
                0 <= f < v.stack.len() && 0 <= k < v.stack[f].resolved.len()
                    && #[trigger] v.stack[f].resolved[k] == i;
            assert(w.stack[f].resolved[k] == i);
        }
    }
    assert forall|f: int, k: int|
        0 <= f < w.stack.len() && 0 <= k < w.stack[f].resolved.len() implies 0
        <= #[trigger] w.stack[f].resolved[k] < w.nodes.len() by {
        assert(f < top);
        assert(v.stack[f].resolved[k] < v.nodes.len());
    }
    assert forall|f: int, g: int| 0 <= f < g < w.stack.len() implies !same_path(
        (#[trigger] w.stack[f]).key,
        (#[trigger] w.stack[g]).key,
    ) by {
        assert(w.stack[f] == v.stack[f]);
        if g < top {
            assert(w.stack[g] == v.stack[g]);
        }
    }
}

proof fn lemma_told(v: ResolverView, i: int)
    requires
        resting(v),
        v.pending is Nothing,
        v.stack.len() > 0,
        0 <= i < v.nodes.len(),
    ensures
        walking(ResolverView { stack: told(v.stack, i), ..v }),
{
    let w = ResolverView { stack: told(v.stack, i), ..v };
    let top = v.stack.len() - 1;
    assert(v.stack[top] == v.stack.last());
    assert forall|f: int|
        0 <= f < w.stack.len() implies (#[trigger] w.stack[f]).key == v.stack[f].key
        && w.stack[f].build == v.stack[f].build by {}
    assert forall|n: int| 0 <= n < w.nodes.len() implies #[trigger] named_by_node(w.nodes, n)
        || named_by_frame(w.stack, n) by {
        if !named_by_node(v.nodes, n) {
            let (f, k) = choose|f: int, k: int|
                0 <= f < v.stack.len() && 0 <= k < v.stack[f].resolved.len()
                    && #[trigger] v.stack[f].resolved[k] == n;
            assert(w.stack[f].resolved[k] == n);
        }
    }
    assert forall|f: int, k: int|
        0 <= f < w.stack.len() && 0 <= k < w.stack[f].resolved.len() implies 0
        <= #[trigger] w.stack[f].resolved[k] < w.nodes.len() by {
        if k < v.stack[f].resolved.len() {
            assert(v.stack[f].resolved[k] < v.nodes.len());
            assert(w.stack[f].resolved[k] == v.stack[f].resolved[k]);
        }
    }
    assert forall|f: int, g: int| 0 <= f < g < w.stack.len() implies !same_path(
        (#[trigger] w.stack[f]).key,
        (#[trigger] w.stack[g]).key,
    ) by {
        assert(!same_path(v.stack[f].key, v.stack[g].key));
    }
    assert forall|n: int, f: int| 0 <= n < w.nodes.len() && 0 <= f < w.stack.len() implies
        !same_path((#[trigger] w.nodes[n]).key, (#[trigger] w.stack[f]).key) by {
        assert(!same_path(v.nodes[n].key, v.stack[f].key));
    }
}

impl Resolver {
    /// Take the answer to [`Ask::Policy`].
    pub fn policy_derived(self, answer: Result<BuildPolicy, Report>) -> (r: Result<
        (Resolver, Ask),
        Report,
    >)
        requires
            self.wf(),
            self@.pending is Entering,
        ensures
            r is Ok <==> answer is Ok,
            match r {
                Ok(next) => next.0.wf() && next.0@ == entered(self@, answer->Ok_0) && next.1@
                    == ask_of(next.0@) && root_of(next.0@) == root_of(self@) && same_terms(
                    next.0@,
                    self@,
                ) && forall|a: Answers| #[trigger]
                    is_as_answered(a, self@) && a.policies.contains(
                        (ask_of(self@)->build, answer->Ok_0),
                    ) ==> is_as_answered(a, next.0@),
                Err(report) => report@ == wrapped(
                    policy_failure(self@.pending->build.name),
                    answer->Err_0@,
                ),
            },
    {
        let ghost v = self@;
        match self.pending {
            Pending::Entering { key, build } => match answer {
                Ok(policy) => {
                    let ghost before = self.stack@;
                    let ghost build_view = build@;
                    let ghost key_view = key@;
                    let mut stack = self.stack;
                    let resolved: Vec<usize> = Vec::new();
                    assert(indices(resolved@) =~= Seq::<int>::empty());
                    stack.push(Frame { key, build, policy, resolved });
                    let next = Resolver {
                        cwd: self.cwd,
                        verification: self.verification,
                        permissive: self.permissive,
                        nodes: self.nodes,
                        order: self.order,
                        stack,
                        pending: Pending::Nothing,
                    };
                    proof {
                        assert(frame_views(next.stack@) =~= frame_views(before).push(
                            FrameView {
                                key: key_view,
                                build: build_view,
                                policy,
                                resolved: Seq::empty(),
                            },
                        ));
                        lemma_entered(v, policy);
                    }
                    let next = next.close();
                    let ask = next.ask();
                    proof {
                        assert forall|a: Answers| #[trigger]
                            is_as_answered(a, v) && a.policies.contains(
                                (ask_of(v)->build, policy),
                            ) implies is_as_answered(a, next@) by {
                            lemma_entering_is_as_answered(a, v, policy);
                        }
                    }
                    Ok((next, ask))
                },
                Err(report) => {
                    let mut message = "cannot derive a sandbox policy for ".to_owned();
                    message.push_str(build.name());
                    message.push_str(
                        "; run `pm explain` on it to see the whole build file, or build with --permissive to allow the commands anyway",
                    );
                    Err(report.wrap(message))
                },
            },
            _ => Ok((self, Ask::Done)),
        }
    }

    /// Where the node for the build file at `key` is, if there is one.
    fn find_node(&self, key: &FilePath) -> (r: Option<usize>)
        ensures
            r is Some <==> is_resolved(self@, key@),
            r is Some ==> resolved_at(self@, key@, r->0 as int),
    {
        let mut i: usize = 0;
        while i < self.nodes.len()
            invariant
                i <= self.nodes@.len(),
                forall|j: int|
                    0 <= j < i ==> !same_path((#[trigger] self@.nodes[j]).key, key@),
            decreases self.nodes@.len() - i,
        {
            assert(self@.nodes[i as int] == self.nodes@[i as int]@);
            if self.nodes[i].key.same(key) {
                return Some(i);
            }
            i += 1;
        }
        None
    }

    /// Whether the build file at `key` is on the current path.
    fn visiting(&self, key: &FilePath) -> (r: bool)
        ensures
            r == is_visiting(self@, key@),
    {
        let mut i: usize = 0;
        while i < self.stack.len()
            invariant
                i <= self.stack@.len(),
                forall|j: int|
                    0 <= j < i ==> !same_path((#[trigger] self@.stack[j]).key, key@),
            decreases self.stack@.len() - i,
        {
            assert(self@.stack[i as int] == self.stack@[i as int]@);
            if self.stack[i].key.same(key) {
                return true;
            }
            i += 1;
        }
        false
    }

    /// Take the answer to [`Ask::Probe`].
    ///
    /// A build file that is resolved already is used again, so a diamond becomes
    /// one node; one that is on the path closes a cycle; any other is read next.
    pub fn probed(self, answer: Probe) -> (r: Result<(Resolver, Ask), Report>)
        requires
            self.wf(),
            self@.pending is Nothing,
            self@.stack.len() > 0,
        ensures
            match answer {
                Probe::NotAFile => r is Err && r->Err_0@ == said(
                    "dependency of "@ + self@.stack.last().build.name
                        + " is not a build file: "@ + lossy(next_dependency(self@)),
                ),
                Probe::Unresolvable(report) => r is Err && r->Err_0@ == wrapped(
                    "cannot resolve dependency "@ + lossy(next_dependency(self@)),
                    report@,
                ),
                Probe::At(key) => {
                    &&& r is Err <==> is_visiting(self@, key@)
                    &&& r is Err ==> r->Err_0@ == said(
                        "dependency cycle: "@ + cycle_text(stack_keys(self@.stack), key@),
                    )
                    &&& r is Ok ==> r->Ok_0.0.wf() && r->Ok_0.1@ == ask_of(r->Ok_0.0@) && root_of(
                        r->Ok_0.0@,
                    ) == root_of(self@) && same_terms(r->Ok_0.0@, self@)
                    &&& r is Ok ==> forall|a: Answers| #[trigger]
                        is_as_answered(a, self@) && a.probes.contains((ask_of(self@)->path, key@))
                            ==> is_as_answered(a, r->Ok_0.0@)
                    &&& is_resolved(self@, key@) ==> exists|i: int| #[trigger]
                        resolved_at(self@, key@, i) && r->Ok_0.0@ == reused(self@, i)
                    &&& r is Ok && !is_resolved(self@, key@) ==> r->Ok_0.0@ == (ResolverView {
                        pending: PendingView::Loading { key: key@ },
                        ..self@
                    })
                },
            },
    {
        let ghost v = self@;
        let top = &self.stack[self.stack.len() - 1];
        assert(v.stack.last() == top@);
        let dependency = &top.build.dependencies[top.resolved.len()];
        assert(next_dependency(v) == dependency@);
        match answer {
            Probe::NotAFile => {
                let mut message = "dependency of ".to_owned();
                message.push_str(top.build.name());
                message.push_str(" is not a build file: ");
                message.push_str(dependency.display().as_str());
                Err(Report::new(message))
            },
            Probe::Unresolvable(report) => {
                let mut message = "cannot resolve dependency ".to_owned();
                message.push_str(dependency.display().as_str());
                Err(report.wrap(message))
            },
            Probe::At(key) => {
                match self.find_node(&key) {
                    Some(index) => {
                        proof {
                            if is_visiting(v, key@) {
                                let f = choose|f: int|
                                    0 <= f < v.stack.len() && same_path(
                                        (#[trigger] v.stack[f]).key,
                                        key@,
                                    );
                                assert(same_path(v.nodes[index as int].key, v.stack[f].key));
                            }
                            lemma_told(v, index as int);
                        }
                        let mut next = self;
                        let ghost before = next.stack@;
                        match next.stack.pop() {
                            Some(mut parent) => {
                                let ghost list = parent.resolved@;
                                parent.resolved.push(index);
                                assert(indices(parent.resolved@) =~= indices(list).push(
                                    index as int,
                                ));
                                next.stack.push(parent);
                                assert(frame_views(next.stack@) =~= told(
                                    frame_views(before),
                                    index as int,
                                ));
                            },
                            None => {},
                        }
                        let next = next.close();
                        let ask = next.ask();
                        proof {
                            assert forall|a: Answers| #[trigger]
                                is_as_answered(a, v) && a.probes.contains((ask_of(v)->path, key@))
                                implies is_as_answered(a, next@) by {
                                lemma_reusing_is_as_answered(a, v, key@, index as int);
                            }
                        }
                        assert(resolved_at(v, key@, index as int) && next@ == reused(
                            v,
                            index as int,
                        ));
                        return Ok((next, ask));
                    },
                    None => {},
                }
                if self.visiting(&key) {
                    let mut message = "dependency cycle: ".to_owned();
                    message.push_str(cycle_chain(&self.stack, &key).as_str());
                    return Err(Report::new(message));
                }
                let ghost shown = key@;
                let mut next = self;
                next.pending = Pending::Loading { key };
                let ask = next.ask();
                proof {
                    assert forall|a: Answers| #[trigger]
                        is_as_answered(a, v) && a.probes.contains((ask_of(v)->path, shown)) implies
                        is_as_answered(a, next@) by {
                        lemma_loading_is_as_answered(a, v, shown);
                    }
                }
                Ok((next, ask))
            },
        }
    }

    /// Take the answer to [`Ask::Load`].
    ///
    /// A dependency is held to the strictness the root was: that is what it is
    /// recorded as having been read with.
    pub fn loaded(self, answer: Result<BuildFile, Report>) -> (r: Result<(Resolver, Ask), Report>)
        requires
            self.wf(),
            self@.pending is Loading,
        ensures
            r is Ok <==> answer is Ok,
            match r {
                Ok(next) => next.0.wf() && next.1@ == ask_of(next.0@) && next.0@ == (ResolverView {
                    pending: PendingView::Entering {
                        key: self@.pending->Loading_key,
                        build: BuildFileView {
                            source: Some(self@.pending->Loading_key),
                            verification: self@.verification,
                            ..answer->Ok_0@
                        },
                    },
                    ..self@
                }) && root_of(next.0@) == root_of(self@) && same_terms(next.0@, self@) && forall|
                    a: Answers,
                | #[trigger]
                    is_as_answered(a, self@) && a.loads.contains(
                        (ask_of(self@)->key, answer->Ok_0@),
                    ) && root_of(self@).1.verification == self@.verification ==> is_as_answered(
                        a,
                        next.0@,
                    ),
                Err(report) => report@ == wrapped(
                    "dependency "@ + lossy(self@.pending->Loading_key) + " failed"@,
                    answer->Err_0@,
                ),
            },
    {
        let ghost v = self@;
        match self.pending {
            Pending::Loading { key } => match answer {
                Ok(build) => {
                    let ghost read = build@;
                    let build = build.read_from(key.clone(), self.verification);
                    let next = Resolver {
                        cwd: self.cwd,
                        verification: self.verification,
                        permissive: self.permissive,
                        nodes: self.nodes,
                        order: self.order,
                        stack: self.stack,
                        pending: Pending::Entering { key, build },
                    };
                    let ask = next.ask();
                    proof {
                        assert forall|a: Answers| #[trigger]
                            is_as_answered(a, v) && a.loads.contains((ask_of(v)->key, read))
                                && root_of(v).1.verification == v.verification implies
                            is_as_answered(a, next@) by {
                            lemma_loaded_is_as_answered(a, v, read);
                        }
                    }
                    Ok((next, ask))
                },
                Err(report) => {
                    let mut message = "dependency ".to_owned();
                    message.push_str(key.display().as_str());
                    message.push_str(" failed");
                    Err(report.wrap(message))
                },
            },
            _ => Ok((self, Ask::Done)),
        }
    }

    /// The finished graph, unless two of its packages claim one archive name. Its root is
    /// the build file that resolution started at.
    pub fn finish(self) -> (r: Result<Graph, Report>)
        requires
            self.wf(),
            ask_of(self@) is Done,
        ensures
            r is Ok <==> distinct_archives(self@.nodes),
            match r {
                Ok(graph) => {
                    &&& graph.wf()
                    &&& node_views(graph.nodes@) == self@.nodes
                    &&& indices(graph.order@) == self@.order
                    &&& (graph.nodes@[graph.root as int].key@, graph.nodes@[graph.root as int].build@)
                        == root_of(self@)
                },
                Err(report) => exists|i: int, j: int|
                    0 <= i < j < self@.nodes.len() && #[trigger] first_collision(
                        self@.nodes,
                        i,
                        j,
                    ) && report@ == said(collision_text(self@.nodes, i, j)),
            },
    {
        let ghost nodes = self@.nodes;
        let root: usize = self.nodes.len() - 1;
        let graph = Graph { nodes: self.nodes, root, order: self.order };
        assert forall|i: int| 0 <= i < root implies #[trigger] named_by_node(nodes, i) by {}
        match graph.reject_archive_collisions() {
            Ok(()) => Ok(graph),
            Err(report) => Err(report),
        }
    }
}

/// The edges of a resolved graph run from later packages to earlier ones.
pub proof fn lemma_graph_is_ordered(graph: Graph)
    requires
        graph.wf(),
    ensures
        ordered(graph.edges()),
        graph.edges().len() == graph.nodes@.len(),
{
    let nodes = node_views(graph.nodes@);
    let edges = graph.edges();
    assert forall|i: int, k: int|
        0 <= i < edges.len() && 0 <= k < edges[i].len() implies #[trigger] edges[i][k] < i by {
        assert(nodes[i] == graph.nodes@[i]@);
        assert(nodes[i].dependencies[k] == edges[i][k]);
    }
}

proof fn lemma_needs_trans(edges: Edges, a: int, b: int, c: int)
    requires
        needs(edges, a, b),
        needs(edges, b, c),
    ensures
        needs(edges, a, c),
    decreases a,
{
    let k = choose|k: int|
        0 <= a < edges.len() && 0 <= k < edges[a].len() && #[trigger] edges[a][k] < a && (
        edges[a][k] == b || needs(edges, edges[a][k] as int, b));
    if edges[a][k] != b {
        lemma_needs_trans(edges, edges[a][k] as int, b, c);
    }
    assert(edges[a][k] < a && needs(edges, edges[a][k] as int, c));
}

/// Nothing is in the graph that the root does not need.
pub proof fn lemma_root_needs_everything(graph: Graph, i: int)
    requires
        graph.wf(),
        0 <= i < graph.root,
    ensures
        needs(graph.edges(), graph.root as int, i),
    decreases graph.root - i,
{
    let nodes = node_views(graph.nodes@);
    let edges = graph.edges();
    lemma_graph_is_ordered(graph);
    assert(named_by_node(nodes, i));
    let (j, k) = choose|j: int, k: int|
        i < j < nodes.len() && 0 <= k < nodes[j].dependencies.len()
            && #[trigger] nodes[j].dependencies[k] == i;
    assert(nodes[j] == graph.nodes@[j]@);
    assert(edges[j][k] == i);
    assert(edges[j][k] < j);
    assert(needs(edges, j, i));
    if j < graph.root {
        lemma_root_needs_everything(graph, j);
        lemma_needs_trans(edges, graph.root as int, j, i);
    }
}

/// Nothing in the graph needs itself: a cycle never resolves.
pub proof fn lemma_no_cycles(graph: Graph, i: int, t: int)
    requires
        graph.wf(),
        needs(graph.edges(), i, t),
    ensures
        t < i,
    decreases i,
{
    let edges = graph.edges();
    let k = choose|k: int|
        0 <= i < edges.len() && 0 <= k < edges[i].len() && #[trigger] edges[i][k] < i && (
        edges[i][k] == t || needs(edges, edges[i][k] as int, t));
    if edges[i][k] != t {
        lemma_no_cycles(graph, edges[i][k] as int, t);
    }
}

/// What has been answered while a graph was resolved: which canonical path was found at a
/// path, what a build file said, and which policy was derived for it.
pub struct Answers {
    pub probes: Set<(Seq<u8>, Seq<u8>)>,
    pub loads: Set<(Seq<u8>, BuildFileView)>,
    pub policies: Set<(BuildFileView, BuildPolicy)>,
}

/// Node `d` is the build file that was found where `dependency` leads from `cwd`.
pub open spec fn is_found_at(
    answers: Answers,
    cwd: Seq<u8>,
    nodes: Seq<NodeView>,
    dependency: Seq<u8>,
    d: int,
) -> bool {
    0 <= d < nodes.len() && exists|key: Seq<u8>| #[trigger]
        answers.probes.contains((joined_path(cwd, dependency), key)) && same_path(
            nodes[d].key,
            key,
        )
}

/// The build file at `key` is the root, or says what was read there; it is held to the
/// strictness of the root.
pub open spec fn is_as_read(
    answers: Answers,
    root: (Seq<u8>, BuildFileView),
    key: Seq<u8>,
    build: BuildFileView,
) -> bool {
    (key, build) == root || exists|read: BuildFileView| #[trigger]
        answers.loads.contains((key, read)) && build == (BuildFileView {
            source: Some(key),
            verification: root.1.verification,
            ..read
        })
}

/// Node `i` has the policy that was derived for it, says what was read, and depends on
/// what was found where each of its dependencies leads.
pub open spec fn node_is_as_answered(answers: Answers, v: ResolverView, i: int) -> bool {
    let node = v.nodes[i];
    &&& node.dependencies.len() == node.build.dependencies.len()
    &&& is_as_read(answers, root_of(v), node.key, node.build)
    &&& answers.policies.contains((node.build, node.policy))
    &&& forall|k: int|
        0 <= k < node.dependencies.len() ==> is_found_at(
            answers,
            v.cwd,
            v.nodes,
            node.build.dependencies[k],
            #[trigger] node.dependencies[k],
        )
}

/// As [`node_is_as_answered`], of the build file at place `f` of the path and of the
/// dependencies of it that are resolved; and it was found where the build file before it
/// on the path asked for it.
pub open spec fn frame_is_as_answered(answers: Answers, v: ResolverView, f: int) -> bool {
    let frame = v.stack[f];
    let before = v.stack[f - 1];
    &&& is_as_read(answers, root_of(v), frame.key, frame.build)
    &&& answers.policies.contains((frame.build, frame.policy))
    &&& f > 0 ==> answers.probes.contains(
        (joined_path(v.cwd, before.build.dependencies[before.resolved.len() as int]), frame.key),
    )
    &&& forall|k: int|
        0 <= k < frame.resolved.len() ==> is_found_at(
            answers,
            v.cwd,
            v.nodes,
            frame.build.dependencies[k],
            #[trigger] frame.resolved[k],
        )
}

/// Everything a resolver knows, it knows from the root and from these answers.
#[verifier::opaque]
pub open spec fn is_as_answered(answers: Answers, v: ResolverView) -> bool {
    &&& forall|i: int| 0 <= i < v.nodes.len() ==> #[trigger] node_is_as_answered(answers, v, i)
    &&& forall|f: int| 0 <= f < v.stack.len() ==> #[trigger] frame_is_as_answered(answers, v, f)
    &&& match v.pending {
        PendingView::Nothing => true,
        PendingView::Loading { key } => answers.probes.contains(
            (joined_path(v.cwd, next_dependency(v)), key),
        ),
        PendingView::Entering { key, build } => is_as_read(answers, root_of(v), key, build) && (
        v.stack.len() > 0 ==> answers.probes.contains(
            (joined_path(v.cwd, next_dependency(v)), key),
        )),
    }
}

proof fn lemma_more_nodes_same_answers(
    answers: Answers,
    cwd: Seq<u8>,
    nodes: Seq<NodeView>,
    node: NodeView,
    dependency: Seq<u8>,
    d: int,
)
    requires
        is_found_at(answers, cwd, nodes, dependency, d),
    ensures
        is_found_at(answers, cwd, nodes.push(node), dependency, d),
{
    let key = choose|key: Seq<u8>| #[trigger]
        answers.probes.contains((joined_path(cwd, dependency), key)) && same_path(
            nodes[d].key,
            key,
        );
    assert(nodes.push(node)[d] == nodes[d]);
    assert(answers.probes.contains((joined_path(cwd, dependency), key)));
}

proof fn lemma_new_node_is_as_answered(answers: Answers, v: ResolverView, i: int)
    requires
        is_as_answered(answers, v),
        v.pending is Nothing,
        v.stack.len() > 0,
        v.stack.last().resolved.len() == v.stack.last().build.dependencies.len(),
        root_of(closed_once(v)) == root_of(v),
        0 <= i < closed_once(v).nodes.len(),
    ensures
        node_is_as_answered(answers, closed_once(v), i),
{
    reveal(is_as_answered);
    let w = closed_once(v);
    let top = v.stack.len() - 1;
    let n = v.nodes.len() as int;
    let last = w.nodes[n];
    let node = w.nodes[i];
    assert(v.stack[top] == v.stack.last());
    if i < n {
        assert(node_is_as_answered(answers, v, i));
        assert(node == v.nodes[i]);
    } else {
        assert(frame_is_as_answered(answers, v, top));
    }
    assert forall|k: int| 0 <= k < node.dependencies.len() implies is_found_at(
        answers,
        w.cwd,
        w.nodes,
        node.build.dependencies[k],
        #[trigger] node.dependencies[k],
    ) by {
        if i < n {
            assert(is_found_at(
                answers,
                v.cwd,
                v.nodes,
                v.nodes[i].build.dependencies[k],
                v.nodes[i].dependencies[k],
            ));
        } else {
            assert(is_found_at(
                answers,
                v.cwd,
                v.nodes,
                v.stack[top].build.dependencies[k],
                v.stack[top].resolved[k],
            ));
        }
        lemma_more_nodes_same_answers(
            answers,
            v.cwd,
            v.nodes,
            last,
            node.build.dependencies[k],
            node.dependencies[k],
        );
    }
}

proof fn lemma_told_frame_is_as_answered(answers: Answers, v: ResolverView, f: int)
    requires
        is_as_answered(answers, v),
        v.pending is Nothing,
        v.stack.len() > 0,
        root_of(closed_once(v)) == root_of(v),
        0 <= f < closed_once(v).stack.len(),
    ensures
        frame_is_as_answered(answers, closed_once(v), f),
{
    reveal(is_as_answered);
    let w = closed_once(v);
    let top = v.stack.len() - 1;
    let n = v.nodes.len() as int;
    let last = w.nodes[n];
    let frame = w.stack[f];
    assert(v.stack[top] == v.stack.last());
    assert(frame_is_as_answered(answers, v, f));
    assert(frame_is_as_answered(answers, v, f + 1));
    assert(frame.key == v.stack[f].key && frame.build == v.stack[f].build);
    if f > 0 {
        assert(w.stack[f - 1] == v.stack[f - 1]);
    }
    assert forall|k: int| 0 <= k < frame.resolved.len() implies is_found_at(
        answers,
        w.cwd,
        w.nodes,
        frame.build.dependencies[k],
        #[trigger] frame.resolved[k],
    ) by {
        if k < v.stack[f].resolved.len() {
            assert(frame.resolved[k] == v.stack[f].resolved[k]);
            assert(is_found_at(
                answers,
                v.cwd,
                v.nodes,
                v.stack[f].build.dependencies[k],
                v.stack[f].resolved[k],
            ));
            lemma_more_nodes_same_answers(
                answers,
                v.cwd,
                v.nodes,
                last,
                frame.build.dependencies[k],
                frame.resolved[k],
            );
        } else {
            assert(f == top - 1);
            assert(frame.resolved[k] == n);
            assert(w.nodes[n].key == v.stack[top].key);
            assert(answers.probes.contains(
                (joined_path(v.cwd, frame.build.dependencies[k]), v.stack[top].key),
            ));
        }
    }
}

proof fn lemma_closing_once_is_as_answered(answers: Answers, v: ResolverView)
    requires
        is_as_answered(answers, v),
        v.pending is Nothing,
        v.stack.len() > 0,
        v.stack.last().resolved.len() == v.stack.last().build.dependencies.len(),
    ensures
        is_as_answered(answers, closed_once(v)),
{
    let w = closed_once(v);
    assert(root_of(w) == root_of(v));
    assert forall|i: int| 0 <= i < w.nodes.len() implies #[trigger] node_is_as_answered(
        answers,
        w,
        i,
    ) by {
        lemma_new_node_is_as_answered(answers, v, i);
    }
    assert forall|f: int| 0 <= f < w.stack.len() implies #[trigger] frame_is_as_answered(
        answers,
        w,
        f,
    ) by {
        lemma_told_frame_is_as_answered(answers, v, f);
    }
    reveal(is_as_answered);
}

proof fn lemma_closing_is_as_answered(answers: Answers, v: ResolverView)
    requires
        walking(v),
        is_as_answered(answers, v),
        v.pending is Nothing,
    ensures
        is_as_answered(answers, closed(v)),
    decreases v.stack.len(),
{
    if v.stack.len() > 0 && complete(v.stack.last()) {
        assert(v.stack[v.stack.len() - 1] == v.stack.last());
        lemma_closing_once_is_as_answered(answers, v);
        lemma_closed_once(v);
        lemma_closing_is_as_answered(answers, closed_once(v));
    }
}

/// Nothing is known at first but the root.
pub proof fn lemma_start_is_as_answered(answers: Answers, v: ResolverView)
    requires
        v.nodes.len() == 0,
        v.stack.len() == 0,
        v.pending is Entering,
    ensures
        is_as_answered(answers, v),
{
    reveal(is_as_answered);
}

/// A build file whose policy was derived is put on the path with that policy; what was
/// complete becomes a node, and the build file that asked for it depends on that node.
pub proof fn lemma_entering_is_as_answered(answers: Answers, v: ResolverView, policy: BuildPolicy)
    requires
        resting(v),
        ask_of(v) is Policy,
        is_as_answered(answers, v),
        answers.policies.contains((ask_of(v)->build, policy)),
    ensures
        is_as_answered(answers, entered(v, policy)),
{
    let w = ResolverView {
        stack: v.stack.push(
            FrameView {
                key: v.pending->Entering_key,
                build: v.pending->build,
                policy,
                resolved: Seq::empty(),
            },
        ),
        pending: PendingView::Nothing,
        ..v
    };
    lemma_entered(v, policy);
    let top = v.stack.len() as int;
    reveal(is_as_answered);
    assert(root_of(w) == root_of(v));
    assert forall|i: int| 0 <= i < w.nodes.len() implies #[trigger] node_is_as_answered(
        answers,
        w,
        i,
    ) by {
        assert(node_is_as_answered(answers, v, i));
    }
    assert forall|f: int| 0 <= f < w.stack.len() implies #[trigger] frame_is_as_answered(
        answers,
        w,
        f,
    ) by {
        if f < top {
            assert(frame_is_as_answered(answers, v, f));
            assert(w.stack[f] == v.stack[f]);
        } else if f > 0 {
            assert(v.stack[top - 1] == v.stack.last());
        }
        if f > 0 {
            assert(w.stack[f - 1] == v.stack[f - 1]);
        }
    }
    lemma_closing_is_as_answered(answers, w);
}

/// A dependency whose canonical path is that of a node is that very node.
pub proof fn lemma_reusing_is_as_answered(
    answers: Answers,
    v: ResolverView,
    key: Seq<u8>,
    i: int,
)
    requires
        resting(v),
        ask_of(v) is Probe,
        is_as_answered(answers, v),
        answers.probes.contains((ask_of(v)->path, key)),
        0 <= i < v.nodes.len(),
        same_path(v.nodes[i].key, key),
    ensures
        is_as_answered(answers, reused(v, i)),
{
    let w = ResolverView { stack: told(v.stack, i), ..v };
    lemma_told(v, i);
    let top = v.stack.len() - 1;
    reveal(is_as_answered);
    assert(v.stack[top] == v.stack.last());
    assert(root_of(w) == root_of(v));
    assert forall|n: int| 0 <= n < w.nodes.len() implies #[trigger] node_is_as_answered(
        answers,
        w,
        n,
    ) by {
        assert(node_is_as_answered(answers, v, n));
    }
    assert forall|f: int| 0 <= f < w.stack.len() implies #[trigger] frame_is_as_answered(
        answers,
        w,
        f,
    ) by {
        let frame = w.stack[f];
        assert(frame_is_as_answered(answers, v, f));
        assert(frame.key == v.stack[f].key && frame.build == v.stack[f].build);
        if f > 0 {
            assert(w.stack[f - 1] == v.stack[f - 1]);
        }
        assert forall|k: int| 0 <= k < frame.resolved.len() implies is_found_at(
            answers,
            w.cwd,
            w.nodes,
            frame.build.dependencies[k],
            #[trigger] frame.resolved[k],
        ) by {
            if k < v.stack[f].resolved.len() {
                assert(frame.resolved[k] == v.stack[f].resolved[k]);
                assert(is_found_at(
                    answers,
                    v.cwd,
                    v.nodes,
                    v.stack[f].build.dependencies[k],
                    v.stack[f].resolved[k],
                ));
            } else {
                assert(frame.resolved[k] == i);
                assert(answers.probes.contains(
                    (joined_path(v.cwd, v.stack[top].build.dependencies[k]), key),
                ));
            }
        }
    }
    lemma_closing_is_as_answered(answers, w);
}

/// A dependency that is new is read where it was found.
pub proof fn lemma_loading_is_as_answered(answers: Answers, v: ResolverView, key: Seq<u8>)
    requires
        resting(v),
        ask_of(v) is Probe,
        is_as_answered(answers, v),
        answers.probes.contains((ask_of(v)->path, key)),
    ensures
        is_as_answered(
            answers,
            (ResolverView { pending: PendingView::Loading { key }, ..v }),
        ),
{
    let w = ResolverView { pending: PendingView::Loading { key }, ..v };
    reveal(is_as_answered);
    assert(root_of(w) == root_of(v));
    assert forall|i: int| 0 <= i < w.nodes.len() implies #[trigger] node_is_as_answered(
        answers,
        w,
        i,
    ) by {
        assert(node_is_as_answered(answers, v, i));
    }
    assert forall|f: int| 0 <= f < w.stack.len() implies #[trigger] frame_is_as_answered(
        answers,
        w,
        f,
    ) by {
        assert(frame_is_as_answered(answers, v, f));
    }
}

/// A build file that was read says what was read, at the path it was asked for.
pub proof fn lemma_loaded_is_as_answered(
    answers: Answers,
    v: ResolverView,
    read: BuildFileView,
)
    requires
        resting(v),
        ask_of(v) is Load,
        is_as_answered(answers, v),
        answers.loads.contains((ask_of(v)->key, read)),
        root_of(v).1.verification == v.verification,
    ensures
        is_as_answered(
            answers,
            (ResolverView {
                pending: PendingView::Entering {
                    key: v.pending->Loading_key,
                    build: BuildFileView {
                        source: Some(v.pending->Loading_key),
                        verification: v.verification,
                        ..read
                    },
                },
                ..v
            }),
        ),
{
    let build = BuildFileView {
        source: Some(v.pending->Loading_key),
        verification: v.verification,
        ..read
    };
    let w = ResolverView {
        pending: PendingView::Entering { key: v.pending->Loading_key, build },
        ..v
    };
    reveal(is_as_answered);
    assert(root_of(w) == root_of(v));
    assert forall|i: int| 0 <= i < w.nodes.len() implies #[trigger] node_is_as_answered(
        answers,
        w,
        i,
    ) by {
        assert(node_is_as_answered(answers, v, i));
    }
    assert forall|f: int| 0 <= f < w.stack.len() implies #[trigger] frame_is_as_answered(
        answers,
        w,
        f,
    ) by {
        assert(frame_is_as_answered(answers, v, f));
    }
    assert(answers.loads.contains((v.pending->Loading_key, read)));
}

/// Each node of what was resolved depends on exactly the packages its build file names,
/// in the order it names them: for each of them, on the one node whose build file was
/// found where the name leads. It says what was read there, and has the policy that was
/// derived for it.
pub proof fn lemma_nodes_depend_on_what_they_name(answers: Answers, v: ResolverView, i: int)
    requires
        is_as_answered(answers, v),
        distinct_nodes(v.nodes),
        0 <= i < v.nodes.len(),
    ensures
        v.nodes[i].dependencies.len() == v.nodes[i].build.dependencies.len(),
        answers.policies.contains((v.nodes[i].build, v.nodes[i].policy)),
        (v.nodes[i].key, v.nodes[i].build) != root_of(v) ==> exists|read: BuildFileView| #[trigger]
            answers.loads.contains((v.nodes[i].key, read)) && v.nodes[i].build.name == read.name
                && v.nodes[i].build.version == read.version && v.nodes[i].build.dependencies
                == read.dependencies && v.nodes[i].build.steps == read.steps
                && v.nodes[i].build.source == Some(v.nodes[i].key),
        forall|k: int|
            0 <= k < v.nodes[i].dependencies.len() ==> {
                let d = #[trigger] v.nodes[i].dependencies[k];
                &&& 0 <= d < v.nodes.len()
                &&& exists|key: Seq<u8>| #[trigger]
                    answers.probes.contains(
                        (joined_path(v.cwd, v.nodes[i].build.dependencies[k]), key),
                    ) && same_path(v.nodes[d].key, key) && forall|e: int|
                        0 <= e < v.nodes.len() && same_path(#[trigger] v.nodes[e].key, key) ==> e
                            == d
            },
{
    reveal(is_as_answered);
    let node = v.nodes[i];
    assert(node_is_as_answered(answers, v, i));
    if (node.key, node.build) != root_of(v) {
        let read = choose|read: BuildFileView| #[trigger]
            answers.loads.contains((node.key, read)) && node.build == (BuildFileView {
                source: Some(node.key),
                verification: root_of(v).1.verification,
                ..read
            });
        assert(answers.loads.contains((node.key, read)));
    }
    assert forall|k: int| 0 <= k < v.nodes[i].dependencies.len() implies ({
        let d = #[trigger] v.nodes[i].dependencies[k];
        &&& 0 <= d < v.nodes.len()
        &&& exists|key: Seq<u8>| #[trigger]
            answers.probes.contains((joined_path(v.cwd, v.nodes[i].build.dependencies[k]), key))
                && same_path(v.nodes[d].key, key) && forall|e: int|
                0 <= e < v.nodes.len() && same_path(#[trigger] v.nodes[e].key, key) ==> e == d
    }) by {
        let d = v.nodes[i].dependencies[k];
        let path = joined_path(v.cwd, v.nodes[i].build.dependencies[k]);
        assert(is_found_at(answers, v.cwd, v.nodes, v.nodes[i].build.dependencies[k], d));
        let key = choose|key: Seq<u8>| #[trigger]
            answers.probes.contains((path, key)) && same_path(v.nodes[d].key, key);
        assert forall|e: int|
            0 <= e < v.nodes.len() && same_path(#[trigger] v.nodes[e].key, key) implies e == d by {
            if e < d {
                assert(!same_path(v.nodes[e].key, v.nodes[d].key));
            }
            if d < e {
                assert(!same_path(v.nodes[d].key, v.nodes[e].key));
            }
        }
        assert(answers.probes.contains((path, key)));
    }
}

/// Whether a dependency is known already, or closes a cycle, goes by the components of
/// the canonical paths of all nodes and of all build files on the current path.
pub proof fn lemma_known_and_visiting(v: ResolverView, key: Seq<u8>)
    ensures
        is_resolved(v, key) <==> exists|i: int|
            0 <= i < v.nodes.len() && same_path((#[trigger] v.nodes[i]).key, key),
        is_visiting(v, key) <==> exists|f: int|
            0 <= f < v.stack.len() && same_path((#[trigger] v.stack[f]).key, key),
{
}

/// What is asked of a resolver is about the build file that is dealt with: its policy,
/// with the permission given at the start; where the first of its dependencies that is
/// not resolved leads; what a build file says that is neither a node nor on the path,
/// held to the strictness of the root. Nothing is asked once the path is empty.
pub proof fn lemma_questions(v: ResolverView)
    requires
        resting(v),
        root_of(v).1.verification == v.verification,
    ensures
        match ask_of(v) {
            AskView::Policy { build, permissive } => {
                &&& permissive == v.permissive
                &&& v.pending is Entering
                &&& build == v.pending->build
            },
            AskView::Probe { path } => {
                let f = v.stack[v.stack.len() - 1];
                &&& v.stack.len() > 0
                &&& f.resolved.len() < f.build.dependencies.len()
                &&& path == joined_path(v.cwd, f.build.dependencies[f.resolved.len() as int])
            },
            AskView::Load { key, verification } => {
                &&& verification == root_of(v).1.verification
                &&& v.pending is Loading
                &&& key == v.pending->Loading_key
                &&& forall|i: int|
                    0 <= i < v.nodes.len() ==> !same_path((#[trigger] v.nodes[i]).key, key)
                &&& forall|f: int|
                    0 <= f < v.stack.len() ==> !same_path((#[trigger] v.stack[f]).key, key)
            },
            AskView::Done => v.stack.len() == 0 && v.pending is Nothing && v.nodes.len() > 0,
        },
{
    lemma_known_and_visiting(v, v.pending->Loading_key);
}

/// A graph is refused for clashing archives exactly when two of its packages would be
/// packaged to one name, and the first that clashes is named with the one it clashes
/// with.
pub proof fn lemma_clashing_archives_are_refused(nodes: Seq<NodeView>, i: int, j: int)
    requires
        0 <= i < j < nodes.len(),
    ensures
        archive_text(nodes[i].build) == archive_text(nodes[j].build) ==> !distinct_archives(nodes),
        first_collision(nodes, i, j) ==> archive_text(nodes[i].build) == archive_text(
            nodes[j].build,
        ) && forall|a: int, b: int|
            0 <= a < b < j ==> archive_text((#[trigger] nodes[a]).build) != archive_text(
                (#[trigger] nodes[b]).build,
            ),
{
    if first_collision(nodes, i, j) {
        assert forall|a: int, b: int| 0 <= a < b < j implies archive_text(
            (#[trigger] nodes[a]).build,
        ) != archive_text((#[trigger] nodes[b]).build) by {
            assert(nodes.take(j)[a] == nodes[a] && nodes.take(j)[b] == nodes[b]);
        }
    }
}

/// A cycle is told from the build file that is come back to, through everything that was
/// entered since, to that build file again.
pub proof fn lemma_cycle_is_told_whole(keys: Seq<Seq<u8>>, key: Seq<u8>, f: int)
    requires
        0 <= f < keys.len(),
        same_path(keys[f], key),
        forall|j: int| 0 <= j < f ==> !same_path(#[trigger] keys[j], key),
    ensures
        cycle_text(keys, key) == joined(
            keys.subrange(f, keys.len() as int).push(key).map_values(|p: Seq<u8>| lossy(p)),
            " -> "@,
        ),
{
    lemma_first_same(keys, key, f);
    assert(keys.skip(f) =~= keys.subrange(f, keys.len() as int));
}

/// A root that was read from a file is known by its canonical path, or by the path it was
/// read from where it has none.
pub proof fn lemma_root_is_known_by_its_path(source: Seq<u8>, canonical: Seq<u8>)
    ensures
        root_key(Some(source), Some(canonical)) == canonical,
        root_key(Some(source), None) == source,
        root_key(None, Some(canonical)) == root_key(None, None),
{
}

/// What is said of two packages that would be packaged to one name, and of one whose
/// policy cannot be derived.
pub proof fn lemma_what_is_said_of_graphs(
    nodes: Seq<NodeView>,
    i: int,
    j: int,
    name: Seq<char>,
)
    ensures
        collision_text(nodes, i, j) == "two build files in this graph both package to `"@
            + archive_text(nodes[j].build) + "`: "@ + lossy(nodes[i].key) + " and "@ + lossy(
            nodes[j].key,
        ) + "; rename or re-version one of them"@,
        policy_failure(name) == "cannot derive a sandbox policy for "@ + name
            + "; run `pm explain` on it to see the whole build file, or build with --permissive to allow the commands anyway"@,
{
}

} // verus!
