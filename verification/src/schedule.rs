//! The order packages are built in, and what becomes of each.
//!
//! Packages are numbered so that everything a package depends on has a smaller
//! number than the package itself. A [`Schedule`] hands out the packages whose
//! dependencies are all built, records how each attempt turned out, and gives up
//! on whatever needs a package that failed.

use vstd::prelude::*;

use crate::cancel::Cancel;
use crate::graph::Graph;
use crate::path::FilePath;
use crate::report::{said, wrapped, Report, ReportView};
use crate::text::{decimal, join, joined, push_decimal, texts};

verus! {

/// What each package depends on: `edges[i]` lists the packages that package `i`
/// names, a package named twice being listed twice.
pub type Edges = Seq<Seq<usize>>;

/// Every package depends on packages with smaller numbers only.
pub open spec fn ordered(edges: Edges) -> bool {
    forall|i: int, k: int|
        0 <= i < edges.len() && 0 <= k < edges[i].len() ==> #[trigger] edges[i][k] < i
}

/// Package `i` needs package `t`: it depends on it, or on something that needs
/// it.
pub open spec fn needs(edges: Edges, i: int, t: int) -> bool
    decreases i,
{
    exists|k: int|
        0 <= i < edges.len() && 0 <= k < edges[i].len() && #[trigger] edges[i][k] < i && (
        edges[i][k] == t || needs(edges, edges[i][k] as int, t))
}

/// What the scheduler knows about a package.
pub enum Progression {
    /// Not finished: waiting for its dependencies, for a worker, or running.
    Waiting,
    /// Built, leaving this archive behind.
    Built(FilePath),
    /// Attempted and failed.
    Failed(Report),
    /// Never attempted, because something it needs failed.
    Skipped,
}

/// A package that will never leave an archive behind.
pub open spec fn lost(p: Progression) -> bool {
    p is Failed || p is Skipped
}

/// Package `i` depends directly on a package that is lost.
pub open spec fn has_lost_dependency(edges: Edges, all: Seq<Progression>, i: int) -> bool {
    exists|k: int| 0 <= k < edges[i].len() && lost(all[(#[trigger] edges[i][k]) as int])
}

/// How many times `x` occurs in `list`.
pub open spec fn count_of(list: Seq<usize>, x: usize) -> nat
    decreases list.len(),
{
    if list.len() == 0 {
        0
    } else {
        count_of(list.drop_last(), x) + if list.last() == x {
            1nat
        } else {
            0nat
        }
    }
}

/// How many entries of `list` are packages not built yet.
pub open spec fn unbuilt(list: Seq<usize>, all: Seq<Progression>) -> nat
    decreases list.len(),
{
    if list.len() == 0 {
        0
    } else {
        unbuilt(list.drop_last(), all) + if all[list.last() as int] is Built {
            0nat
        } else {
            1nat
        }
    }
}

/// How many packages are not finished.
pub open spec fn waiting_count(all: Seq<Progression>) -> nat
    decreases all.len(),
{
    if all.len() == 0 {
        0
    } else {
        waiting_count(all.drop_last()) + if all.last() is Waiting {
            1nat
        } else {
            0nat
        }
    }
}

/// How many packages are built.
pub open spec fn built_count(all: Seq<Progression>) -> nat
    decreases all.len(),
{
    if all.len() == 0 {
        0
    } else {
        built_count(all.drop_last()) + if all.last() is Built {
            1nat
        } else {
            0nat
        }
    }
}

/// The members of `list` get larger from one to the next.
pub open spec fn increasing(list: Seq<usize>) -> bool {
    forall|i: int, j: int| 0 <= i < j < list.len() ==> #[trigger] list[i] < #[trigger] list[j]
}

/// The members of `list` never get smaller from one to the next.
pub open spec fn rising(list: Seq<usize>) -> bool {
    forall|i: int, j: int| 0 <= i < j < list.len() ==> #[trigger] list[i] <= #[trigger] list[j]
}

proof fn lemma_count_append(a: Seq<usize>, x: usize, y: usize)
    ensures
        count_of(a.push(x), y) == count_of(a, y) + if x == y {
            1nat
        } else {
            0nat
        },
{
    assert(a.push(x).drop_last() =~= a);
}

proof fn lemma_count_contains(list: Seq<usize>, x: usize)
    ensures
        count_of(list, x) > 0 <==> list.contains(x),
        count_of(list, x) <= list.len(),
    decreases list.len(),
{
    if list.len() > 0 {
        lemma_count_contains(list.drop_last(), x);
        if list.drop_last().contains(x) {
            let k = choose|k: int| 0 <= k < list.drop_last().len() && list.drop_last()[k] == x;
            assert(list[k] == x);
        }
        if list.contains(x) && list.last() != x {
            let k = choose|k: int| 0 <= k < list.len() && list[k] == x;
            assert(list.drop_last()[k] == x);
        }
    }
}

proof fn lemma_count_take(list: Seq<usize>, j: int, x: usize)
    requires
        0 <= j < list.len(),
    ensures
        count_of(list.take(j + 1), x) == count_of(list.take(j), x) + if list[j] == x {
            1nat
        } else {
            0nat
        },
        count_of(list.take(j + 1), x) <= count_of(list, x),
    decreases list.len(),
{
    assert(list.take(j + 1).drop_last() =~= list.take(j));
    if j + 1 < list.len() {
        assert(list.drop_last().take(j + 1) =~= list.take(j + 1));
        lemma_count_take(list.drop_last(), j, x);
    } else {
        assert(list.take(j + 1) =~= list);
    }
}

/// Nothing is missing exactly when every entry is built.
proof fn lemma_unbuilt_zero(list: Seq<usize>, all: Seq<Progression>)
    ensures
        unbuilt(list, all) == 0 <==> forall|k: int|
            0 <= k < list.len() ==> all[(#[trigger] list[k]) as int] is Built,
        unbuilt(list, all) <= list.len(),
    decreases list.len(),
{
    if list.len() > 0 {
        let rest = list.drop_last();
        lemma_unbuilt_zero(rest, all);
        if unbuilt(rest, all) == 0 && all[list.last() as int] is Built {
            assert forall|k: int| 0 <= k < list.len() implies all[(#[trigger] list[k]) as int]
                is Built by {
                if k < list.len() - 1 {
                    assert(rest[k] == list[k]);
                }
            }
        }
        if forall|k: int| 0 <= k < list.len() ==> all[(#[trigger] list[k]) as int] is Built {
            assert forall|k: int| 0 <= k < rest.len() implies all[(#[trigger] rest[k]) as int]
                is Built by {
                assert(rest[k] == list[k]);
            }
            assert(all[list[list.len() - 1] as int] is Built);
        }
    }
}

/// Building one package takes each mention of it off what is missing.
proof fn lemma_unbuilt_update(list: Seq<usize>, all: Seq<Progression>, i: usize, p: Progression)
    requires
        i < all.len(),
        !(all[i as int] is Built),
        forall|k: int| 0 <= k < list.len() ==> (#[trigger] list[k]) < all.len(),
    ensures
        p is Built ==> unbuilt(list, all.update(i as int, p)) + count_of(list, i) == unbuilt(
            list,
            all,
        ),
        !(p is Built) ==> unbuilt(list, all.update(i as int, p)) == unbuilt(list, all),
    decreases list.len(),
{
    if list.len() > 0 {
        let rest = list.drop_last();
        assert forall|k: int| 0 <= k < rest.len() implies (#[trigger] rest[k]) < all.len() by {
            assert(rest[k] == list[k]);
        }
        lemma_unbuilt_update(rest, all, i, p);
        assert(list[list.len() - 1] < all.len());
    }
}

proof fn lemma_tally_update(all: Seq<Progression>, i: int, p: Progression)
    requires
        0 <= i < all.len(),
    ensures
        waiting_count(all.update(i, p)) == waiting_count(all) - (if all[i] is Waiting {
            1int
        } else {
            0int
        }) + (if p is Waiting {
            1int
        } else {
            0int
        }),
        built_count(all.update(i, p)) == built_count(all) - (if all[i] is Built {
            1int
        } else {
            0int
        }) + (if p is Built {
            1int
        } else {
            0int
        }),
    decreases all.len(),
{
    if i == all.len() - 1 {
        assert(all.update(i, p).drop_last() =~= all.drop_last());
    } else {
        assert(all.update(i, p).drop_last() =~= all.drop_last().update(i, p));
        lemma_tally_update(all.drop_last(), i, p);
    }
}

proof fn lemma_tally_bounds(all: Seq<Progression>)
    ensures
        waiting_count(all) + built_count(all) <= all.len(),
        waiting_count(all) == 0 <==> forall|i: int|
            0 <= i < all.len() ==> !(#[trigger] all[i] is Waiting),
    decreases all.len(),
{
    if all.len() > 0 {
        let rest = all.drop_last();
        lemma_tally_bounds(rest);
        if waiting_count(all) == 0 {
            assert forall|i: int| 0 <= i < all.len() implies !(#[trigger] all[i] is Waiting) by {
                if i < all.len() - 1 {
                    assert(rest[i] == all[i]);
                }
            }
        }
        if forall|i: int| 0 <= i < all.len() ==> !(#[trigger] all[i] is Waiting) {
            assert forall|i: int| 0 <= i < rest.len() implies !(#[trigger] rest[i] is Waiting) by {
                assert(rest[i] == all[i]);
            }
            assert(!(all[all.len() - 1] is Waiting));
        }
    }
}

/// A package nobody has started whose dependencies are all built.
pub open spec fn startable(edges: Edges, all: Seq<Progression>, x: usize) -> bool {
    x < all.len() && all[x as int] is Waiting && unbuilt(edges[x as int], all) == 0
}

/// The edges of a graph, reversed: `dependents[d]` lists, smallest first, the
/// packages that depend on `d`, each as often as it names `d`.
pub open spec fn reversed(edges: Edges, dependents: Seq<Vec<usize>>) -> bool {
    &&& dependents.len() == edges.len()
    &&& forall|d: int| 0 <= d < dependents.len() ==> rising(#[trigger] dependents[d]@)
    &&& forall|d: int, j: int|
        0 <= d < dependents.len() && 0 <= j < dependents[d]@.len() ==> (
        #[trigger] dependents[d]@[j]) < edges.len()
    &&& forall|d: usize, x: usize|
        d < edges.len() && x < edges.len() ==> #[trigger] count_of(dependents[d as int]@, x)
            == #[trigger] count_of(edges[x as int], d)
}

/// Every package stands as what it depends on makes it stand.
pub open spec fn consistent(edges: Edges, all: Seq<Progression>) -> bool {
    &&& all.len() == edges.len()
    &&& forall|x: int|
        0 <= x < all.len() ==> (#[trigger] has_lost_dependency(edges, all, x)
            <==> all[x] is Skipped)
    &&& forall|x: int|
        0 <= x < all.len() && (#[trigger] all[x] is Built || all[x] is Failed) ==> unbuilt(
            edges[x],
            all,
        ) == 0
}

/// What is ready, what is running and what is done.
pub struct Schedule {
    /// How many of each package's dependencies are still unbuilt.
    pub blocked_by: Vec<usize>,
    /// Packages whose dependencies are all built, waiting for a worker.
    pub ready: Vec<usize>,
    /// Packages currently being built.
    pub in_flight: Vec<usize>,
    /// Which packages depend on each package - the graph's edges, reversed.
    pub dependents: Vec<Vec<usize>>,
    pub progression: Vec<Progression>,
    /// Packages that have not reached a final state yet.
    pub unsettled: usize,
    /// Packages built successfully, for the summary line.
    pub done: usize,
    /// Whether the build has been cancelled.
    pub cancelled: bool,
}

/// What a worker is to do next.
pub enum Claim {
    /// Build this package, given its dependencies' archives.
    Package {
        index: usize,
        archives: Vec<FilePath>,
    },
    /// There is no work left for anybody, or the build has been cancelled.
    Over,
    /// Nothing is ready: wait until another worker has settled a package.
    Wait,
}

impl Schedule {
    /// The schedule describes a build of packages with these dependencies.
    pub open spec fn wf(&self, edges: Edges) -> bool {
        &&& ordered(edges)
        &&& reversed(edges, self.dependents@)
        &&& consistent(edges, self.progression@)
        &&& self.blocked_by@.len() == edges.len()
        &&& forall|x: int|
            0 <= x < edges.len() ==> #[trigger] self.blocked_by@[x] == unbuilt(
                edges[x],
                self.progression@,
            )
        &&& self.ready@.no_duplicates()
        &&& self.in_flight@.no_duplicates()
        &&& forall|x: usize|
            self.ready@.contains(x) ==> startable(edges, self.progression@, x)
                && !self.in_flight@.contains(x)
        &&& forall|x: usize|
            self.in_flight@.contains(x) ==> #[trigger] startable(edges, self.progression@, x)
        &&& forall|x: usize| #[trigger]
            startable(edges, self.progression@, x) ==> self.ready@.contains(x)
                || self.in_flight@.contains(x)
        &&& self.unsettled == waiting_count(self.progression@)
        &&& self.done == built_count(self.progression@)
    }

    /// Nothing has started: every package waits, and those that depend on nothing
    /// are ready, smallest first.
    pub fn new(graph: &Graph) -> (r: Schedule)
        requires
            ordered(graph.edges()),
        ensures
            r.wf(graph.edges()),
            forall|x: int|
                0 <= x < graph.edges().len() ==> #[trigger] r.progression@[x] is Waiting,
            increasing(r.ready@),
            forall|x: usize| #[trigger]
                r.ready@.contains(x) <==> x < graph.edges().len() && graph.edges()[x as int].len()
                    == 0,
            r.in_flight@.len() == 0,
            r.unsettled == graph.edges().len(),
            r.done == 0,
            !r.cancelled,
    {
        let n: usize = graph.nodes.len();
        let ghost edges = graph.edges();
        let mut dependents: Vec<Vec<usize>> = Vec::new();
        let mut progression: Vec<Progression> = Vec::new();
        let mut filled: usize = 0;
        while filled < n
            invariant
                filled <= n,
                n == graph.nodes@.len(),
                dependents@.len() == filled,
                progression@.len() == filled,
                forall|d: int| 0 <= d < filled ==> (#[trigger] dependents@[d])@.len() == 0,
                forall|d: int| 0 <= d < filled ==> #[trigger] progression@[d] is Waiting,
                waiting_count(progression@) == filled,
                built_count(progression@) == 0,
            decreases n - filled,
        {
            let ghost before = progression@;
            dependents.push(Vec::new());
            progression.push(Progression::Waiting);
            assert(progression@.drop_last() =~= before);
            filled += 1;
        }
        assert forall|d: usize, x: usize| d < n implies #[trigger] count_of(
            dependents@[d as int]@,
            x,
        ) == 0 by {}

        let mut blocked_by: Vec<usize> = Vec::new();
        let mut ready: Vec<usize> = Vec::new();
        let mut index: usize = 0;
        while index < n
            invariant
                index <= n,
                n == graph.nodes@.len() == edges.len(),
                edges == graph.edges(),
                ordered(edges),
                dependents@.len() == n,
                blocked_by@.len() == index,
                forall|d: int| 0 <= d < n ==> rising(#[trigger] dependents@[d]@),
                forall|d: int, j: int|
                    0 <= d < n && 0 <= j < dependents@[d]@.len() ==> (
                    #[trigger] dependents@[d]@[j]) < index,
                forall|d: usize, x: usize|
                    d < n && x < n ==> #[trigger] count_of(dependents@[d as int]@, x) == (
                    if x < index {
                        count_of(edges[x as int], d)
                    } else {
                        0
                    }),
                forall|x: int| 0 <= x < index ==> #[trigger] blocked_by@[x] == edges[x].len(),
                increasing(ready@),
                forall|j: int| 0 <= j < ready@.len() ==> #[trigger] ready@[j] < index,
                forall|x: usize| #[trigger]
                    ready@.contains(x) <==> x < index && edges[x as int].len() == 0,
            decreases n - index,
        {
            let count: usize = graph.nodes[index].dependencies.len();
            assert(edges[index as int] == graph.nodes@[index as int].dependencies@);
            let mut k: usize = 0;
            while k < count
                invariant
                    index < n,
                    k <= count,
                    count == edges[index as int].len(),
                    n == graph.nodes@.len() == edges.len(),
                    edges == graph.edges(),
                    edges[index as int] == graph.nodes@[index as int].dependencies@,
                    ordered(edges),
                    dependents@.len() == n,
                    forall|d: int| 0 <= d < n ==> rising(#[trigger] dependents@[d]@),
                    forall|d: int, j: int|
                        0 <= d < n && 0 <= j < dependents@[d]@.len() ==> (
                        #[trigger] dependents@[d]@[j]) <= index,
                    forall|d: usize, x: usize|
                        d < n && x < n ==> #[trigger] count_of(dependents@[d as int]@, x) == (
                        if x < index {
                            count_of(edges[x as int], d)
                        } else if x == index {
                            count_of(edges[index as int].take(k as int), d)
                        } else {
                            0
                        }),
                decreases count - k,
            {
                let dependency: usize = graph.nodes[index].dependencies[k];
                assert(edges[index as int][k as int] == dependency);
                let ghost before = dependents@;
                dependents[dependency].push(index);
                proof {
                    assert(dependents@[dependency as int]@ == before[dependency as int]@.push(
                        index,
                    ));
                    assert forall|d: usize, x: usize| d < n && x < n implies #[trigger] count_of(
                        dependents@[d as int]@,
                        x,
                    ) == (if x < index {
                        count_of(edges[x as int], d)
                    } else if x == index {
                        count_of(edges[index as int].take(k + 1), d)
                    } else {
                        0
                    }) by {
                        lemma_count_take(edges[index as int], k as int, d);
                        assert(count_of(before[d as int]@, x) == (if x < index {
                            count_of(edges[x as int], d)
                        } else if x == index {
                            count_of(edges[index as int].take(k as int), d)
                        } else {
                            0
                        }));
                        if d == dependency {
                            lemma_count_append(before[d as int]@, index, x);
                        } else {
                            assert(dependents@[d as int] == before[d as int]);
                        }
                    }
                }
                k += 1;
            }
            assert(edges[index as int].take(count as int) =~= edges[index as int]);
            blocked_by.push(count);
            let ghost ready_before = ready@;
            if count == 0 {
                ready.push(index);
                assert(ready@[ready@.len() - 1] == index);
            }
            assert forall|x: usize| #[trigger] ready@.contains(x) <==> x < index + 1
                && edges[x as int].len() == 0 by {
                if ready@.contains(x) {
                    let j = choose|j: int| 0 <= j < ready@.len() && ready@[j] == x;
                    if j < ready_before.len() {
                        assert(ready_before[j] == x);
                        assert(ready_before.contains(x));
                    }
                }
                if x < index && edges[x as int].len() == 0 {
                    assert(ready_before.contains(x));
                    let j = choose|j: int| 0 <= j < ready_before.len() && ready_before[j] == x;
                    assert(ready@[j] == x);
                }
            }
            index += 1;
        }
        let r = Schedule {
            blocked_by,
            ready,
            in_flight: Vec::new(),
            dependents,
            progression,
            unsettled: n,
            done: 0,
            cancelled: false,
        };
        proof {
            assert forall|x: int| 0 <= x < n implies unbuilt(edges[x], r.progression@)
                == #[trigger] edges[x].len() by {
                lemma_all_unbuilt(edges[x], r.progression@);
            }
            assert forall|x: usize| #[trigger] startable(edges, r.progression@, x) implies
                r.ready@.contains(x) by {
                assert(unbuilt(edges[x as int], r.progression@) == edges[x as int].len());
            }
            assert forall|x: usize| r.ready@.contains(x) implies startable(
                edges,
                r.progression@,
                x,
            ) by {
                assert(unbuilt(edges[x as int], r.progression@) == edges[x as int].len());
            }
            assert forall|x: int| 0 <= x < n implies !(#[trigger] has_lost_dependency(
                edges,
                r.progression@,
                x,
            )) by {
                assert forall|k: int| 0 <= k < edges[x].len() implies !lost(
                    r.progression@[(#[trigger] edges[x][k]) as int],
                ) by {}
            }
        }
        r
    }
}

proof fn lemma_all_unbuilt(list: Seq<usize>, all: Seq<Progression>)
    requires
        forall|k: int|
            0 <= k < list.len() ==> (#[trigger] list[k]) < all.len() && !(all[list[k] as int]
                is Built),
    ensures
        unbuilt(list, all) == list.len(),
    decreases list.len(),
{
    if list.len() > 0 {
        let rest = list.drop_last();
        assert forall|k: int| 0 <= k < rest.len() implies (#[trigger] rest[k]) < all.len() && !(
        all[rest[k] as int] is Built) by {
            assert(rest[k] == list[k]);
        }
        lemma_all_unbuilt(rest, all);
        assert(!(all[list[list.len() - 1] as int] is Built));
    }
}

/// The package is built and left `archive` behind.
pub open spec fn built_as(p: Progression, archive: Seq<u8>) -> bool {
    p is Built && p->Built_0@ == archive
}

/// A package with nothing left to wait for has no lost dependency.
proof fn lemma_nothing_lost(edges: Edges, all: Seq<Progression>, x: int)
    requires
        0 <= x < edges.len(),
        unbuilt(edges[x], all) == 0,
    ensures
        !has_lost_dependency(edges, all, x),
{
    lemma_unbuilt_zero(edges[x], all);
}

/// The smallest unfinished package, if any is unfinished.
proof fn lemma_first_waiting(all: Seq<Progression>) -> (x: int)
    requires
        waiting_count(all) > 0,
    ensures
        0 <= x < all.len(),
        all[x] is Waiting,
        forall|y: int| 0 <= y < x ==> !(#[trigger] all[y] is Waiting),
    decreases all.len(),
{
    let rest = all.drop_last();
    if waiting_count(rest) > 0 {
        let x = lemma_first_waiting(rest);
        assert(rest[x] == all[x]);
        assert forall|y: int| 0 <= y < x implies !(#[trigger] all[y] is Waiting) by {
            assert(rest[y] == all[y]);
        }
        x
    } else {
        lemma_tally_bounds(rest);
        let x = all.len() - 1;
        assert forall|y: int| 0 <= y < x implies !(#[trigger] all[y] is Waiting) by {
            assert(rest[y] == all[y]);
        }
        x
    }
}

/// A schedule never stalls: while packages remain, one is ready or one is being
/// built.
pub proof fn lemma_never_stalls(schedule: Schedule, edges: Edges)
    requires
        schedule.wf(edges),
        schedule.unsettled > 0,
    ensures
        schedule.ready@.len() > 0 || schedule.in_flight@.len() > 0,
{
    let all = schedule.progression@;
    let x = lemma_first_waiting(all);
    lemma_tally_bounds(all);
    assert(!has_lost_dependency(edges, all, x));
    assert forall|k: int| 0 <= k < edges[x].len() implies all[(#[trigger] edges[x][k]) as int]
        is Built by {
        let d = edges[x][k] as int;
        assert(d < x);
        assert(!(all[d] is Waiting));
        assert(!lost(all[d]));
    }
    lemma_unbuilt_zero(edges[x], all);
    assert(x <= usize::MAX) by {
        assert(schedule.progression.len() == all.len());
    }
    assert(startable(edges, all, x as usize));
}

impl Schedule {
    /// A schedule for a build that `cancel` can stop: nothing has started, and nothing
    /// will where the token has been tripped already.
    pub fn start<W>(graph: &Graph, cancel: &Cancel<W>) -> (r: Schedule)
        requires
            ordered(graph.edges()),
        ensures
            r.wf(graph.edges()),
            forall|x: int|
                0 <= x < graph.edges().len() ==> #[trigger] r.progression@[x] is Waiting,
            increasing(r.ready@),
            forall|x: usize| #[trigger]
                r.ready@.contains(x) <==> x < graph.edges().len() && graph.edges()[x as int].len()
                    == 0,
            r.in_flight@.len() == 0,
            r.unsettled == graph.edges().len(),
            r.done == 0,
            r.cancelled == cancel.cancelled,
    {
        let mut r = Schedule::new(graph);
        if cancel.is_cancelled() {
            r.cancel();
        }
        r
    }

    /// Hand nothing more out. What is being built keeps being built.
    pub fn cancel(&mut self)
        ensures
            final(self).cancelled,
            forall|edges: Edges| old(self).wf(edges) ==> #[trigger] final(self).wf(edges),
            final(self).progression == old(self).progression,
            final(self).blocked_by == old(self).blocked_by,
            final(self).ready == old(self).ready,
            final(self).in_flight == old(self).in_flight,
            final(self).dependents == old(self).dependents,
            final(self).unsettled == old(self).unsettled,
            final(self).done == old(self).done,
    {
        self.cancelled = true;
    }

    /// How many packages are being built.
    pub fn running(&self) -> (r: usize)
        ensures
            r == self.in_flight@.len(),
    {
        self.in_flight.len()
    }

    /// The archives of everything `index` depends on, in the order it names them.
    ///
    /// Every one of them is built: a package only becomes ready once all its
    /// dependencies have settled successfully.
    pub fn archives_for(&self, graph: &Graph, index: usize) -> (r: Vec<FilePath>)
        requires
            self.wf(graph.edges()),
            startable(graph.edges(), self.progression@, index),
        ensures
            r@.len() == graph.edges()[index as int].len(),
            forall|k: int|
                0 <= k < r@.len() ==> built_as(
                    self.progression@[graph.edges()[index as int][k] as int],
                    (#[trigger] r@[k])@,
                ),
    {
        let ghost edges = graph.edges();
        let count: usize = graph.nodes[index].dependencies.len();
        proof {
            assert(edges[index as int] == graph.nodes@[index as int].dependencies@);
            lemma_unbuilt_zero(edges[index as int], self.progression@);
        }
        let mut r: Vec<FilePath> = Vec::new();
        let mut k: usize = 0;
        while k < count
            invariant
                k <= count,
                self.wf(edges),
                edges == graph.edges(),
                index < edges.len(),
                count == edges[index as int].len(),
                edges[index as int] == graph.nodes@[index as int].dependencies@,
                forall|j: int|
                    0 <= j < count ==> self.progression@[(
                    #[trigger] edges[index as int][j]) as int] is Built,
                r@.len() == k,
                forall|j: int|
                    0 <= j < k ==> built_as(
                        self.progression@[edges[index as int][j] as int],
                        (#[trigger] r@[j])@,
                    ),
            decreases count - k,
        {
            let dependency: usize = graph.nodes[index].dependencies[k];
            assert(edges[index as int][k as int] == dependency);
            match &self.progression[dependency] {
                Progression::Built(archive) => {
                    r.push(archive.clone());
                },
                _ => {},
            }
            k += 1;
        }
        r
    }

    /// Take the package that became ready last, with its dependencies' archives.
    ///
    /// Once the build is cancelled nothing more is handed out, and a package is
    /// handed out at most once.
    pub fn claim(&mut self, graph: &Graph) -> (r: Claim)
        requires
            old(self).wf(graph.edges()),
        ensures
            final(self).wf(graph.edges()),
            final(self).progression@ == old(self).progression@,
            final(self).blocked_by@ == old(self).blocked_by@,
            final(self).dependents@ == old(self).dependents@,
            final(self).unsettled == old(self).unsettled,
            final(self).done == old(self).done,
            final(self).cancelled == old(self).cancelled,
            r is Package <==> !old(self).cancelled && old(self).ready@.len() > 0,
            r is Wait <==> !old(self).cancelled && old(self).ready@.len() == 0
                && old(self).unsettled > 0,
            match r {
                Claim::Package { index, archives } => {
                    &&& index == old(self).ready@.last()
                    &&& startable(graph.edges(), old(self).progression@, index)
                    &&& !old(self).in_flight@.contains(index)
                    &&& final(self).ready@ == old(self).ready@.drop_last()
                    &&& final(self).in_flight@ == old(self).in_flight@.push(index)
                    &&& archives@.len() == graph.edges()[index as int].len()
                    &&& forall|k: int|
                        0 <= k < archives@.len() ==> built_as(
                            old(self).progression@[graph.edges()[index as int][k] as int],
                            (#[trigger] archives@[k])@,
                        )
                },
                Claim::Over => *final(self) == *old(self),
                Claim::Wait => *final(self) == *old(self) && old(self).in_flight@.len() > 0,
            },
    {
        if self.cancelled {
            return Claim::Over;
        }
        let ghost edges = graph.edges();
        let ghost before = *self;
        if self.ready.len() > 0 {
            let index: usize = self.ready[self.ready.len() - 1];
            self.ready.pop();
            proof {
                assert(before.ready@.contains(index)) by {
                    assert(before.ready@[before.ready@.len() - 1] == index);
                }
                assert(startable(edges, before.progression@, index));
            }
            self.in_flight.push(index);
            proof {
                let handed = before.ready@.drop_last();
                assert(self.ready@ == handed);
                assert forall|x: usize| self.ready@.contains(x) implies startable(
                    edges,
                    self.progression@,
                    x,
                ) && !self.in_flight@.contains(x) by {
                    let j = choose|j: int| 0 <= j < handed.len() && handed[j] == x;
                    assert(before.ready@[j] == x);
                    assert(before.ready@.contains(x));
                    assert(x != index);
                    if self.in_flight@.contains(x) {
                        let i = choose|i: int|
                            0 <= i < self.in_flight@.len() && self.in_flight@[i] == x;
                        assert(before.in_flight@[i] == x);
                        assert(before.in_flight@.contains(x));
                    }
                }
                assert forall|x: usize| self.in_flight@.contains(x) implies #[trigger] startable(
                    edges,
                    self.progression@,
                    x,
                ) by {
                    if x != index {
                        let i = choose|i: int|
                            0 <= i < self.in_flight@.len() && self.in_flight@[i] == x;
                        assert(before.in_flight@[i] == x);
                        assert(before.in_flight@.contains(x));
                    }
                }
                assert forall|x: usize| #[trigger] startable(
                    edges,
                    self.progression@,
                    x,
                ) implies self.ready@.contains(x) || self.in_flight@.contains(x) by {
                    if before.ready@.contains(x) {
                        let j = choose|j: int|
                            0 <= j < before.ready@.len() && before.ready@[j] == x;
                        if j < before.ready@.len() - 1 {
                            assert(self.ready@[j] == x);
                        } else {
                            assert(self.in_flight@[self.in_flight@.len() - 1] == x);
                        }
                    } else {
                        let i = choose|i: int|
                            0 <= i < before.in_flight@.len() && before.in_flight@[i] == x;
                        assert(self.in_flight@[i] == x);
                    }
                }
            }
            let archives = self.archives_for(graph, index);
            return Claim::Package { index, archives };
        }
        if self.unsettled == 0 {
            return Claim::Over;
        }
        proof {
            lemma_never_stalls(*self, edges);
        }
        if self.in_flight.len() == 0 {
            self.abandon_remaining();
            return Claim::Over;
        }
        Claim::Wait
    }

    /// Give up on whatever is left, so a stalled schedule reports instead of
    /// hanging.
    pub fn abandon_remaining(&mut self)
        ensures
            final(self).progression@.len() == old(self).progression@.len(),
            forall|x: int|
                0 <= x < old(self).progression@.len() ==> #[trigger] final(self).progression@[x]
                    == (if old(self).progression@[x] is Waiting {
                    Progression::Skipped
                } else {
                    old(self).progression@[x]
                }),
            final(self).unsettled == 0,
            final(self).blocked_by@ == old(self).blocked_by@,
            final(self).ready@ == old(self).ready@,
            final(self).in_flight@ == old(self).in_flight@,
            final(self).dependents@ == old(self).dependents@,
            final(self).done == old(self).done,
            final(self).cancelled == old(self).cancelled,
    {
        let ghost before = *self;
        let mut i: usize = 0;
        while i < self.progression.len()
            invariant
                i <= self.progression@.len() == before.progression@.len(),
                forall|x: int|
                    0 <= x < before.progression@.len() ==> #[trigger] self.progression@[x] == (
                    if x < i && before.progression@[x] is Waiting {
                        Progression::Skipped
                    } else {
                        before.progression@[x]
                    }),
                self.blocked_by == before.blocked_by,
                self.ready == before.ready,
                self.in_flight == before.in_flight,
                self.dependents == before.dependents,
                self.done == before.done,
                self.cancelled == before.cancelled,
            decreases self.progression@.len() - i,
        {
            if matches!(self.progression[i], Progression::Waiting) {
                self.progression[i] = Progression::Skipped;
            }
            i += 1;
        }
        self.unsettled = 0;
    }
}

/// Every package but those that depend directly on `index`, which has just
/// failed, stands as what it depends on makes it stand.
pub open spec fn consistent_but_for(edges: Edges, all: Seq<Progression>, index: usize) -> bool {
    &&& all.len() == edges.len()
    &&& index < all.len()
    &&& all[index as int] is Failed
    &&& forall|x: int|
        0 <= x < all.len() && all[x] is Skipped ==> #[trigger] has_lost_dependency(edges, all, x)
    &&& forall|x: int|
        0 <= x < all.len() && #[trigger] has_lost_dependency(edges, all, x) && !(all[x] is Skipped)
            ==> edges[x].contains(index)
    &&& forall|x: int|
        0 <= x < all.len() && (#[trigger] all[x] is Built || all[x] is Failed) ==> unbuilt(
            edges[x],
            all,
        ) == 0
}

/// How things would stand if `index` had failed.
spec fn given_up(all: Seq<Progression>, index: usize) -> Seq<Progression> {
    all.update(index as int, Progression::Failed(arbitrary()))
}

/// `index` is not built, and every package but itself and those that depend directly
/// on it stands as what it depends on makes it stand when `index` is given up.
spec fn skippable(edges: Edges, all: Seq<Progression>, index: usize) -> bool {
    let lost_it = given_up(all, index);
    &&& all.len() == edges.len()
    &&& index < all.len()
    &&& !(all[index as int] is Built)
    &&& forall|x: int|
        0 <= x < all.len() && lost_it[x] is Skipped ==> #[trigger] has_lost_dependency(
            edges,
            lost_it,
            x,
        )
    &&& forall|x: int|
        0 <= x < all.len() && x != index && #[trigger] has_lost_dependency(edges, lost_it, x) && !(
        lost_it[x] is Skipped) ==> edges[x].contains(index)
    &&& forall|x: int|
        0 <= x < all.len() && x != index && (#[trigger] lost_it[x] is Built || lost_it[x] is Failed)
            ==> unbuilt(edges[x], lost_it) == 0
}

proof fn lemma_given_up(edges: Edges, all: Seq<Progression>, index: usize)
    requires
        ordered(edges),
        all.len() == edges.len(),
        index < all.len(),
        !(all[index as int] is Built),
    ensures
        forall|x: int| 0 <= x < all.len() ==> unbuilt(#[trigger] edges[x], given_up(all, index))
            == unbuilt(edges[x], all),
        forall|x: int|
            0 <= x < all.len() && #[trigger] has_lost_dependency(edges, all, x)
                ==> has_lost_dependency(edges, given_up(all, index), x),
        forall|x: int|
            0 <= x < all.len() && #[trigger] has_lost_dependency(edges, given_up(all, index), x)
                ==> has_lost_dependency(edges, all, x) || edges[x].contains(index),
        all[index as int] is Failed ==> forall|x: int|
            0 <= x < all.len() && #[trigger] has_lost_dependency(edges, given_up(all, index), x)
                ==> has_lost_dependency(edges, all, x),
{
    let lost_it = given_up(all, index);
    assert forall|x: int| 0 <= x < all.len() implies unbuilt(#[trigger] edges[x], lost_it)
        == unbuilt(edges[x], all) by {
        assert forall|k: int| 0 <= k < edges[x].len() implies (lost_it[(
        #[trigger] edges[x][k]) as int] is Built <==> all[edges[x][k] as int] is Built) by {
            assert(edges[x][k] < x);
        }
        lemma_unbuilt_same(edges[x], lost_it, all);
    }
    assert forall|x: int| 0 <= x < all.len() && #[trigger] has_lost_dependency(edges, all, x) implies
        has_lost_dependency(edges, lost_it, x) by {
        let k = choose|k: int|
            0 <= k < edges[x].len() && lost(all[(#[trigger] edges[x][k]) as int]);
        assert(edges[x][k] < x);
        assert(lost(lost_it[edges[x][k] as int]));
    }
    assert forall|x: int|
        0 <= x < all.len() && #[trigger] has_lost_dependency(edges, lost_it, x) implies (
    has_lost_dependency(edges, all, x) || edges[x].contains(index)) && (all[index as int] is Failed
        ==> has_lost_dependency(edges, all, x)) by {
        let k = choose|k: int|
            0 <= k < edges[x].len() && lost(lost_it[(#[trigger] edges[x][k]) as int]);
        assert(edges[x][k] < x);
        if edges[x][k] != index || all[index as int] is Failed {
            assert(lost(all[edges[x][k] as int]));
        }
    }
}

/// What may be given up is a package that has just failed, and any that is not built
/// while everything stands as it should.
proof fn lemma_skippable(edges: Edges, all: Seq<Progression>, index: usize)
    requires
        ordered(edges),
        index < all.len(),
        consistent_but_for(edges, all, index) || consistent(edges, all) && !(
        all[index as int] is Built),
    ensures
        skippable(edges, all, index),
{
    let lost_it = given_up(all, index);
    lemma_given_up(edges, all, index);
    assert forall|x: int|
        0 <= x < all.len() && x != index && (#[trigger] lost_it[x] is Built || lost_it[x] is Failed)
        implies unbuilt(edges[x], lost_it) == 0 by {
        assert(all[x] is Built || all[x] is Failed);
    }
    assert forall|x: int| 0 <= x < all.len() && lost_it[x] is Skipped implies
        #[trigger] has_lost_dependency(edges, lost_it, x) by {
        assert(all[x] is Skipped);
        assert(has_lost_dependency(edges, all, x));
    }
}

proof fn lemma_unbuilt_same(list: Seq<usize>, a: Seq<Progression>, b: Seq<Progression>)
    requires
        forall|k: int|
            0 <= k < list.len() ==> (a[(#[trigger] list[k]) as int] is Built
                <==> b[list[k] as int] is Built),
    ensures
        unbuilt(list, a) == unbuilt(list, b),
    decreases list.len(),
{
    if list.len() > 0 {
        let rest = list.drop_last();
        assert forall|k: int| 0 <= k < rest.len() implies (a[(#[trigger] rest[k]) as int] is Built
            <==> b[rest[k] as int] is Built) by {
            assert(rest[k] == list[k]);
        }
        lemma_unbuilt_same(rest, a, b);
        assert(a[list[list.len() - 1] as int] is Built <==> b[list[list.len() - 1] as int]
            is Built);
    }
}

/// What gives up after `index` failed is what needs it.
proof fn lemma_skips_what_needs(
    edges: Edges,
    before: Seq<Progression>,
    after: Seq<Progression>,
    index: usize,
    x: int,
)
    requires
        ordered(edges),
        before.len() == after.len() == edges.len(),
        index < before.len(),
        before[index as int] is Failed,
        forall|y: int|
            0 <= y < before.len() && y != index && #[trigger] has_lost_dependency(edges, before, y)
                && !(before[y] is Skipped) ==> edges[y].contains(index),
        forall|y: int|
            0 <= y < after.len() && after[y] is Skipped ==> #[trigger] has_lost_dependency(
                edges,
                after,
                y,
            ),
        forall|y: int|
            0 <= y < after.len() && y != index && #[trigger] has_lost_dependency(edges, after, y)
                ==> after[y] is Skipped,
        forall|y: int|
            0 <= y < after.len() ==> #[trigger] after[y] == before[y] || before[y] is Waiting
                && after[y] is Skipped,
        0 <= x < after.len(),
    ensures
        needs(edges, x, index as int) ==> index < x,
        before[x] is Waiting && after[x] is Skipped ==> needs(edges, x, index as int),
        needs(edges, x, index as int) ==> after[x] is Skipped,
    decreases x,
{
    assert(after[index as int] == before[index as int]);
    if before[x] is Waiting && after[x] is Skipped {
        assert(has_lost_dependency(edges, after, x));
        let k = choose|k: int|
            0 <= k < edges[x].len() && lost(after[(#[trigger] edges[x][k]) as int]);
        let d = edges[x][k] as int;
        assert(d < x);
        if d != index {
            if before[d] is Waiting {
                lemma_skips_what_needs(edges, before, after, index, d);
            } else {
                assert(after[d] == before[d]);
                assert(lost(before[edges[x][k] as int]));
                assert(has_lost_dependency(edges, before, x));
                let l = choose|l: int| 0 <= l < edges[x].len() && edges[x][l] == index;
                assert(edges[x][l] < x);
                assert(needs(edges, x, index as int));
            }
        }
    }
    if needs(edges, x, index as int) {
        let k = choose|k: int|
            0 <= k < edges[x].len() && #[trigger] edges[x][k] < x && (edges[x][k] == index
                || needs(edges, edges[x][k] as int, index as int));
        let d = edges[x][k] as int;
        if d != index {
            lemma_skips_what_needs(edges, before, after, index, d);
        }
        assert(lost(after[edges[x][k] as int]));
        assert(has_lost_dependency(edges, after, x));
    }
}

impl Schedule {
    /// Mark everything that needs `index`, which is not built, as skipped, and say how
    /// many packages that was. `index` itself is left as it is.
    fn skip_dependents_of(&mut self, Ghost(edges): Ghost<Edges>, index: usize) -> (skipped: usize)
        requires
            ordered(edges),
            reversed(edges, old(self).dependents@),
            index < edges.len(),
            consistent_but_for(edges, old(self).progression@, index) || consistent(
                edges,
                old(self).progression@,
            ) && !(old(self).progression@[index as int] is Built),
            old(self).unsettled == waiting_count(old(self).progression@),
        ensures
            final(self).progression@.len() == edges.len(),
            consistent_but_for(edges, old(self).progression@, index) ==> consistent(
                edges,
                final(self).progression@,
            ),
            forall|x: int|
                0 <= x < edges.len() ==> #[trigger] final(self).progression@[x] == (if old(
                    self,
                ).progression@[x] is Waiting && needs(edges, x, index as int) {
                    Progression::Skipped
                } else {
                    old(self).progression@[x]
                }),
            final(self).unsettled == waiting_count(final(self).progression@),
            built_count(final(self).progression@) == built_count(old(self).progression@),
            skipped == old(self).unsettled - final(self).unsettled,
            final(self).blocked_by@ == old(self).blocked_by@,
            final(self).ready@ == old(self).ready@,
            final(self).in_flight@ == old(self).in_flight@,
            final(self).dependents@ == old(self).dependents@,
            final(self).done == old(self).done,
            final(self).cancelled == old(self).cancelled,
    {
        let ghost start = self.progression@;
        let ghost before = given_up(start, index);
        proof {
            lemma_skippable(edges, start, index);
        }
        let mut doomed: Vec<usize> = self.dependents[index].clone();
        let mut skipped: usize = 0;
        proof {
            assert(self.progression.len() == edges.len());
            assert(doomed@ =~= self.dependents@[index as int]@);
            assert forall|j: int| 0 <= j < doomed@.len() implies index < (#[trigger] doomed@[j])
                < edges.len() && has_lost_dependency(edges, before, doomed@[j] as int) by {
                let x = doomed@[j];
                assert(self.dependents@[index as int]@[j] == x);
                lemma_count_contains(doomed@, x);
                lemma_count_contains(edges[x as int], index);
                assert(count_of(self.dependents@[index as int]@, x) == count_of(
                    edges[x as int],
                    index,
                ));
                let k = choose|k: int|
                    0 <= k < edges[x as int].len() && edges[x as int][k] == index;
                assert(edges[x as int][k] < x);
                assert(lost(before[edges[x as int][k] as int]));
            }
            assert forall|x: int|
                0 <= x < edges.len() && x != index && #[trigger] has_lost_dependency(
                    edges,
                    before,
                    x,
                ) && !(before[x] is Skipped) implies doomed@.contains(x as usize) by {
                lemma_count_contains(doomed@, x as usize);
                lemma_count_contains(edges[x], index);
                assert(count_of(self.dependents@[index as int]@, x as usize) == count_of(
                    edges[x],
                    index,
                ));
            }
        }
        while doomed.len() > 0
            invariant
                ordered(edges),
                reversed(edges, self.dependents@),
                index < edges.len() <= usize::MAX,
                skippable(edges, start, index),
                before == given_up(start, index),
                self.progression@.len() == edges.len(),
                self.progression@[index as int] == start[index as int],
                forall|x: int|
                    0 <= x < edges.len() ==> #[trigger] given_up(self.progression@, index)[x]
                        == before[x] || before[x] is Waiting && given_up(
                        self.progression@,
                        index,
                    )[x] is Skipped,
                forall|x: int|
                    0 <= x < edges.len() && given_up(self.progression@, index)[x] is Skipped
                        ==> #[trigger] has_lost_dependency(
                        edges,
                        given_up(self.progression@, index),
                        x,
                    ),
                forall|x: int|
                    0 <= x < edges.len() && x != index && #[trigger] has_lost_dependency(
                        edges,
                        given_up(self.progression@, index),
                        x,
                    ) ==> given_up(self.progression@, index)[x] is Skipped || doomed@.contains(
                        x as usize,
                    ),
                forall|j: int|
                    0 <= j < doomed@.len() ==> index < (#[trigger] doomed@[j]) < edges.len()
                        && has_lost_dependency(
                        edges,
                        given_up(self.progression@, index),
                        doomed@[j] as int,
                    ),
                self.unsettled == waiting_count(self.progression@),
                built_count(self.progression@) == built_count(start),
                skipped + self.unsettled == waiting_count(start),
                skipped + self.unsettled <= usize::MAX,
                self.blocked_by == old(self).blocked_by,
                self.ready == old(self).ready,
                self.in_flight == old(self).in_flight,
                self.dependents == old(self).dependents,
                self.done == old(self).done,
                self.cancelled == old(self).cancelled,
            decreases self.unsettled, doomed@.len(),
        {
            let ghost worklist = doomed@;
            let ghost current = given_up(self.progression@, index);
            let ghost listed = self.progression@;
            let next: usize = doomed[doomed.len() - 1];
            doomed.pop();
            proof {
                assert(worklist[worklist.len() - 1] == next);
                assert(has_lost_dependency(edges, current, next as int));
                assert forall|j: int| 0 <= j < doomed@.len() implies index < (#[trigger] doomed@[j])
                    < edges.len() && has_lost_dependency(edges, current, doomed@[j] as int) by {
                    assert(worklist[j] == doomed@[j]);
                }
                assert forall|x: usize| #[trigger] worklist.contains(x) && x != next implies
                    doomed@.contains(x) by {
                    let j = choose|j: int| 0 <= j < worklist.len() && worklist[j] == x;
                    assert(doomed@[j] == x);
                }
                assert(current[next as int] is Waiting || current[next as int] is Skipped) by {
                    if !(current[next as int] is Waiting || current[next as int] is Skipped) {
                        assert(current[next as int] == before[next as int]);
                        lemma_unbuilt_zero(edges[next as int], before);
                        let k = choose|k: int|
                            0 <= k < edges[next as int].len() && lost(
                                current[(#[trigger] edges[next as int][k]) as int],
                            );
                        let d = edges[next as int][k];
                        assert(before[d as int] is Built);
                        assert(current[d as int] == before[d as int]);
                    }
                }
            }
            if matches!(self.progression[next], Progression::Waiting) {
                self.progression[next] = Progression::Skipped;
                proof {
                    lemma_tally_update(listed, next as int, Progression::Skipped);
                    lemma_tally_bounds(listed);
                    assert(before[next as int] is Waiting) by {
                        assert(current[next as int] == before[next as int] || before[next as int]
                            is Waiting);
                    }
                }
                self.unsettled = self.unsettled - 1;
                skipped = skipped + 1;
                let ghost shorter = doomed@;
                let count: usize = self.dependents[next].len();
                let mut j: usize = 0;
                while j < count
                    invariant
                        next < self.dependents@.len(),
                        j <= count,
                        count == self.dependents@[next as int]@.len(),
                        doomed@ == shorter + self.dependents@[next as int]@.take(j as int),
                    decreases count - j,
                {
                    doomed.push(self.dependents[next][j]);
                    assert(doomed@ =~= shorter + self.dependents@[next as int]@.take(j + 1));
                    j += 1;
                }
                proof {
                    let tail = self.dependents@[next as int]@;
                    assert(tail.take(count as int) =~= tail);
                    let now = given_up(self.progression@, index);
                    assert(now =~= current.update(next as int, Progression::Skipped));
                    assert forall|x: int| 0 <= x < edges.len() && #[trigger] has_lost_dependency(
                        edges,
                        current,
                        x,
                    ) implies has_lost_dependency(edges, now, x) by {
                        let k = choose|k: int|
                            0 <= k < edges[x].len() && lost(
                                current[(#[trigger] edges[x][k]) as int],
                            );
                        assert(lost(now[edges[x][k] as int]));
                    }
                    assert forall|x: int| 0 <= x < edges.len() && now[x] is Skipped implies
                        #[trigger] has_lost_dependency(edges, now, x) by {
                        assert(has_lost_dependency(edges, current, x));
                    }
                    assert forall|x: int|
                        0 <= x < edges.len() && x != index && #[trigger] has_lost_dependency(
                        edges,
                        now,
                        x,
                    ) implies now[x] is Skipped || doomed@.contains(x as usize) by {
                        let k = choose|k: int|
                            0 <= k < edges[x].len() && lost(now[(#[trigger] edges[x][k]) as int]);
                        let d = edges[x][k];
                        if d == next {
                            lemma_count_contains(edges[x], next);
                            lemma_count_contains(tail, x as usize);
                            assert(count_of(self.dependents@[next as int]@, x as usize)
                                == count_of(edges[x], next));
                            let l = choose|l: int| 0 <= l < tail.len() && tail[l] == x as usize;
                            assert(doomed@[shorter.len() + l] == x as usize);
                        } else {
                            assert(lost(current[edges[x][k] as int]));
                            assert(has_lost_dependency(edges, current, x));
                            if !(current[x] is Skipped) && x != next {
                                assert(shorter.contains(x as usize));
                                let l = choose|l: int|
                                    0 <= l < shorter.len() && shorter[l] == x as usize;
                                assert(doomed@[l] == x as usize);
                            }
                        }
                    }
                    assert forall|j: int| 0 <= j < doomed@.len() implies index < (
                    #[trigger] doomed@[j]) < edges.len() && has_lost_dependency(edges, now, doomed@[j] as int) by {
                        if j < shorter.len() {
                            assert(shorter[j] == doomed@[j]);
                            assert(has_lost_dependency(edges, current, shorter[j] as int));
                        } else {
                            let l = j - shorter.len();
                            let x = tail[l];
                            assert(doomed@[j] == x);
                            assert(self.dependents@[next as int]@[l] < edges.len());
                            lemma_count_contains(edges[x as int], next);
                            lemma_count_contains(tail, x);
                            assert(count_of(self.dependents@[next as int]@, x) == count_of(
                                edges[x as int],
                                next,
                            ));
                            let k = choose|k: int|
                                0 <= k < edges[x as int].len() && edges[x as int][k] == next;
                            assert(edges[x as int][k] < x);
                            assert(lost(now[edges[x as int][k] as int]));
                        }
                    }
                }
            }
        }
        proof {
            let after = given_up(self.progression@, index);
            let ended = self.progression@;
            assert forall|x: int| 0 <= x < edges.len() implies #[trigger] ended[x] == (
            if start[x] is Waiting && needs(edges, x, index as int) {
                Progression::Skipped
            } else {
                start[x]
            }) by {
                lemma_skips_what_needs(edges, before, after, index, x);
                assert(after[x] == before[x] || before[x] is Waiting && after[x] is Skipped);
            }
            if consistent_but_for(edges, start, index) {
                lemma_given_up(edges, ended, index);
                assert forall|x: int| 0 <= x < edges.len() implies unbuilt(
                    #[trigger] edges[x],
                    ended,
                ) == unbuilt(edges[x], start) by {
                    lemma_unbuilt_same(edges[x], ended, start);
                }
                lemma_nothing_lost(edges, ended, index as int);
                assert forall|x: int| 0 <= x < ended.len() implies (#[trigger] has_lost_dependency(
                    edges,
                    ended,
                    x,
                ) <==> ended[x] is Skipped) by {
                    if ended[x] is Skipped {
                        assert(after[x] is Skipped);
                        assert(has_lost_dependency(edges, after, x));
                    }
                    if has_lost_dependency(edges, ended, x) {
                        assert(has_lost_dependency(edges, after, x));
                    }
                }
                assert(consistent(edges, ended));
            }
        }
        skipped
    }
}

/// `list` without the one mention of `x` in it.
pub open spec fn without(list: Seq<usize>, x: usize) -> Seq<usize> {
    list.remove(list.index_of(x))
}

proof fn lemma_without(list: Seq<usize>, x: usize)
    requires
        list.no_duplicates(),
        list.contains(x),
    ensures
        without(list, x).no_duplicates(),
        forall|y: usize| #[trigger] without(list, x).contains(y) <==> list.contains(y) && y != x,
{
    let i = list.index_of(x);
    let rest = without(list, x);
    assert(0 <= i < list.len() && list[i] == x);
    assert forall|y: usize| #[trigger] rest.contains(y) <==> list.contains(y) && y != x by {
        if rest.contains(y) {
            let j = choose|j: int| 0 <= j < rest.len() && rest[j] == y;
            assert(list[if j < i { j } else { j + 1 }] == y);
        }
        if list.contains(y) && y != x {
            let j = choose|j: int| 0 <= j < list.len() && list[j] == y;
            assert(rest[if j < i { j } else { j - 1 }] == y);
        }
    }
}

impl Schedule {
    /// Record how `index` turned out, release what was waiting for it alone or
    /// skip what needs it, and say how many packages were skipped.
    ///
    /// What a success releases is put behind what was ready already, smallest
    /// first.
    pub fn settle(&mut self, graph: &Graph, index: usize, result: Result<FilePath, Report>) -> (skipped:
        usize)
        requires
            old(self).wf(graph.edges()),
            old(self).in_flight@.contains(index),
        ensures
            final(self).wf(graph.edges()),
            final(self).in_flight@ == without(old(self).in_flight@, index),
            final(self).dependents@ == old(self).dependents@,
            final(self).cancelled == old(self).cancelled,
            final(self).progression@.len() == old(self).progression@.len(),
            final(self).unsettled == old(self).unsettled - 1 - skipped,
            match result {
                Ok(archive) => {
                    let tail = final(self).ready@.skip(old(self).ready@.len() as int);
                    &&& final(self).progression@ == old(self).progression@.update(
                        index as int,
                        Progression::Built(archive),
                    )
                    &&& final(self).done == old(self).done + 1
                    &&& skipped == 0
                    &&& old(self).ready@.is_prefix_of(final(self).ready@)
                    &&& increasing(tail)
                    &&& forall|x: usize| #[trigger]
                        tail.contains(x) <==> startable(
                            graph.edges(),
                            final(self).progression@,
                            x,
                        ) && graph.edges()[x as int].contains(index)
                },
                Err(report) => {
                    &&& final(self).progression@[index as int] == Progression::Failed(report)
                    &&& forall|x: int|
                        0 <= x < old(self).progression@.len() && x != index
                            ==> #[trigger] final(self).progression@[x] == (if old(
                            self,
                        ).progression@[x] is Waiting && needs(graph.edges(), x, index as int) {
                            Progression::Skipped
                        } else {
                            old(self).progression@[x]
                        })
                    &&& final(self).done == old(self).done
                    &&& final(self).ready@ == old(self).ready@
                },
            },
    {
        let ghost edges = graph.edges();
        let ghost before = *self;
        let ghost all = self.progression@;
        proof {
            lemma_without(self.in_flight@, index);
            assert(startable(edges, all, index));
            lemma_tally_bounds(all);
            assert(self.progression.len() == edges.len());
        }
        let mut at: usize = 0;
        while self.in_flight[at] != index
            invariant
                self.in_flight@ == before.in_flight@,
                at < self.in_flight@.len(),
                self.in_flight@.contains(index),
                forall|j: int| 0 <= j < at ==> self.in_flight@[j] != index,
                *self == before,
            decreases self.in_flight@.len() - at,
        {
            proof {
                let j = choose|j: int|
                    0 <= j < self.in_flight@.len() && self.in_flight@[j] == index;
                assert(j > at);
                assert(self.in_flight.len() > at + 1);
            }
            at += 1;
        }
        assert(at == self.in_flight@.index_of(index));
        self.in_flight.remove(at);
        self.unsettled = self.unsettled - 1;
        match result {
            Ok(archive) => {
                let ghost ended = Progression::Built(archive);
                let ghost now = all.update(index as int, ended);
                self.progression[index] = Progression::Built(archive);
                proof {
                    lemma_tally_update(all, index as int, ended);
                    lemma_tally_bounds(now);
                }
                self.done = self.done + 1;
                let ghost list = self.dependents@[index as int]@;
                let ghost first = before.ready@.len() as int;
                let count: usize = self.dependents[index].len();
                let mut j: usize = 0;
                proof {
                    assert(self.ready@.skip(first) =~= Seq::<usize>::empty());
                    assert(list.take(0) =~= Seq::<usize>::empty());
                    assert(self.ready@.take(first) =~= before.ready@);
                    assert forall|x: int| 0 <= x < edges.len() implies unbuilt(
                        #[trigger] edges[x],
                        now,
                    ) + count_of(list, x as usize) == unbuilt(edges[x], all) by {
                        lemma_unbuilt_update(edges[x], all, index, ended);
                        assert(count_of(before.dependents@[index as int]@, x as usize) == count_of(
                            edges[x],
                            index,
                        ));
                    }
                }
                while j < count
                    invariant
                        j <= count,
                        count == list.len(),
                        index < edges.len() <= usize::MAX,
                        reversed(edges, self.dependents@),
                        list == self.dependents@[index as int]@,
                        self.dependents == before.dependents,
                        self.progression@ == now,
                        self.in_flight@ == without(before.in_flight@, index),
                        self.unsettled == before.unsettled - 1,
                        self.done == before.done + 1,
                        self.cancelled == before.cancelled,
                        self.blocked_by@.len() == edges.len(),
                        forall|x: int|
                            0 <= x < edges.len() ==> unbuilt(#[trigger] edges[x], now) + count_of(
                                list,
                                x as usize,
                            ) == unbuilt(edges[x], all),
                        forall|x: int|
                            0 <= x < edges.len() ==> #[trigger] self.blocked_by@[x] + count_of(
                                list.take(j as int),
                                x as usize,
                            ) == unbuilt(edges[x], all),
                        first == before.ready@.len() <= self.ready@.len(),
                        self.ready@.take(first) == before.ready@,
                        increasing(self.ready@.skip(first)),
                        forall|x: usize| #[trigger]
                            self.ready@.skip(first).contains(x) <==> x < edges.len() && count_of(
                                list.take(j as int),
                                x,
                            ) > 0 && self.blocked_by@[x as int] == 0,
                    decreases count - j,
                {
                    let dependent: usize = self.dependents[index][j];
                    let ghost blocked_before = self.blocked_by@;
                    let ghost ready_before = self.ready@;
                    let ghost tail_before = self.ready@.skip(first);
                    proof {
                        assert(self.dependents@[index as int]@[j as int] < edges.len());
                        lemma_count_take(list, j as int, dependent);
                        assert(blocked_before[dependent as int] > 0);
                    }
                    self.blocked_by[dependent] = self.blocked_by[dependent] - 1;
                    if self.blocked_by[dependent] == 0 {
                        self.ready.push(dependent);
                    }
                    proof {
                        let tail = self.ready@.skip(first);
                        assert forall|x: int| 0 <= x < edges.len() implies
                            #[trigger] self.blocked_by@[x] + count_of(
                            list.take(j + 1),
                            x as usize,
                        ) == unbuilt(edges[x], all) by {
                            lemma_count_take(list, j as int, x as usize);
                            assert(blocked_before[x] + count_of(list.take(j as int), x as usize)
                                == unbuilt(edges[x], all));
                        }
                        assert(self.ready@.take(first) =~= before.ready@);
                        assert(!tail_before.contains(dependent));
                        assert forall|l: int| 0 <= l < tail_before.len() implies (
                        #[trigger] tail_before[l]) < dependent by {
                            let y = tail_before[l];
                            assert(tail_before.contains(y));
                            lemma_count_contains(list.take(j as int), y);
                            let m = choose|m: int|
                                0 <= m < list.take(j as int).len() && list.take(j as int)[m] == y;
                            assert(list[m] == y);
                            assert(rising(self.dependents@[index as int]@));
                            assert(list[m] <= list[j as int]);
                        }
                        if self.blocked_by@[dependent as int] == 0 {
                            assert(tail =~= tail_before.push(dependent));
                        } else {
                            assert(tail =~= tail_before);
                        }
                        assert forall|x: usize| #[trigger] tail.contains(x) <==> x < edges.len()
                            && count_of(list.take(j + 1), x) > 0 && self.blocked_by@[x as int]
                            == 0 by {
                            lemma_count_take(list, j as int, x);
                            if x == dependent {
                                if self.blocked_by@[x as int] == 0 {
                                    assert(tail[tail.len() - 1] == x);
                                }
                            } else {
                                if tail.contains(x) {
                                    let m = choose|m: int| 0 <= m < tail.len() && tail[m] == x;
                                    assert(tail_before[m] == x);
                                    assert(tail_before.contains(x));
                                }
                                if tail_before.contains(x) {
                                    let m = choose|m: int|
                                        0 <= m < tail_before.len() && tail_before[m] == x;
                                    assert(tail[m] == x);
                                }
                            }
                        }
                    }
                    j += 1;
                }
                proof {
                    assert(list.take(count as int) =~= list);
                    self.lemma_released(before, edges, index, archive);
                }
                0
            },
            Err(report) => {
                let ghost ended = Progression::Failed(report);
                let ghost failed = all.update(index as int, ended);
                self.progression[index] = Progression::Failed(report);
                proof {
                    lemma_tally_update(all, index as int, ended);
                    assert forall|x: int| 0 <= x < edges.len() implies unbuilt(
                        #[trigger] edges[x],
                        failed,
                    ) == unbuilt(edges[x], all) by {
                        lemma_unbuilt_update(edges[x], all, index, ended);
                    }
                    lemma_nothing_lost(edges, all, index as int);
                    assert forall|x: int|
                        0 <= x < edges.len() && failed[x] is Skipped implies
                        #[trigger] has_lost_dependency(edges, failed, x) by {
                        assert(has_lost_dependency(edges, all, x));
                        let k = choose|k: int|
                            0 <= k < edges[x].len() && lost(all[(#[trigger] edges[x][k]) as int]);
                        assert(lost(failed[edges[x][k] as int]));
                    }
                    assert forall|x: int|
                        0 <= x < edges.len() && #[trigger] has_lost_dependency(edges, failed, x)
                            && !(failed[x] is Skipped) implies edges[x].contains(index) by {
                        let k = choose|k: int|
                            0 <= k < edges[x].len() && lost(
                                failed[(#[trigger] edges[x][k]) as int],
                            );
                        if edges[x][k] != index {
                            assert(lost(all[edges[x][k] as int]));
                            assert(has_lost_dependency(edges, all, x));
                        }
                    }
                    assert(consistent_but_for(edges, failed, index));
                }
                let skipped: usize = self.skip_dependents_of(Ghost(edges), index);
                proof {
                    self.lemma_skipped(before, edges, index, report);
                }
                skipped
            },
        }
    }

    proof fn lemma_released(self, before: Schedule, edges: Edges, index: usize, archive: FilePath)
        requires
            before.wf(edges),
            before.in_flight@.contains(index),
            edges.len() <= usize::MAX,
            self.dependents == before.dependents,
            self.progression@ == before.progression@.update(
                index as int,
                Progression::Built(archive),
            ),
            self.in_flight@ == without(before.in_flight@, index),
            self.unsettled == waiting_count(self.progression@),
            self.done == built_count(self.progression@),
            self.blocked_by@.len() == edges.len(),
            forall|x: int|
                0 <= x < edges.len() ==> unbuilt(#[trigger] edges[x], self.progression@) + count_of(
                    self.dependents@[index as int]@,
                    x as usize,
                ) == unbuilt(edges[x], before.progression@),
            forall|x: int|
                0 <= x < edges.len() ==> #[trigger] self.blocked_by@[x] + count_of(
                    self.dependents@[index as int]@,
                    x as usize,
                ) == unbuilt(edges[x], before.progression@),
            before.ready@.len() <= self.ready@.len(),
            self.ready@.take(before.ready@.len() as int) == before.ready@,
            increasing(self.ready@.skip(before.ready@.len() as int)),
            forall|x: usize| #[trigger]
                self.ready@.skip(before.ready@.len() as int).contains(x) <==> x < edges.len()
                    && count_of(self.dependents@[index as int]@, x) > 0
                    && self.blocked_by@[x as int] == 0,
        ensures
            self.wf(edges),
            forall|x: usize| #[trigger]
                self.ready@.skip(before.ready@.len() as int).contains(x) <==> startable(
                    edges,
                    self.progression@,
                    x,
                ) && edges[x as int].contains(index),
            before.ready@.is_prefix_of(self.ready@),
    {
        let all = before.progression@;
        let now = self.progression@;
        let first = before.ready@.len() as int;
        let tail = self.ready@.skip(first);
        lemma_without(before.in_flight@, index);
        assert(startable(edges, all, index));
        assert forall|x: int| 0 <= x < edges.len() implies (#[trigger] has_lost_dependency(
            edges,
            now,
            x,
        ) <==> has_lost_dependency(edges, all, x)) by {
            if has_lost_dependency(edges, now, x) {
                let k = choose|k: int|
                    0 <= k < edges[x].len() && lost(now[(#[trigger] edges[x][k]) as int]);
                assert(lost(all[edges[x][k] as int]));
            }
            if has_lost_dependency(edges, all, x) {
                let k = choose|k: int|
                    0 <= k < edges[x].len() && lost(all[(#[trigger] edges[x][k]) as int]);
                assert(lost(now[edges[x][k] as int]));
            }
        }
        assert forall|x: int| 0 <= x < edges.len() implies self.blocked_by@[x] == unbuilt(
            #[trigger] edges[x],
            now,
        ) by {
            assert(self.blocked_by@[x] + count_of(self.dependents@[index as int]@, x as usize)
                == unbuilt(edges[x], all));
        }
        assert forall|x: int|
            0 <= x < now.len() && (#[trigger] now[x] is Built || now[x] is Failed) implies unbuilt(
            edges[x],
            now,
        ) == 0 by {
            assert(unbuilt(edges[x], now) <= unbuilt(edges[x], all));
            if x != index {
                assert(now[x] == all[x]);
            }
        }
        assert(consistent(edges, now));
        assert forall|x: usize| x < edges.len() implies (count_of(
            self.dependents@[index as int]@,
            x,
        ) > 0 <==> #[trigger] edges[x as int].contains(index)) by {
            lemma_count_contains(edges[x as int], index);
            assert(count_of(before.dependents@[index as int]@, x) == count_of(
                edges[x as int],
                index,
            ));
        }
        assert forall|x: usize| #[trigger] tail.contains(x) <==> startable(edges, now, x)
            && edges[x as int].contains(index) by {
            if tail.contains(x) {
                assert(edges[x as int].contains(index));
                assert(unbuilt(edges[x as int], now) == 0);
                lemma_nothing_lost(edges, now, x as int);
                assert(x != index) by {
                    let k = choose|k: int|
                        0 <= k < edges[x as int].len() && edges[x as int][k] == index;
                    assert(edges[x as int][k] < x);
                }
                assert(now[x as int] == all[x as int]);
                assert(unbuilt(edges[x as int], all) > 0);
                assert(!(all[x as int] is Built) && !(all[x as int] is Failed));
                assert(!has_lost_dependency(edges, now, x as int));
            }
        }
        assert(before.ready@ =~= self.ready@.subrange(0, first));
        assert forall|x: usize| #[trigger] self.ready@.contains(x) <==> before.ready@.contains(x)
            || tail.contains(x) by {
            if self.ready@.contains(x) {
                let j = choose|j: int| 0 <= j < self.ready@.len() && self.ready@[j] == x;
                if j < first {
                    assert(self.ready@.take(first)[j] == x);
                    assert(before.ready@[j] == x);
                } else {
                    assert(tail[j - first] == x);
                }
            }
            if before.ready@.contains(x) {
                let j = choose|j: int| 0 <= j < first && before.ready@[j] == x;
                assert(self.ready@.take(first)[j] == x);
                assert(self.ready@[j] == x);
            }
            if tail.contains(x) {
                let j = choose|j: int| 0 <= j < tail.len() && tail[j] == x;
                assert(self.ready@[j + first] == x);
            }
        }
        assert forall|x: usize| x < edges.len() && !(#[trigger] edges[x as int].contains(index))
            implies unbuilt(edges[x as int], now) == unbuilt(edges[x as int], all) by {}
        assert forall|x: usize| x < edges.len() && #[trigger] edges[x as int].contains(index)
            implies !startable(edges, all, x) by {}
        assert forall|x: usize| #[trigger] startable(edges, now, x) implies self.ready@.contains(x)
            || self.in_flight@.contains(x) by {
            if edges[x as int].contains(index) {
                assert(tail.contains(x));
            } else {
                assert(x != index);
                assert(startable(edges, all, x));
            }
        }
        assert forall|x: usize| self.in_flight@.contains(x) implies #[trigger] startable(
            edges,
            now,
            x,
        ) by {
            assert(startable(edges, all, x));
            assert(x != index);
            assert(!edges[x as int].contains(index));
        }
        assert forall|x: usize| self.ready@.contains(x) implies startable(edges, now, x)
            && !self.in_flight@.contains(x) by {
            if before.ready@.contains(x) {
                assert(startable(edges, all, x));
                assert(x != index);
                assert(!edges[x as int].contains(index));
            } else {
                assert(tail.contains(x));
                assert(!startable(edges, all, x));
                assert(!before.in_flight@.contains(x));
            }
        }
        assert(self.ready@.no_duplicates()) by {
            assert forall|i: int, j: int|
                0 <= i < j < self.ready@.len() implies self.ready@[i] != self.ready@[j] by {
                if i >= first {
                    assert(tail[i - first] < tail[j - first]);
                } else if j < first {
                    assert(self.ready@.take(first)[i] == before.ready@[i]);
                    assert(self.ready@.take(first)[j] == before.ready@[j]);
                } else {
                    assert(self.ready@.take(first)[i] == before.ready@[i]);
                    assert(before.ready@.contains(self.ready@[i]));
                    assert(startable(edges, all, self.ready@[i]));
                    assert(tail[j - first] == self.ready@[j]);
                    assert(tail.contains(self.ready@[j]));
                    assert(!startable(edges, all, self.ready@[j]));
                }
            }
        }
    }

    proof fn lemma_skipped(self, before: Schedule, edges: Edges, index: usize, report: Report)
        requires
            before.wf(edges),
            before.in_flight@.contains(index),
            edges.len() <= usize::MAX,
            consistent(edges, self.progression@),
            forall|x: int|
                0 <= x < edges.len() ==> #[trigger] self.progression@[x] == (
                if before.progression@.update(index as int, Progression::Failed(report))[x]
                    is Waiting && needs(edges, x, index as int) {
                    Progression::Skipped
                } else {
                    before.progression@.update(index as int, Progression::Failed(report))[x]
                }),
            self.unsettled == waiting_count(self.progression@),
            self.done == before.done,
            built_count(self.progression@) == before.done,
            self.blocked_by@ == before.blocked_by@,
            self.ready@ == before.ready@,
            self.in_flight@ == without(before.in_flight@, index),
            self.dependents@ == before.dependents@,
        ensures
            self.wf(edges),
    {
        let all = before.progression@;
        let now = self.progression@;
        lemma_without(before.in_flight@, index);
        assert(startable(edges, all, index));
        assert forall|x: int| 0 <= x < edges.len() implies unbuilt(#[trigger] edges[x], now)
            == unbuilt(edges[x], all) by {
            lemma_unbuilt_same(edges[x], now, all);
        }
        assert forall|x: usize| #[trigger] startable(edges, now, x) <==> startable(edges, all, x)
            && x != index by {
            if startable(edges, all, x) && x != index {
                lemma_nothing_lost(edges, now, x as int);
                assert(now[x as int] is Waiting);
            }
        }
        assert forall|x: usize| self.ready@.contains(x) implies startable(edges, now, x)
            && !self.in_flight@.contains(x) by {
            assert(before.ready@.contains(x));
            assert(startable(edges, all, x));
        }
        assert forall|x: usize| self.in_flight@.contains(x) implies #[trigger] startable(
            edges,
            now,
            x,
        ) by {
            assert(startable(edges, all, x));
        }
    }
}

/// A report and its causes, one below the other.
pub open spec fn rendered(report: ReportView) -> Seq<char> {
    report.message + rendered_causes(report.causes)
}

/// Each cause on an indented line of its own.
pub open spec fn rendered_causes(causes: Seq<Seq<char>>) -> Seq<char>
    decreases causes.len(),
{
    if causes.len() == 0 {
        Seq::empty()
    } else {
        rendered_causes(causes.drop_last()) + "\n      "@ + causes.last()
    }
}

/// Flatten a report and its causes into one indented block.
pub fn render(report: &Report) -> (text: String)
    ensures
        text@ == rendered(report@),
{
    let mut text = report.message.clone();
    let mut i: usize = 0;
    assert(text@ =~= report.message@ + rendered_causes(texts(report.causes@.take(0))));
    while i < report.causes.len()
        invariant
            i <= report.causes@.len(),
            text@ == report.message@ + rendered_causes(texts(report.causes@.take(i as int))),
        decreases report.causes@.len() - i,
    {
        text.push_str("\n      ");
        text.push_str(report.causes[i].as_str());
        proof {
            let shown = texts(report.causes@.take(i + 1));
            assert(shown.drop_last() =~= texts(report.causes@.take(i as int)));
            assert(shown.last() == report.causes@[i as int]@);
            assert(text@ =~= report.message@ + rendered_causes(shown));
        }
        i += 1;
    }
    assert(report.causes@.take(report.causes@.len() as int) =~= report.causes@);
    text
}

/// The names of the packages of a graph.
pub open spec fn package_names(graph: Graph) -> Seq<Seq<char>> {
    graph.nodes@.map_values(|n: crate::graph::Node| n.build@.name)
}

/// How many packages failed.
pub open spec fn failed_count(all: Seq<Progression>) -> nat
    decreases all.len(),
{
    if all.len() == 0 {
        0
    } else {
        failed_count(all.drop_last()) + if all.last() is Failed {
            1nat
        } else {
            0nat
        }
    }
}

/// A paragraph for each package that failed: its name, and what went wrong.
pub open spec fn failed_text(names: Seq<Seq<char>>, all: Seq<Progression>) -> Seq<char>
    decreases all.len(),
{
    if all.len() == 0 {
        Seq::empty()
    } else {
        let rest = failed_text(names, all.drop_last());
        match all.last() {
            Progression::Failed(report) => rest + "\n  "@ + names[all.len() - 1] + "\n    "@
                + rendered(report@) + "\n"@,
            _ => rest,
        }
    }
}

/// The names of the packages that were never attempted.
pub open spec fn left_out(names: Seq<Seq<char>>, all: Seq<Progression>) -> Seq<Seq<char>>
    decreases all.len(),
{
    if all.len() == 0 {
        Seq::empty()
    } else {
        let rest = left_out(names, all.drop_last());
        if all.last() is Skipped || all.last() is Waiting {
            rest.push(names[all.len() - 1])
        } else {
            rest
        }
    }
}

/// What a build that ran into failures reports.
pub open spec fn failure_summary(names: Seq<Seq<char>>, all: Seq<Progression>) -> Seq<char> {
    let skipped = left_out(names, all);
    let head = decimal(failed_count(all)) + " of "@ + decimal(all.len()) + " packages failed\n"@
        + failed_text(names, all);
    if skipped.len() == 0 {
        head
    } else {
        head + "\n"@ + decimal(skipped.len()) + " skipped because a dependency failed: "@ + joined(
            skipped,
            ", "@,
        ) + "\n"@
    }
}

/// What a build that lost its result reports.
pub open spec fn missing_archive(name: Seq<char>) -> Seq<char> {
    "the build finished without producing an archive for "@ + name
}

/// The line that says how the run as a whole is going.
pub open spec fn progress_line(running: nat, done: nat, total: nat) -> Seq<char> {
    decimal(running) + " building, "@ + decimal(done) + " of "@ + decimal(total) + " done"@
}

proof fn lemma_left_out_len(names: Seq<Seq<char>>, all: Seq<Progression>)
    ensures
        left_out(names, all).len() + failed_count(all) <= all.len(),
    decreases all.len(),
{
    if all.len() > 0 {
        lemma_left_out_len(names, all.drop_last());
    }
}

/// The build is a success: nothing failed, and `root` is built.
pub open spec fn succeeds(all: Seq<Progression>, root: usize) -> bool {
    failed_count(all) == 0 && all[root as int] is Built
}

impl Schedule {
    /// The line that says how the run as a whole is going.
    pub fn describe(&self, total: usize) -> (line: String)
        ensures
            line@ == progress_line(self.in_flight@.len(), self.done as nat, total as nat),
    {
        let mut line = String::new();
        push_decimal(&mut line, self.running() as u64);
        line.push_str(" building, ");
        push_decimal(&mut line, self.done as u64);
        line.push_str(" of ");
        push_decimal(&mut line, total as u64);
        line.push_str(" done");
        assert(line@ =~= progress_line(self.in_flight@.len(), self.done as nat, total as nat));
        line
    }

    /// The build's result: the root's archive, or every failure it ran into.
    pub fn outcome(&self, graph: &Graph) -> (r: Result<FilePath, Report>)
        requires
            self.progression@.len() == graph.nodes@.len(),
            graph.root < graph.nodes@.len(),
        ensures
            r is Ok <==> succeeds(self.progression@, graph.root),
            match r {
                Ok(archive) => built_as(self.progression@[graph.root as int], archive@),
                Err(report) => report@ == said(
                    if failed_count(self.progression@) == 0 {
                        missing_archive(package_names(*graph)[graph.root as int])
                    } else {
                        failure_summary(package_names(*graph), self.progression@)
                    },
                ),
            },
    {
        let ghost names = package_names(*graph);
        let ghost all = self.progression@;
        let mut failures: usize = 0;
        let mut paragraphs = String::new();
        let mut skipped: Vec<String> = Vec::new();
        let mut i: usize = 0;
        assert(texts(skipped@) =~= left_out(names, all.take(0)));
        while i < self.progression.len()
            invariant
                i <= all.len(),
                all == self.progression@,
                all.len() == graph.nodes@.len(),
                names == package_names(*graph),
                failures == failed_count(all.take(i as int)),
                failures <= i,
                paragraphs@ == failed_text(names, all.take(i as int)),
                texts(skipped@) == left_out(names, all.take(i as int)),
            decreases all.len() - i,
        {
            let ghost shown = all.take(i + 1);
            let ghost skipped_before = skipped@;
            let ghost text_before = paragraphs@;
            assert(shown.drop_last() =~= all.take(i as int));
            assert(names[i as int] == graph.nodes@[i as int].build@.name);
            match &self.progression[i] {
                Progression::Failed(report) => {
                    failures += 1;
                    paragraphs.push_str("\n  ");
                    paragraphs.push_str(graph.nodes[i].build.name());
                    paragraphs.push_str("\n    ");
                    paragraphs.push_str(render(report).as_str());
                    paragraphs.push_str("\n");
                },
                Progression::Skipped | Progression::Waiting => {
                    skipped.push(graph.nodes[i].build.name().to_owned());
                    assert(texts(skipped@) =~= texts(skipped_before).push(names[i as int]));
                },
                Progression::Built(_) => {},
            }
            i += 1;
        }
        assert(all.take(all.len() as int) =~= all);
        if failures == 0 {
            return match &self.progression[graph.root] {
                Progression::Built(archive) => Ok(archive.clone()),
                _ => {
                    let mut message = "the build finished without producing an archive for ".to_owned();
                    message.push_str(graph.nodes[graph.root].build.name());
                    Err(Report::new(message))
                },
            };
        }
        proof {
            lemma_left_out_len(names, all);
            assert(texts(skipped@).len() == skipped@.len());
        }
        let mut text = String::new();
        push_decimal(&mut text, failures as u64);
        text.push_str(" of ");
        push_decimal(&mut text, graph.nodes.len() as u64);
        text.push_str(" packages failed\n");
        text.push_str(paragraphs.as_str());
        if skipped.len() > 0 {
            text.push_str("\n");
            push_decimal(&mut text, skipped.len() as u64);
            text.push_str(" skipped because a dependency failed: ");
            text.push_str(join(&skipped, ", ").as_str());
            text.push_str("\n");
        }
        assert(text@ =~= failure_summary(names, all));
        Err(Report::new(text))
    }
}

/// How many packages build at once: as many as were asked for, or as many as the
/// machine suggests, but never more than there are packages.
pub open spec fn worker_count(jobs: Option<usize>, suggested: usize, packages: nat) -> nat {
    let wanted = match jobs {
        Some(count) => if count == 0 {
            suggested as nat
        } else {
            count as nat
        },
        None => suggested as nat,
    };
    let useful = if packages == 0 {
        1
    } else {
        packages
    };
    if wanted < useful {
        wanted
    } else {
        useful
    }
}

/// How many packages build at once. Asking for none leaves it to the machine,
/// which is `suggested`.
pub fn workers(jobs: Option<usize>, suggested: usize, packages: usize) -> (r: usize)
    ensures
        r == worker_count(jobs, suggested, packages as nat),
{
    let wanted: usize = match jobs {
        Some(count) => if count == 0 {
            suggested
        } else {
            count
        },
        None => suggested,
    };
    let useful: usize = if packages == 0 {
        1
    } else {
        packages
    };
    if wanted < useful {
        wanted
    } else {
        useful
    }
}

/// Why the attempt to build `name` failed, seen from the build as a whole.
pub fn attempt_failed(name: &str, report: Report) -> (r: Report)
    ensures
        r@ == wrapped("package "@ + name@ + " failed"@, report@),
{
    let mut message = "package ".to_owned();
    message.push_str(name);
    message.push_str(" failed");
    report.wrap(message)
}

/// What is reported of an attempt to build `name` that panicked.
pub fn attempt_panicked(name: &str, what: Option<&str>) -> (r: Report)
    ensures
        r@ == said(
            "the build of "@ + name@ + " panicked: "@ + match what {
                Some(text) => text@,
                None => "a panic carrying no message"@,
            },
        ),
{
    let mut message = "the build of ".to_owned();
    message.push_str(name);
    message.push_str(" panicked: ");
    match what {
        Some(text) => message.push_str(text),
        None => message.push_str("a panic carrying no message"),
    }
    Report::new(message)
}

/// What is built was built on things that are built: everything a package needs
/// is built before the package starts.
pub proof fn lemma_needs_are_built(schedule: Schedule, edges: Edges, x: usize, t: int)
    requires
        schedule.wf(edges),
        startable(edges, schedule.progression@, x) || x < edges.len() && (
        schedule.progression@[x as int] is Built || schedule.progression@[x as int] is Failed),
        needs(edges, x as int, t),
    ensures
        schedule.progression@[t] is Built,
    decreases x,
{
    let all = schedule.progression@;
    let k = choose|k: int|
        0 <= k < edges[x as int].len() && #[trigger] edges[x as int][k] < x && (
        edges[x as int][k] == t || needs(edges, edges[x as int][k] as int, t));
    lemma_unbuilt_zero(edges[x as int], all);
    let d = edges[x as int][k];
    assert(all[d as int] is Built);
    if d != t {
        lemma_needs_are_built(schedule, edges, d, t);
    }
}

/// A package that needs a failed one is skipped, and nothing else is: it is never
/// handed out, and it never ends in another way.
pub proof fn lemma_skipped_iff_needs_a_failure(schedule: Schedule, edges: Edges, x: usize)
    requires
        schedule.wf(edges),
        x < edges.len(),
    ensures
        schedule.progression@[x as int] is Skipped <==> exists|f: usize|
            f < edges.len() && schedule.progression@[f as int] is Failed && #[trigger] needs(
                edges,
                x as int,
                f as int,
            ),
        schedule.progression@[x as int] is Skipped ==> !schedule.ready@.contains(x)
            && !schedule.in_flight@.contains(x),
    decreases x,
{
    let all = schedule.progression@;
    if all[x as int] is Skipped {
        assert(has_lost_dependency(edges, all, x as int));
        let k = choose|k: int|
            0 <= k < edges[x as int].len() && lost(all[(#[trigger] edges[x as int][k]) as int]);
        let d = edges[x as int][k];
        assert(d < x);
        if all[d as int] is Failed {
            assert(needs(edges, x as int, d as int));
        } else {
            lemma_skipped_iff_needs_a_failure(schedule, edges, d);
            let f = choose|f: usize|
                f < edges.len() && all[f as int] is Failed && #[trigger] needs(
                    edges,
                    d as int,
                    f as int,
                );
            assert(needs(edges, x as int, f as int));
        }
        assert(!startable(edges, all, x));
    }
    if exists|f: usize|
        f < edges.len() && all[f as int] is Failed && #[trigger] needs(edges, x as int, f as int) {
        let f = choose|f: usize|
            f < edges.len() && all[f as int] is Failed && #[trigger] needs(
                edges,
                x as int,
                f as int,
            );
        let k = choose|k: int|
            0 <= k < edges[x as int].len() && #[trigger] edges[x as int][k] < x && (
            edges[x as int][k] == f || needs(edges, edges[x as int][k] as int, f as int));
        let d = edges[x as int][k];
        if d != f {
            lemma_skipped_iff_needs_a_failure(schedule, edges, d);
        }
        assert(lost(all[edges[x as int][k] as int]));
        assert(has_lost_dependency(edges, all, x as int));
    }
}

/// Everything that does not depend on a failure keeps building: once no package is
/// left, each one that needs no failed package has been attempted.
pub proof fn lemma_independent_packages_are_attempted(schedule: Schedule, edges: Edges, x: usize)
    requires
        schedule.wf(edges),
        schedule.unsettled == 0,
        x < edges.len(),
        forall|f: usize|
            f < edges.len() && schedule.progression@[f as int] is Failed ==> !(#[trigger] needs(
                edges,
                x as int,
                f as int,
            )),
    ensures
        schedule.progression@[x as int] is Built || schedule.progression@[x as int] is Failed,
{
    lemma_skipped_iff_needs_a_failure(schedule, edges, x);
    lemma_tally_bounds(schedule.progression@);
}

proof fn lemma_failed_count(all: Seq<Progression>)
    ensures
        failed_count(all) == 0 <==> forall|i: int|
            0 <= i < all.len() ==> !(#[trigger] all[i] is Failed),
    decreases all.len(),
{
    if all.len() > 0 {
        let rest = all.drop_last();
        lemma_failed_count(rest);
        if failed_count(all) == 0 {
            assert forall|i: int| 0 <= i < all.len() implies !(#[trigger] all[i] is Failed) by {
                if i < all.len() - 1 {
                    assert(rest[i] == all[i]);
                }
            }
        }
        if forall|i: int| 0 <= i < all.len() ==> !(#[trigger] all[i] is Failed) {
            assert forall|i: int| 0 <= i < rest.len() implies !(#[trigger] rest[i] is Failed) by {
                assert(rest[i] == all[i]);
            }
            assert(!(all[all.len() - 1] is Failed));
        }
    }
}

/// A build that ran to its end without a failure built every package, so its
/// result is the root's archive.
pub proof fn lemma_no_failure_builds_everything(schedule: Schedule, edges: Edges, x: usize)
    requires
        schedule.wf(edges),
        schedule.unsettled == 0,
        failed_count(schedule.progression@) == 0,
        x < edges.len(),
    ensures
        schedule.progression@[x as int] is Built,
{
    lemma_failed_count(schedule.progression@);
    lemma_independent_packages_are_attempted(schedule, edges, x);
}

/// A build that is cancelled while nothing runs is over: nothing is left that could
/// settle, so that it stands as it does for good, and without its root it is no success.
pub proof fn lemma_cancelled_build_is_over(schedule: Schedule, edges: Edges, root: usize)
    requires
        schedule.wf(edges),
        schedule.cancelled,
        schedule.in_flight@.len() == 0,
        root < edges.len(),
        schedule.progression@[root as int] is Waiting,
    ensures
        forall|x: usize| !(#[trigger] schedule.in_flight@.contains(x)),
        !succeeds(schedule.progression@, root),
{
}

/// A package is built at most once: what has been built, failed or been skipped is
/// neither ready nor being built, and stays that way.
pub proof fn lemma_finished_is_never_handed_out(schedule: Schedule, edges: Edges, x: usize)
    requires
        schedule.wf(edges),
        x < edges.len(),
        !(schedule.progression@[x as int] is Waiting),
    ensures
        !schedule.ready@.contains(x),
        !schedule.in_flight@.contains(x),
{
    assert(!startable(edges, schedule.progression@, x));
}

/// The tallies are of what they are named for: the packages not finished, the built
/// ones, the failed ones, and those of a list that are not built.
pub proof fn lemma_tallies(all: Seq<Progression>, list: Seq<usize>)
    ensures
        waiting_count(all) == all.filter(|p: Progression| p is Waiting).len(),
        built_count(all) == all.filter(|p: Progression| p is Built).len(),
        failed_count(all) == all.filter(|p: Progression| p is Failed).len(),
        unbuilt(list, all) == list.filter(|x: usize| !(all[x as int] is Built)).len(),
    decreases all.len() + list.len(),
{
    reveal(Seq::filter);
    if all.len() > 0 {
        lemma_tallies(all.drop_last(), Seq::empty());
    }
    if list.len() > 0 {
        lemma_tallies(all, list.drop_last());
    }
}

/// A package can be started when it is waiting and everything it depends on is built,
/// and not otherwise.
pub proof fn lemma_startable_when_dependencies_are_built(
    edges: Edges,
    all: Seq<Progression>,
    x: usize,
)
    ensures
        startable(edges, all, x) <==> x < all.len() && all[x as int] is Waiting && forall|k: int|
            0 <= k < edges[x as int].len() ==> all[(#[trigger] edges[x as int][k]) as int]
                is Built,
{
    lemma_unbuilt_zero(edges[x as int], all);
}

/// Package `a` names package `b` as a dependency.
pub open spec fn is_link(edges: Edges, a: int, b: int) -> bool {
    0 <= a < edges.len() && exists|k: int| 0 <= k < edges[a].len() && #[trigger] edges[a][k] == b
}

/// Each package of a chain names the next one as a dependency.
pub open spec fn is_chain(edges: Edges, c: Seq<int>) -> bool {
    c.len() >= 2 && forall|m: int, n: int|
        0 <= m && n == m + 1 && n < c.len() ==> is_link(edges, #[trigger] c[m], #[trigger] c[n])
}

/// What a package needs is at the end of a chain of dependencies that starts at the
/// package. `c` is such a chain.
pub proof fn lemma_needs_is_a_chain(edges: Edges, i: int, t: int) -> (c: Seq<int>)
    requires
        needs(edges, i, t),
    ensures
        is_chain(edges, c),
        c[0] == i,
        c.last() == t,
    decreases i,
{
    let k = choose|k: int|
        0 <= i < edges.len() && 0 <= k < edges[i].len() && #[trigger] edges[i][k] < i && (
        edges[i][k] == t || needs(edges, edges[i][k] as int, t));
    let d = edges[i][k] as int;
    assert(is_link(edges, i, d));
    if d == t {
        seq![i, t]
    } else {
        let rest = lemma_needs_is_a_chain(edges, d, t);
        let c = seq![i] + rest;
        assert(is_chain(edges, c)) by {
            assert forall|m: int, n: int| 0 <= m && n == m + 1 && n < c.len() implies is_link(
                edges,
                #[trigger] c[m],
                #[trigger] c[n],
            ) by {
                assert(c[n] == rest[n - 1]);
                if m > 0 {
                    assert(c[m] == rest[m - 1]);
                }
            }
        }
        c
    }
}

/// A package needs whatever is at the end of a chain of dependencies that starts at it.
pub proof fn lemma_chains_are_needed(edges: Edges, c: Seq<int>)
    requires
        ordered(edges),
        is_chain(edges, c),
    ensures
        needs(edges, c[0], c.last()),
    decreases c.len(),
{
    let i = c[0];
    assert(is_link(edges, c[0], c[1]));
    let k = choose|k: int| 0 <= k < edges[i].len() && #[trigger] edges[i][k] == c[1];
    assert(edges[i][k] < i);
    if c.len() > 2 {
        let rest = c.skip(1);
        assert(is_chain(edges, rest)) by {
            assert forall|m: int, n: int| 0 <= m && n == m + 1 && n < rest.len() implies is_link(
                edges,
                #[trigger] rest[m],
                #[trigger] rest[n],
            ) by {
                assert(rest[n] == c[n + 1]);
                assert(rest[m] == c[m + 1]);
            }
        }
        lemma_chains_are_needed(edges, rest);
        assert(rest[0] == c[1] && rest.last() == c.last());
        assert(needs(edges, edges[i][k] as int, c.last()));
    } else {
        assert(edges[i][k] == c.last());
    }
}

/// A package that is no longer built leaves the others in their order.
pub proof fn lemma_without_keeps_the_rest(list: Seq<usize>, i: int)
    requires
        list.no_duplicates(),
        0 <= i < list.len(),
    ensures
        without(list, list[i]) == list.take(i) + list.skip(i + 1),
{
    let x = list[i];
    assert(list.contains(x));
    assert(list.index_of(x) == i);
    assert(without(list, x) =~= list.take(i) + list.skip(i + 1));
}

/// A build succeeds when no package failed and the root is built, and not otherwise.
pub proof fn lemma_success(all: Seq<Progression>, root: usize)
    requires
        root < all.len(),
    ensures
        succeeds(all, root) <==> all[root as int] is Built && forall|x: int|
            0 <= x < all.len() ==> !(#[trigger] all[x] is Failed),
{
    lemma_no_failure(all);
}

proof fn lemma_no_failure(all: Seq<Progression>)
    ensures
        failed_count(all) == 0 <==> forall|x: int|
            0 <= x < all.len() ==> !(#[trigger] all[x] is Failed),
    decreases all.len(),
{
    if all.len() > 0 {
        let rest = all.drop_last();
        lemma_no_failure(rest);
        assert(all[all.len() - 1] == all.last());
        if failed_count(rest) == 0 && !(all.last() is Failed) {
            assert forall|x: int| 0 <= x < all.len() implies !(#[trigger] all[x] is Failed) by {
                if x < rest.len() {
                    assert(rest[x] == all[x]);
                }
            }
        } else if failed_count(rest) > 0 {
            let x = choose|x: int| 0 <= x < rest.len() && #[trigger] rest[x] is Failed;
            assert(all[x] is Failed);
        }
    }
}

/// Every failure is told of, once, in the order of the packages: a blank line, the
/// package's name, and what went wrong further in. `p` says which packages those are.
pub proof fn lemma_every_failure_is_told(names: Seq<Seq<char>>, all: Seq<Progression>) -> (p: Seq<
    int,
>)
    ensures
        p.len() == failed_count(all),
        failed_text(names, all) == joined(
            Seq::new(
                p.len(),
                |a: int|
                    "\n  "@ + names[p[a]] + "\n    "@ + rendered(all[p[a]]->Failed_0@) + "\n"@,
            ),
            Seq::empty(),
        ),
        forall|a: int| 0 <= a < p.len() ==> 0 <= #[trigger] p[a] < all.len() && all[p[a]] is Failed,
        forall|a: int, b: int| 0 <= a < b < p.len() ==> #[trigger] p[a] < #[trigger] p[b],
        forall|i: int| 0 <= i < all.len() && #[trigger] all[i] is Failed ==> p.contains(i),
    decreases all.len(),
{
    let told = |list: Seq<Progression>, p: Seq<int>|
        Seq::new(
            p.len(),
            |a: int| "\n  "@ + names[p[a]] + "\n    "@ + rendered(list[p[a]]->Failed_0@) + "\n"@,
        );
    if all.len() == 0 {
        let p = Seq::<int>::empty();
        assert(told(all, p) =~= Seq::<Seq<char>>::empty());
        p
    } else {
        let rest = all.drop_last();
        let q = lemma_every_failure_is_told(names, rest);
        let n = all.len() - 1;
        assert(all[n] == all.last());
        assert(told(all, q) =~= told(rest, q)) by {
            assert forall|a: int| 0 <= a < q.len() implies #[trigger] told(all, q)[a] == told(
                rest,
                q,
            )[a] by {
                assert(rest[q[a]] == all[q[a]]);
            }
        }
        let p = if all.last() is Failed {
            q.push(n)
        } else {
            q
        };
        if all.last() is Failed {
            let parts = told(all, p);
            assert(parts.drop_last() =~= told(all, q));
            let last = "\n  "@ + names[n] + "\n    "@ + rendered(all[n]->Failed_0@) + "\n"@;
            assert(parts.last() == last);
            assert(failed_text(names, all) =~= failed_text(names, rest) + last);
            if q.len() == 0 {
                assert(told(rest, q) =~= Seq::<Seq<char>>::empty());
                assert(failed_text(names, rest).len() == 0);
                assert(joined(parts, Seq::empty()) == parts[0]);
                assert(failed_text(names, all) =~= last);
            } else {
                assert(joined(parts, Seq::empty()) =~= joined(parts.drop_last(), Seq::empty())
                    + last);
            }
        }
        assert forall|i: int| 0 <= i < all.len() && #[trigger] all[i] is Failed implies p.contains(
            i,
        ) by {
            if i < n {
                assert(rest[i] == all[i]);
                let a = choose|a: int| 0 <= a < q.len() && q[a] == i;
                assert(p[a] == i);
            } else {
                assert(p[p.len() - 1] == i);
            }
        }
        assert forall|a: int| 0 <= a < p.len() implies 0 <= #[trigger] p[a] < all.len() && all[p[a]]
            is Failed by {
            if a < q.len() {
                assert(p[a] == q[a]);
                assert(rest[q[a]] == all[q[a]]);
            }
        }
        p
    }
}

/// Every package that was never attempted is named, once, in the order of the packages.
/// `p` says which packages those are.
pub proof fn lemma_every_package_left_out_is_named(
    names: Seq<Seq<char>>,
    all: Seq<Progression>,
) -> (p: Seq<int>)
    ensures
        p.len() == left_out(names, all).len(),
        forall|a: int|
            0 <= a < p.len() ==> 0 <= #[trigger] p[a] < all.len() && left_out(names, all)[a]
                == names[p[a]] && (all[p[a]] is Skipped || all[p[a]] is Waiting),
        forall|a: int, b: int| 0 <= a < b < p.len() ==> #[trigger] p[a] < #[trigger] p[b],
        forall|i: int|
            0 <= i < all.len() && (#[trigger] all[i] is Skipped || all[i] is Waiting)
                ==> p.contains(i),
    decreases all.len(),
{
    if all.len() == 0 {
        Seq::empty()
    } else {
        let rest = all.drop_last();
        let q = lemma_every_package_left_out_is_named(names, rest);
        let n = all.len() - 1;
        assert(all[n] == all.last());
        let p = if all.last() is Skipped || all.last() is Waiting {
            q.push(n)
        } else {
            q
        };
        assert forall|i: int|
            0 <= i < all.len() && (#[trigger] all[i] is Skipped || all[i] is Waiting) implies
            p.contains(i) by {
            if i < n {
                assert(rest[i] == all[i]);
                let a = choose|a: int| 0 <= a < q.len() && q[a] == i;
                assert(p[a] == i);
            } else {
                assert(p[p.len() - 1] == i);
            }
        }
        assert forall|a: int| 0 <= a < p.len() implies 0 <= #[trigger] p[a] < all.len() && left_out(
            names,
            all,
        )[a] == names[p[a]] && (all[p[a]] is Skipped || all[p[a]] is Waiting) by {
            if a < q.len() {
                assert(p[a] == q[a]);
                assert(rest[q[a]] == all[q[a]]);
                assert(left_out(names, all)[a] == left_out(names, rest)[a]);
            }
        }
        p
    }
}

/// A summary counts the failures, tells each of them, and then, where there are any,
/// names what was left out.
pub proof fn lemma_what_a_summary_says(names: Seq<Seq<char>>, all: Seq<Progression>)
    ensures
        ({
            let failures = all.filter(|p: Progression| p is Failed).len();
            let head = decimal(failures) + " of "@ + decimal(all.len()) + " packages failed\n"@
                + failed_text(names, all);
            let skipped = left_out(names, all);
            &&& skipped.len() == 0 ==> failure_summary(names, all) == head
            &&& skipped.len() > 0 ==> failure_summary(names, all) == head + "\n"@ + decimal(
                skipped.len(),
            ) + " skipped because a dependency failed: "@ + joined(skipped, ", "@) + "\n"@
        }),
{
    lemma_tallies(all, Seq::empty());
}

/// A report is told with each of its causes on a line of its own below it, indented by
/// six spaces.
pub proof fn lemma_how_a_report_is_told(report: ReportView, cause: Seq<char>)
    ensures
        report.causes.len() == 0 ==> rendered(report) == report.message,
        rendered(ReportView { causes: report.causes.push(cause), ..report }) == rendered(report)
            + seq!['\n', ' ', ' ', ' ', ' ', ' ', ' '] + cause,
{
    reveal_strlit("\n      ");
    let more = report.causes.push(cause);
    assert(more.drop_last() =~= report.causes);
    assert("\n      "@ =~= seq!['\n', ' ', ' ', ' ', ' ', ' ', ' ']);
    assert(rendered(ReportView { causes: more, ..report }) =~= rendered(report) + seq![
        '\n',
        ' ',
        ' ',
        ' ',
        ' ',
        ' ',
        ' ',
    ] + cause);
    if report.causes.len() == 0 {
        assert(rendered(report) =~= report.message);
    }
}

/// As many packages are built at once as were asked for, or as the machine suggests where
/// nothing or none was asked for, but no more than there are packages; and at least one,
/// if the machine suggests as many.
pub proof fn lemma_how_many_build_at_once(jobs: Option<usize>, suggested: usize, packages: nat)
    ensures
        packages > 0 ==> worker_count(jobs, suggested, packages) <= packages,
        packages == 0 ==> worker_count(jobs, suggested, packages) <= 1,
        jobs matches Some(n) ==> 0 < n <= packages ==> worker_count(jobs, suggested, packages) == n,
        jobs matches Some(n) ==> n >= packages > 0 ==> worker_count(jobs, suggested, packages)
            == packages,
        jobs is None || jobs->0 == 0 ==> worker_count(jobs, suggested, packages) == worker_count(
            Some(suggested),
            suggested,
            packages,
        ),
        jobs is None && suggested <= packages ==> worker_count(jobs, suggested, packages)
            == suggested,
        suggested > 0 ==> worker_count(jobs, suggested, packages) > 0,
{
}

/// How a build is going: how many packages are being built and how many of them all are
/// done; and what is said when nothing failed and yet there is no archive.
pub proof fn lemma_how_a_build_is_going(running: nat, done: nat, total: nat, name: Seq<char>)
    ensures
        progress_line(running, done, total) == decimal(running) + " building, "@ + decimal(done)
            + " of "@ + decimal(total) + " done"@,
        missing_archive(name) == "the build finished without producing an archive for "@ + name,
{
}

/// Packages that a package depends on are listed back to front: a package is among those
/// that depend on another exactly when it names it.
pub proof fn lemma_dependents_name_what_they_depend_on(
    edges: Edges,
    dependents: Seq<Vec<usize>>,
    d: usize,
    x: usize,
)
    requires
        reversed(edges, dependents),
        d < edges.len(),
        x < edges.len(),
    ensures
        dependents[d as int]@.contains(x) <==> edges[x as int].contains(d),
{
    lemma_count_contains(dependents[d as int]@, x);
    lemma_count_contains(edges[x as int], d);
    assert(count_of(dependents[d as int]@, x) == count_of(edges[x as int], d));
}

/// A package that is built left one archive behind; no other package left any.
pub proof fn lemma_one_archive_for_each_package(
    p: Progression,
    archive: Seq<u8>,
    other: Seq<u8>,
)
    ensures
        built_as(p, archive) <==> (p matches Progression::Built(path) && path@ == archive),
        built_as(p, archive) && built_as(p, other) ==> archive == other,
        !(p is Built) ==> !built_as(p, archive),
{
}

} // verus!
