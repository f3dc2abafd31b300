//! What a package needs at run time, and where that is known from.
//!
//! A profile is a set of grants. Two grants for the same thing are one grant with
//! both origins, and a path below another that is granted in the same way is
//! covered by it. Paths are read component by component, and a path with a `..` in
//! it is never taken to be covered: nobody knows where it leads.

use vstd::prelude::*;

use crate::path::{climbs, lossy, same_path, starts_with, FilePath};
use crate::text::{decimal, push_decimal, texts};

/// Watching one real execution.
pub mod monitor;
/// What a program to be traced is started with.
pub mod launch;
/// The steps of the tracer.
pub mod supervise;
/// System calls of x86_64.
pub mod x86_64;

verus! {

/// One thing a package may do. A path stands for itself and everything under it.
#[derive(Debug, PartialEq, Eq)]
pub enum Permission {
    ReadPath(FilePath),
    WritePath(FilePath),
    ExecPath(FilePath),
    Network,
    Spawn,
}

/// What a [`Permission`] says.
pub enum PermissionView {
    ReadPath(Seq<u8>),
    WritePath(Seq<u8>),
    ExecPath(Seq<u8>),
    Network,
    Spawn,
}

impl View for Permission {
    type V = PermissionView;

    open spec fn view(&self) -> PermissionView {
        match *self {
            Permission::ReadPath(p) => PermissionView::ReadPath(p@),
            Permission::WritePath(p) => PermissionView::WritePath(p@),
            Permission::ExecPath(p) => PermissionView::ExecPath(p@),
            Permission::Network => PermissionView::Network,
            Permission::Spawn => PermissionView::Spawn,
        }
    }
}

impl Clone for Permission {
    fn clone(&self) -> (r: Self)
        ensures
            r@ == self@,
    {
        match self {
            Permission::ReadPath(p) => Permission::ReadPath(p.clone()),
            Permission::WritePath(p) => Permission::WritePath(p.clone()),
            Permission::ExecPath(p) => Permission::ExecPath(p.clone()),
            Permission::Network => Permission::Network,
            Permission::Spawn => Permission::Spawn,
        }
    }
}

/// The path a permission is about.
pub open spec fn path_of(p: PermissionView) -> Option<Seq<u8>> {
    match p {
        PermissionView::ReadPath(path) => Some(path),
        PermissionView::WritePath(path) => Some(path),
        PermissionView::ExecPath(path) => Some(path),
        PermissionView::Network => None,
        PermissionView::Spawn => None,
    }
}

/// Which of the five kinds a permission is of.
pub open spec fn kind_of(p: PermissionView) -> int {
    match p {
        PermissionView::ReadPath(_) => 0,
        PermissionView::WritePath(_) => 1,
        PermissionView::ExecPath(_) => 2,
        PermissionView::Network => 3,
        PermissionView::Spawn => 4,
    }
}

/// `a` and `b` permit the same thing.
pub open spec fn same_permission(a: PermissionView, b: PermissionView) -> bool {
    kind_of(a) == kind_of(b) && (path_of(a) is Some ==> same_path(path_of(a)->0, path_of(b)->0))
}

/// `a` permits what `b` permits and more: `b` names something below the path that
/// `a` names, in the same way.
pub open spec fn covers(a: PermissionView, b: PermissionView) -> bool {
    &&& kind_of(a) == kind_of(b)
    &&& path_of(a) is Some
    &&& starts_with(path_of(b)->0, path_of(a)->0)
    &&& !same_path(path_of(a)->0, path_of(b)->0)
    &&& !climbs(path_of(b)->0)
}

impl Permission {
    /// The path this permission is about.
    pub fn path(&self) -> (r: Option<&FilePath>)
        ensures
            r is Some <==> path_of(self@) is Some,
            r is Some ==> r->0@ == path_of(self@)->0,
    {
        match self {
            Permission::ReadPath(p) => Some(p),
            Permission::WritePath(p) => Some(p),
            Permission::ExecPath(p) => Some(p),
            Permission::Network => None,
            Permission::Spawn => None,
        }
    }

    fn kind(&self) -> (r: u8)
        ensures
            r == kind_of(self@),
    {
        match self {
            Permission::ReadPath(_) => 0,
            Permission::WritePath(_) => 1,
            Permission::ExecPath(_) => 2,
            Permission::Network => 3,
            Permission::Spawn => 4,
        }
    }

    /// Whether the two permit the same thing.
    pub fn same(&self, other: &Permission) -> (r: bool)
        ensures
            r == same_permission(self@, other@),
    {
        if self.kind() != other.kind() {
            return false;
        }
        match (self.path(), other.path()) {
            (Some(a), Some(b)) => a.same(b),
            _ => true,
        }
    }

    /// Whether this permits what `other` permits and more.
    pub fn covers(&self, other: &Permission) -> (r: bool)
        ensures
            r == covers(self@, other@),
    {
        if self.kind() != other.kind() {
            return false;
        }
        match (self.path(), other.path()) {
            (Some(a), Some(b)) => b.starts_with(a) && !a.same(b) && !b.climbs(),
            _ => false,
        }
    }
}

/// What a grant is known from.
#[derive(Debug, Clone, Copy, PartialEq, Eq, Structural)]
pub enum Provenance {
    /// The sources mention it.
    SourceAnalysis,
    /// A binary of the package asks for it.
    ElfAnalysis,
    /// The package was seen doing it.
    RuntimeMonitor,
}

/// The order origins are listed in.
pub open spec fn origin_rank(p: Provenance) -> int {
    match p {
        Provenance::SourceAnalysis => 0,
        Provenance::ElfAnalysis => 1,
        Provenance::RuntimeMonitor => 2,
    }
}

/// Whether a profile is enforced, or only written down.
#[derive(Debug, Clone, Copy, PartialEq, Eq, Structural)]
pub enum Enforcement {
    /// Recorded for a person to read; denies nothing.
    Audit,
    /// What is not granted is denied.
    Enforce,
}

impl Default for Enforcement {
    fn default() -> (r: Self)
        ensures
            r == Enforcement::Audit,
    {
        Enforcement::Audit
    }
}

impl Enforcement {
    /// Whether anything is denied.
    pub fn denies(&self) -> (r: bool)
        ensures
            r == (*self == Enforcement::Enforce),
    {
        match self {
            Enforcement::Audit => false,
            Enforcement::Enforce => true,
        }
    }
}

/// A permission, what it is known from, and the lines that show it.
#[derive(Debug, PartialEq, Eq)]
pub struct Grant {
    pub permission: Permission,
    /// What it is known from, each origin once, in the order of the origins.
    pub provenance: Vec<Provenance>,
    /// Why it is there, each line once.
    pub evidence: Vec<String>,
}

/// The origins stand in order, each of them once.
pub open spec fn origins_in_order(list: Seq<Provenance>) -> bool {
    forall|i: int, j: int|
        0 <= i < j < list.len() ==> origin_rank(#[trigger] list[i]) < origin_rank(
            #[trigger] list[j],
        )
}

impl Grant {
    /// Origins and lines are listed once each.
    pub open spec fn wf(&self) -> bool {
        &&& origins_in_order(self.provenance@)
        &&& texts(self.evidence@).no_duplicates()
    }

    /// A grant with one origin.
    pub fn new(permission: Permission, provenance: Provenance, evidence: Vec<String>) -> (r: Grant)
        ensures
            r.wf(),
            r.permission == permission,
            r.provenance@ == seq![provenance],
            forall|line: Seq<char>| #[trigger]
                texts(r.evidence@).contains(line) <==> texts(evidence@).contains(line),
    {
        let mut r = Grant { permission, provenance: vec![provenance], evidence: Vec::new() };
        assert(r.provenance@ =~= seq![provenance]);
        add_lines(&mut r.evidence, &evidence);
        r
    }

    /// The permission.
    pub fn permission(&self) -> (r: &Permission)
        ensures
            *r == self.permission,
    {
        &self.permission
    }

    /// What the grant is known from.
    pub fn provenance(&self) -> (r: &Vec<Provenance>)
        ensures
            *r == self.provenance,
    {
        &self.provenance
    }

    /// Why the grant is there.
    pub fn evidence(&self) -> (r: &Vec<String>)
        ensures
            *r == self.evidence,
    {
        &self.evidence
    }
}

/// Whether `list` holds `line`.
fn has_line(list: &Vec<String>, line: &String) -> (r: bool)
    ensures
        r == texts(list@).contains(line@),
{
    let mut i: usize = 0;
    while i < list.len()
        invariant
            i <= list@.len(),
            forall|j: int| 0 <= j < i ==> texts(list@)[j] != line@,
        decreases list@.len() - i,
    {
        assert(texts(list@)[i as int] == list@[i as int]@);
        if list[i] == *line {
            return true;
        }
        i += 1;
    }
    false
}

/// Add `line` to lines that are listed once each.
fn add_line(list: &mut Vec<String>, line: String)
    requires
        texts(old(list)@).no_duplicates(),
    ensures
        texts(final(list)@).no_duplicates(),
        forall|x: Seq<char>| #[trigger]
            texts(final(list)@).contains(x) <==> texts(old(list)@).contains(x) || x == line@,
{
    let ghost before = texts(list@);
    let ghost text = line@;
    if has_line(list, &line) {
        return;
    }
    list.push(line);
    proof {
        let after = texts(list@);
        assert(after =~= before.push(text));
        assert forall|x: Seq<char>| #[trigger] after.contains(x) <==> before.contains(x) || x
            == text by {
            if after.contains(x) {
                let i = choose|i: int| 0 <= i < after.len() && after[i] == x;
                if i < before.len() {
                    assert(before[i] == x);
                }
            }
            if before.contains(x) {
                let i = choose|i: int| 0 <= i < before.len() && before[i] == x;
                assert(after[i] == x);
            }
            assert(after[before.len() as int] == text);
        }
    }
}

/// Add `lines` to lines that are listed once each.
fn add_lines(list: &mut Vec<String>, lines: &Vec<String>)
    requires
        texts(old(list)@).no_duplicates(),
    ensures
        texts(final(list)@).no_duplicates(),
        forall|x: Seq<char>| #[trigger]
            texts(final(list)@).contains(x) <==> texts(old(list)@).contains(x) || texts(
                lines@,
            ).contains(x),
{
    let ghost all = texts(lines@);
    let mut i: usize = 0;
    while i < lines.len()
        invariant
            i <= lines@.len(),
            all == texts(lines@),
            texts(list@).no_duplicates(),
            forall|x: Seq<char>| #[trigger]
                texts(list@).contains(x) <==> texts(old(list)@).contains(x) || exists|j: int|
                    0 <= j < i && #[trigger] all[j] == x,
        decreases lines@.len() - i,
    {
        assert(all[i as int] == lines@[i as int]@);
        add_line(list, lines[i].clone());
        i += 1;
    }
}

/// Add `origin` to origins that stand in order.
fn add_origin(list: &mut Vec<Provenance>, origin: Provenance)
    requires
        origins_in_order(old(list)@),
    ensures
        origins_in_order(final(list)@),
        forall|x: Provenance| #[trigger]
            final(list)@.contains(x) <==> old(list)@.contains(x) || x == origin,
{
    let ghost before = list@;
    let mut at: usize = 0;
    while at < list.len() && rank(list[at]) < rank(origin)
        invariant
            at <= list@.len(),
            before == list@,
            forall|j: int| 0 <= j < at ==> origin_rank(#[trigger] before[j]) < origin_rank(origin),
        decreases list@.len() - at,
    {
        at += 1;
    }
    if at < list.len() && rank(list[at]) == rank(origin) {
        assert(before[at as int] == origin);
        return;
    }
    list.insert(at, origin);
    proof {
        let after = list@;
        assert(after =~= before.insert(at as int, origin));
        assert forall|i: int, j: int| 0 <= i < j < after.len() implies origin_rank(
            #[trigger] after[i],
        ) < origin_rank(#[trigger] after[j]) by {
            if j < at {
                assert(after[i] == before[i] && after[j] == before[j]);
            } else if i > at {
                assert(after[i] == before[i - 1] && after[j] == before[j - 1]);
            } else if j == at {
                assert(after[i] == before[i]);
            } else {
                assert(after[j] == before[j - 1]);
                if j - 1 > at {
                    assert(origin_rank(before[at as int]) < origin_rank(before[j - 1]));
                }
                if i < at {
                    assert(after[i] == before[i]);
                }
            }
        }
        assert forall|x: Provenance| #[trigger] after.contains(x) <==> before.contains(x) || x
            == origin by {
            if after.contains(x) {
                let i = choose|i: int| 0 <= i < after.len() && after[i] == x;
                if i < at {
                    assert(before[i] == x);
                } else if i > at {
                    assert(before[i - 1] == x);
                }
            }
            if before.contains(x) {
                let i = choose|i: int| 0 <= i < before.len() && before[i] == x;
                if i < at {
                    assert(after[i] == x);
                } else {
                    assert(after[i + 1] == x);
                }
            }
            assert(after[at as int] == origin);
        }
    }
}

fn rank(p: Provenance) -> (r: u8)
    ensures
        r == origin_rank(p),
{
    match p {
        Provenance::SourceAnalysis => 0,
        Provenance::ElfAnalysis => 1,
        Provenance::RuntimeMonitor => 2,
    }
}

/// The line that says that a grant stands for a narrower one as well.
pub open spec fn covers_line(p: PermissionView) -> Seq<char> {
    "covers "@ + lossy(path_of(p)->0)
}

/// A grant for `p` stands for `q` as well: the two are the same, or `p` covers `q`.
pub open spec fn stands_for(p: PermissionView, q: PermissionView) -> bool {
    same_permission(p, q) || covers(p, q)
}

/// No grant of `all` covers `p`.
pub open spec fn uncovered(all: Seq<Grant>, p: PermissionView) -> bool {
    forall|j: int| 0 <= j < all.len() ==> !covers((#[trigger] all[j]).permission@, p)
}

/// Grant `g` of `all` gives `origin` to a grant for `p`.
pub open spec fn origin_from(all: Seq<Grant>, p: PermissionView, origin: Provenance) -> bool {
    exists|i: int|
        0 <= i < all.len() && stands_for(p, (#[trigger] all[i]).permission@)
            && all[i].provenance@.contains(origin)
}

/// Grant `g` gives `line` to a grant for `p`: it has the line, or the line says that
/// it is covered.
pub open spec fn gives_line(g: Grant, p: PermissionView, line: Seq<char>) -> bool {
    &&& stands_for(p, g.permission@)
    &&& texts(g.evidence@).contains(line) || (covers(p, g.permission@) && line == covers_line(
        g.permission@,
    ))
}

/// Some grant of `all` gives `line` to a grant for `p`.
pub open spec fn line_from(all: Seq<Grant>, p: PermissionView, line: Seq<char>) -> bool {
    exists|i: int| 0 <= i < all.len() && gives_line(#[trigger] all[i], p, line)
}

/// `g` is everything `all` has to say about `p`.
pub open spec fn gathered(all: Seq<Grant>, p: PermissionView, g: Grant) -> bool {
    &&& g.wf()
    &&& g.permission@ == p
    &&& forall|origin: Provenance| #[trigger]
        g.provenance@.contains(origin) <==> origin_from(all, p, origin)
    &&& forall|line: Seq<char>| #[trigger]
        texts(g.evidence@).contains(line) <==> line_from(all, p, line)
}

/// `kept` is the profile that the grants `all` add up to: one grant for each thing
/// that is granted and not covered, with every origin and every line of what it
/// stands for.
pub open spec fn profile_of(all: Seq<Grant>, kept: Seq<Grant>) -> bool {
    &&& forall|k: int, l: int|
        0 <= k < l < kept.len() ==> !same_permission(
            (#[trigger] kept[k]).permission@,
            (#[trigger] kept[l]).permission@,
        )
    &&& forall|k: int| 0 <= k < kept.len() ==> #[trigger] added_up(all, kept[k])
    &&& forall|i: int| 0 <= i < all.len() ==> #[trigger] accounted_for(kept, all[i].permission@)
}

/// `g` is what `all` adds up to for one thing that is granted and not covered.
pub open spec fn added_up(all: Seq<Grant>, g: Grant) -> bool {
    &&& granted_in(all, g.permission@)
    &&& uncovered(all, g.permission@)
    &&& gathered(all, g.permission@, g)
}

/// What is granted by the first `n` grants of `all` and covered by none of them all,
/// each thing where it first occurs.
pub open spec fn kept_permissions(all: Seq<Grant>, n: int) -> Seq<PermissionView>
    decreases n,
{
    if n <= 0 {
        Seq::empty()
    } else {
        let rest = kept_permissions(all, n - 1);
        let p = all[n - 1].permission@;
        if uncovered(all, p) && !lists_permission(rest, p) {
            rest.push(p)
        } else {
            rest
        }
    }
}

/// `grants` is the profile that `all` adds up to, in the order things first occur.
pub open spec fn adds_up_to(all: Seq<Grant>, grants: Seq<Grant>) -> bool {
    &&& profile_of(all, grants)
    &&& permission_views(grants) == kept_permissions(all, all.len() as int)
}

/// Some permission of `list` is the same as `p`.
pub open spec fn lists_permission(list: Seq<PermissionView>, p: PermissionView) -> bool {
    exists|k: int| 0 <= k < list.len() && same_permission(#[trigger] list[k], p)
}

/// What each grant of a list is for.
pub open spec fn permission_views(grants: Seq<Grant>) -> Seq<PermissionView> {
    grants.map_values(|g: Grant| g.permission@)
}

/// Some grant of `all` is for `p`.
pub open spec fn granted_in(all: Seq<Grant>, p: PermissionView) -> bool {
    exists|i: int| 0 <= i < all.len() && (#[trigger] all[i]).permission@ == p
}

/// Some grant of `kept` stands for `p`.
pub open spec fn accounted_for(kept: Seq<Grant>, p: PermissionView) -> bool {
    exists|k: int| 0 <= k < kept.len() && stands_for((#[trigger] kept[k]).permission@, p)
}

proof fn lemma_covers(a: PermissionView, b: PermissionView, c: PermissionView)
    ensures
        covers(a, b) ==> crate::path::components(path_of(a)->0).len() < crate::path::components(
            path_of(b)->0,
        ).len(),
        covers(a, b) && covers(b, c) ==> covers(a, c),
        covers(a, b) && same_permission(b, c) ==> covers(a, c),
        same_permission(a, b) && covers(b, c) ==> covers(a, c),
        same_permission(a, b) && same_permission(b, c) ==> same_permission(a, c),
{
    let x = crate::path::components(path_of(a)->0);
    let y = crate::path::components(path_of(b)->0);
    let z = crate::path::components(path_of(c)->0);
    if covers(a, b) {
        assert(x =~= y.subrange(0, x.len() as int));
        if x.len() == y.len() {
            assert(x =~= y);
        }
        if covers(b, c) {
            assert(y =~= z.subrange(0, y.len() as int));
            assert(x =~= z.subrange(0, x.len() as int));
            if y.len() == z.len() {
                assert(y =~= z);
            }
        }
    }
}

/// Every grant is accounted for by one that nothing covers.
proof fn lemma_outermost(all: Seq<Grant>, i: int) -> (j: int)
    requires
        0 <= i < all.len(),
    ensures
        0 <= j < all.len(),
        uncovered(all, all[j].permission@),
        stands_for(all[j].permission@, all[i].permission@),
    decreases crate::path::components(path_of(all[i].permission@)->0).len(),
{
    let p = all[i].permission@;
    if uncovered(all, p) {
        i
    } else {
        let k = choose|k: int| 0 <= k < all.len() && covers((#[trigger] all[k]).permission@, p);
        lemma_covers(all[k].permission@, p, p);
        let j = lemma_outermost(all, k);
        lemma_covers(all[j].permission@, all[k].permission@, p);
        j
    }
}

/// What a package needs at run time.
#[derive(Debug, PartialEq, Eq)]
pub struct Permissions {
    pub grants: Vec<Grant>,
}

impl Default for Permissions {
    fn default() -> (r: Self)
        ensures
            r.grants@.len() == 0,
    {
        Permissions { grants: Vec::new() }
    }
}

/// Everything `all` has to say about `p`.
fn gather(all: &Vec<Grant>, p: &Permission) -> (g: Grant)
    ensures
        gathered(all@, p@, g),
{
    let mut provenance: Vec<Provenance> = Vec::new();
    let mut evidence: Vec<String> = Vec::new();
    let mut i: usize = 0;
    while i < all.len()
        invariant
            i <= all@.len(),
            origins_in_order(provenance@),
            texts(evidence@).no_duplicates(),
            forall|origin: Provenance| #[trigger]
                provenance@.contains(origin) <==> origin_from(all@.take(i as int), p@, origin),
            forall|line: Seq<char>| #[trigger]
                texts(evidence@).contains(line) <==> line_from(all@.take(i as int), p@, line),
        decreases all@.len() - i,
    {
        let g = &all[i];
        let ghost earlier = all@.take(i as int);
        let ghost now = all@.take(i + 1);
        let ghost provenance_before = provenance@;
        let ghost lines_before = texts(evidence@);
        let covered = p.covers(&g.permission);
        let counts = covered || p.same(&g.permission);
        if counts {
            let mut k: usize = 0;
            while k < g.provenance.len()
                invariant
                    k <= g.provenance@.len(),
                    origins_in_order(provenance@),
                    forall|origin: Provenance| #[trigger]
                        provenance@.contains(origin) <==> provenance_before.contains(origin)
                            || exists|j: int|
                            0 <= j < k && #[trigger] g.provenance@[j] == origin,
                decreases g.provenance@.len() - k,
            {
                add_origin(&mut provenance, g.provenance[k]);
                k += 1;
            }
            add_lines(&mut evidence, &g.evidence);
            if covered {
                let mut line = "covers ".to_owned();
                match g.permission.path() {
                    Some(path) => {
                        line.push_str(path.display().as_str());
                    },
                    None => {},
                }
                assert(line@ == covers_line(g.permission@));
                add_line(&mut evidence, line);
            }
        }
        proof {
            assert(now[i as int] == *g);
            assert forall|origin: Provenance| #[trigger] provenance@.contains(origin)
                <==> origin_from(now, p@, origin) by {
                if origin_from(earlier, p@, origin) {
                    let j = choose|j: int|
                        0 <= j < earlier.len() && stands_for(p@, (#[trigger] earlier[j]).permission@)
                            && earlier[j].provenance@.contains(origin);
                    assert(now[j] == earlier[j]);
                }
                if origin_from(now, p@, origin) {
                    let j = choose|j: int|
                        0 <= j < now.len() && stands_for(p@, (#[trigger] now[j]).permission@)
                            && now[j].provenance@.contains(origin);
                    if j < i {
                        assert(earlier[j] == now[j]);
                        assert(origin_from(earlier, p@, origin));
                    } else {
                        let m = choose|m: int|
                            0 <= m < g.provenance@.len() && g.provenance@[m] == origin;
                        assert(g.provenance@[m] == origin);
                    }
                }
                if provenance@.contains(origin) && !provenance_before.contains(origin) {
                    assert(g.provenance@.contains(origin));
                    assert(stands_for(p@, now[i as int].permission@));
                }
            }
            assert forall|line: Seq<char>| #[trigger] texts(evidence@).contains(line)
                <==> line_from(now, p@, line) by {
                if line_from(earlier, p@, line) {
                    let j = choose|j: int|
                        0 <= j < earlier.len() && gives_line(#[trigger] earlier[j], p@, line);
                    assert(now[j] == earlier[j]);
                }
                if line_from(now, p@, line) {
                    let j = choose|j: int|
                        0 <= j < now.len() && gives_line(#[trigger] now[j], p@, line);
                    if j < i {
                        assert(earlier[j] == now[j]);
                        assert(line_from(earlier, p@, line));
                    }
                }
                if texts(evidence@).contains(line) && !lines_before.contains(line) {
                    assert(gives_line(now[i as int], p@, line));
                }
            }
        }
        i += 1;
    }
    assert(all@.take(all@.len() as int) =~= all@);
    Grant { permission: p.clone(), provenance, evidence }
}

/// Whether some grant of `all` covers `p`.
fn is_covered(all: &Vec<Grant>, p: &Permission) -> (r: bool)
    ensures
        r == !uncovered(all@, p@),
{
    let mut i: usize = 0;
    while i < all.len()
        invariant
            i <= all@.len(),
            forall|j: int| 0 <= j < i ==> !covers((#[trigger] all@[j]).permission@, p@),
        decreases all@.len() - i,
    {
        if all[i].permission.covers(p) {
            return true;
        }
        i += 1;
    }
    false
}

/// Whether some grant of `kept` is for the same thing as `p`.
fn is_granted(kept: &Vec<Grant>, p: &Permission) -> (r: bool)
    ensures
        r == lists_permission(permission_views(kept@), p@),
{
    let mut i: usize = 0;
    while i < kept.len()
        invariant
            i <= kept@.len(),
            forall|j: int|
                0 <= j < i ==> !same_permission(#[trigger] permission_views(kept@)[j], p@),
        decreases kept@.len() - i,
    {
        assert(permission_views(kept@)[i as int] == kept@[i as int].permission@);
        if kept[i].permission.same(p) {
            return true;
        }
        i += 1;
    }
    false
}

impl Permissions {
    /// The profile that `all` adds up to, in the order things first occur.
    pub fn from_grants(all: &Vec<Grant>) -> (r: Permissions)
        ensures
            adds_up_to(all@, r.grants@),
    {
        let mut kept: Vec<Grant> = Vec::new();
        let mut i: usize = 0;
        assert(permission_views(kept@) =~= kept_permissions(all@, 0));
        while i < all.len()
            invariant
                i <= all@.len(),
                permission_views(kept@) == kept_permissions(all@, i as int),
                forall|k: int, l: int|
                    0 <= k < l < kept@.len() ==> !same_permission(
                        (#[trigger] kept@[k]).permission@,
                        (#[trigger] kept@[l]).permission@,
                    ),
                forall|k: int| 0 <= k < kept@.len() ==> #[trigger] added_up(all@, kept@[k]),
                forall|j: int|
                    0 <= j < i && uncovered(all@, (#[trigger] all@[j]).permission@) ==> exists|
                        k: int,
                    |
                        0 <= k < kept@.len() && same_permission(
                            (#[trigger] kept@[k]).permission@,
                            all@[j].permission@,
                        ),
            decreases all@.len() - i,
        {
            let ghost before = kept@;
            let p = &all[i].permission;
            assert(granted_in(all@, p@));
            proof {
                assert forall|k: int| 0 <= k < kept@.len() implies #[trigger] permission_views(
                    kept@,
                )[k] == kept@[k].permission@ by {}
            }
            if !is_covered(all, p) && !is_granted(&kept, p) {
                kept.push(gather(all, p));
                proof {
                    assert(permission_views(kept@) =~= permission_views(before).push(p@));
                    assert forall|k: int| 0 <= k < before.len() implies !same_permission(
                        (#[trigger] before[k]).permission@,
                        p@,
                    ) by {
                        assert(permission_views(before)[k] == before[k].permission@);
                    }
                    assert(added_up(all@, kept@[before.len() as int]));
                    assert forall|k: int| 0 <= k < kept@.len() implies #[trigger] added_up(
                        all@,
                        kept@[k],
                    ) by {
                        if k < before.len() {
                            assert(added_up(all@, before[k]));
                        }
                    }
                    assert forall|j: int|
                        0 <= j < i + 1 && uncovered(all@, (#[trigger] all@[j]).permission@) implies exists|
                            k: int,
                        |
                            0 <= k < kept@.len() && same_permission(
                                (#[trigger] kept@[k]).permission@,
                                all@[j].permission@,
                            ) by {
                        if j < i {
                            let k = choose|k: int|
                                0 <= k < before.len() && same_permission(
                                    (#[trigger] before[k]).permission@,
                                    all@[j].permission@,
                                );
                            assert(kept@[k] == before[k]);
                        } else {
                            assert(kept@[before.len() as int].permission@ == p@);
                        }
                    }
                }
            }
            i += 1;
        }
        proof {
            assert forall|i: int| 0 <= i < all@.len() implies #[trigger] accounted_for(
                kept@,
                all@[i].permission@,
            ) by {
                let j = lemma_outermost(all@, i);
                let k = choose|k: int|
                    0 <= k < kept@.len() && same_permission(
                        (#[trigger] kept@[k]).permission@,
                        all@[j].permission@,
                    );
                lemma_covers(kept@[k].permission@, all@[j].permission@, all@[i].permission@);
            }
        }
        Permissions { grants: kept }
    }

    /// The profile that several profiles add up to.
    pub fn merge(sets: Vec<Permissions>) -> (r: Permissions)
        ensures
            adds_up_to(all_grants(sets@), r.grants@),
    {
        let ghost whole = all_grants(sets@);
        let mut all: Vec<Grant> = Vec::new();
        let mut sets = sets;
        while sets.len() > 0
            invariant
                all_grants(sets@) + all@ == whole,
            decreases sets@.len(),
        {
            let ghost before = sets@;
            let ghost later = all@;
            match sets.pop() {
                Some(set) => {
                    let mut grants = set.grants;
                    grants.append(&mut all);
                    all = grants;
                    assert(before.drop_last() =~= sets@);
                    assert(all_grants(sets@) + all@ =~= all_grants(before) + later);
                },
                None => {},
            }
        }
        assert(all@ =~= whole);
        Permissions::from_grants(&all)
    }

    /// How many grants there are.
    pub fn len(&self) -> (r: usize)
        ensures
            r == self.grants@.len(),
    {
        self.grants.len()
    }

    /// Whether nothing is granted.
    pub fn is_empty(&self) -> (r: bool)
        ensures
            r == (self.grants@.len() == 0),
    {
        self.grants.len() == 0
    }

    /// The grants.
    pub fn grants(&self) -> (r: &Vec<Grant>)
        ensures
            *r == self.grants,
    {
        &self.grants
    }

    /// The paths that are granted in one of the ways, in the order of the grants.
    fn paths_of_kind(&self, kind: u8) -> (r: Vec<&FilePath>)
        requires
            kind < 3,
        ensures
            r@.map_values(|p: &FilePath| p@) == kind_paths(self.grants@, kind as int),
    {
        let mut r: Vec<&FilePath> = Vec::new();
        let mut i: usize = 0;
        assert(r@.map_values(|p: &FilePath| p@) =~= kind_paths(
            self.grants@.take(0),
            kind as int,
        ));
        while i < self.grants.len()
            invariant
                i <= self.grants@.len(),
                kind < 3,
                r@.map_values(|p: &FilePath| p@) == kind_paths(
                    self.grants@.take(i as int),
                    kind as int,
                ),
            decreases self.grants@.len() - i,
        {
            let ghost before = r@;
            let ghost now = self.grants@.take(i + 1);
            assert(now.drop_last() =~= self.grants@.take(i as int));
            if self.grants[i].permission.kind() == kind {
                match self.grants[i].permission.path() {
                    Some(path) => {
                        r.push(path);
                        assert(r@.map_values(|p: &FilePath| p@) =~= before.map_values(
                            |p: &FilePath| p@,
                        ).push(path@));
                    },
                    None => {},
                }
            }
            i += 1;
        }
        assert(self.grants@.take(self.grants@.len() as int) =~= self.grants@);
        r
    }

    /// The paths that may be read.
    pub fn read_paths(&self) -> (r: Vec<&FilePath>)
        ensures
            r@.map_values(|p: &FilePath| p@) == kind_paths(self.grants@, 0),
    {
        self.paths_of_kind(0)
    }

    /// The paths that may be written.
    pub fn write_paths(&self) -> (r: Vec<&FilePath>)
        ensures
            r@.map_values(|p: &FilePath| p@) == kind_paths(self.grants@, 1),
    {
        self.paths_of_kind(1)
    }

    /// The paths that may be executed.
    pub fn exec_paths(&self) -> (r: Vec<&FilePath>)
        ensures
            r@.map_values(|p: &FilePath| p@) == kind_paths(self.grants@, 2),
    {
        self.paths_of_kind(2)
    }

    /// Whether some grant is of this kind.
    fn wants(&self, kind: u8) -> (r: bool)
        ensures
            r == has_kind(self.grants@, kind as int),
    {
        let mut i: usize = 0;
        while i < self.grants.len()
            invariant
                i <= self.grants@.len(),
                forall|j: int|
                    0 <= j < i ==> kind_of((#[trigger] self.grants@[j]).permission@) != kind,
            decreases self.grants@.len() - i,
        {
            if self.grants[i].permission.kind() == kind {
                return true;
            }
            i += 1;
        }
        false
    }

    /// Whether the network is granted.
    pub fn wants_network(&self) -> (r: bool)
        ensures
            r == has_kind(self.grants@, 3),
    {
        self.wants(3)
    }

    /// Whether starting processes is granted.
    pub fn wants_spawn(&self) -> (r: bool)
        ensures
            r == has_kind(self.grants@, 4),
    {
        self.wants(4)
    }
}

/// A profile is final: adding it up once more gives the same permissions, each with
/// the same origins and the same lines.
pub proof fn lemma_profile_is_final(all: Seq<Grant>, kept: Seq<Grant>, again: Seq<Grant>, k: int) -> (l:
    int)
    requires
        profile_of(all, kept),
        profile_of(kept, again),
        0 <= k < kept.len(),
    ensures
        0 <= l < again.len(),
        again[l].permission@ == kept[k].permission@,
        forall|origin: Provenance| #[trigger]
            again[l].provenance@.contains(origin) <==> kept[k].provenance@.contains(origin),
        forall|line: Seq<char>| #[trigger]
            texts(again[l].evidence@).contains(line) <==> texts(kept[k].evidence@).contains(line),
{
    let p = kept[k].permission@;
    let l = lemma_final_place(all, kept, again, k);
    assert forall|origin: Provenance| #[trigger]
        again[l].provenance@.contains(origin) <==> kept[k].provenance@.contains(origin) by {
        lemma_final_origin(all, kept, k, origin);
    }
    assert forall|line: Seq<char>| #[trigger]
        texts(again[l].evidence@).contains(line) <==> texts(kept[k].evidence@).contains(line) by {
        lemma_final_line(all, kept, k, line);
    }
    l
}

proof fn lemma_final_place(all: Seq<Grant>, kept: Seq<Grant>, again: Seq<Grant>, k: int) -> (l: int)
    requires
        profile_of(all, kept),
        profile_of(kept, again),
        0 <= k < kept.len(),
    ensures
        0 <= l < again.len(),
        gathered(kept, kept[k].permission@, again[l]),
{
    let p = kept[k].permission@;
    assert(accounted_for(again, p));
    let l = choose|l: int| 0 <= l < again.len() && stands_for((#[trigger] again[l]).permission@, p);
    let q = again[l].permission@;
    assert(added_up(kept, again[l]));
    let j = choose|j: int| 0 <= j < kept.len() && (#[trigger] kept[j]).permission@ == q;
    lemma_kept_apart(all, kept, j, k);
    l
}

proof fn lemma_final_origin(all: Seq<Grant>, kept: Seq<Grant>, k: int, origin: Provenance)
    requires
        profile_of(all, kept),
        0 <= k < kept.len(),
    ensures
        origin_from(kept, kept[k].permission@, origin) <==> kept[k].provenance@.contains(origin),
{
    let p = kept[k].permission@;
    lemma_same_as_itself(p);
    if origin_from(kept, p, origin) {
        let i = choose|i: int|
            0 <= i < kept.len() && stands_for(p, (#[trigger] kept[i]).permission@)
                && kept[i].provenance@.contains(origin);
        lemma_kept_apart(all, kept, k, i);
    }
}

proof fn lemma_final_line(all: Seq<Grant>, kept: Seq<Grant>, k: int, line: Seq<char>)
    requires
        profile_of(all, kept),
        0 <= k < kept.len(),
    ensures
        line_from(kept, kept[k].permission@, line) <==> texts(kept[k].evidence@).contains(line),
{
    let p = kept[k].permission@;
    lemma_same_as_itself(p);
    if line_from(kept, p, line) {
        let i = choose|i: int| 0 <= i < kept.len() && gives_line(#[trigger] kept[i], p, line);
        lemma_kept_apart(all, kept, k, i);
    }
    if texts(kept[k].evidence@).contains(line) {
        assert(gives_line(kept[k], p, line));
    }
}

proof fn lemma_same_as_itself(p: PermissionView)
    ensures
        same_permission(p, p),
        !covers(p, p),
{
}

/// No grant of a profile stands for another one.
proof fn lemma_kept_apart(all: Seq<Grant>, kept: Seq<Grant>, j: int, k: int)
    requires
        profile_of(all, kept),
        0 <= j < kept.len(),
        0 <= k < kept.len(),
        stands_for(kept[j].permission@, kept[k].permission@),
    ensures
        j == k,
{
    let p = kept[j].permission@;
    let q = kept[k].permission@;
    assert(added_up(all, kept[j]));
    let i = choose|i: int| 0 <= i < all.len() && (#[trigger] all[i]).permission@ == p;
    assert(added_up(all, kept[k]));
    assert(!covers(all[i].permission@, q));
    assert(same_permission(p, q));
    if j < k {
        assert(!same_permission(kept[j].permission@, kept[k].permission@));
    } else if k < j {
        assert(!same_permission(kept[k].permission@, kept[j].permission@));
    }
}

/// The grants of several profiles, one after the other.
pub open spec fn all_grants(sets: Seq<Permissions>) -> Seq<Grant>
    decreases sets.len(),
{
    if sets.len() == 0 {
        Seq::empty()
    } else {
        all_grants(sets.drop_last()) + sets.last().grants@
    }
}

/// The paths of the grants of one kind, in order.
pub open spec fn kind_paths(grants: Seq<Grant>, kind: int) -> Seq<Seq<u8>>
    decreases grants.len(),
{
    if grants.len() == 0 {
        Seq::empty()
    } else {
        let rest = kind_paths(grants.drop_last(), kind);
        let p = grants.last().permission@;
        if kind_of(p) == kind {
            rest.push(path_of(p)->0)
        } else {
            rest
        }
    }
}

/// Some grant is of this kind.
pub open spec fn has_kind(grants: Seq<Grant>, kind: int) -> bool {
    exists|i: int| 0 <= i < grants.len() && kind_of((#[trigger] grants[i]).permission@) == kind
}

/// One line naming what a profile came to. Path kinds are always counted, zero
/// included; `network` and `spawn` appear only when granted.
pub open spec fn summary_text(grants: Seq<Grant>) -> Seq<char> {
    decimal(kind_paths(grants, 0).len()) + " read, "@ + decimal(kind_paths(grants, 1).len())
        + " write, "@ + decimal(kind_paths(grants, 2).len()) + " exec"@ + (if has_kind(grants, 3) {
        ", network"@
    } else {
        Seq::empty()
    }) + (if has_kind(grants, 4) {
        ", spawn"@
    } else {
        Seq::empty()
    })
}

/// One line naming what a profile came to, for the build log.
pub fn summarise(permissions: &Permissions) -> (r: String)
    ensures
        r@ == summary_text(permissions.grants@),
{
    let read = permissions.read_paths();
    let write = permissions.write_paths();
    let exec = permissions.exec_paths();
    proof {
        assert(read@.map_values(|p: &FilePath| p@).len() == read@.len());
        assert(write@.map_values(|p: &FilePath| p@).len() == write@.len());
        assert(exec@.map_values(|p: &FilePath| p@).len() == exec@.len());
    }
    let mut r = String::new();
    push_decimal(&mut r, read.len() as u64);
    r.push_str(" read, ");
    push_decimal(&mut r, write.len() as u64);
    r.push_str(" write, ");
    push_decimal(&mut r, exec.len() as u64);
    r.push_str(" exec");
    if permissions.wants_network() {
        r.push_str(", network");
    }
    if permissions.wants_spawn() {
        r.push_str(", spawn");
    }
    assert(r@ =~= summary_text(permissions.grants@));
    r
}

/// Path `b` is `a`, or lies below it: it starts with the components of `a`, has more, and
/// does not climb.
pub open spec fn lies_within(a: Seq<u8>, b: Seq<u8>) -> bool {
    let x = crate::path::components(a);
    let y = crate::path::components(b);
    x == y || {
        &&& x.len() < y.len()
        &&& forall|i: int| 0 <= i < x.len() ==> #[trigger] x[i] == y[i]
        &&& forall|i: int| 0 <= i < y.len() ==> #[trigger] y[i] != seq![0x2eu8, 0x2eu8]
    }
}

/// Whoever may do `p` may do `q`.
pub open spec fn permits(p: PermissionView, q: PermissionView) -> bool {
    match (p, q) {
        (PermissionView::ReadPath(a), PermissionView::ReadPath(b)) => lies_within(a, b),
        (PermissionView::WritePath(a), PermissionView::WritePath(b)) => lies_within(a, b),
        (PermissionView::ExecPath(a), PermissionView::ExecPath(b)) => lies_within(a, b),
        (PermissionView::Network, PermissionView::Network) => true,
        (PermissionView::Spawn, PermissionView::Spawn) => true,
        _ => false,
    }
}

/// A grant stands for what it permits. It covers what it permits and is not permitted by
/// it in turn, and two are the same that permit one another.
pub proof fn lemma_standing_for_is_permitting(p: PermissionView, q: PermissionView)
    ensures
        stands_for(p, q) <==> permits(p, q),
        covers(p, q) <==> permits(p, q) && !permits(q, p),
        same_permission(p, q) <==> permits(p, q) && permits(q, p),
{
    lemma_within(p, q);
    lemma_within(q, p);
    lemma_covers(p, q, p);
    lemma_covers(q, p, q);
}

proof fn lemma_within(p: PermissionView, q: PermissionView)
    ensures
        stands_for(p, q) <==> permits(p, q),
        same_permission(p, q) ==> permits(q, p),
        covers(p, q) ==> !permits(q, p),
{
    if kind_of(p) == kind_of(q) && path_of(p) is Some {
        let x = crate::path::components(path_of(p)->0);
        let y = crate::path::components(path_of(q)->0);
        if x.is_prefix_of(y) {
            assert forall|i: int| 0 <= i < x.len() implies #[trigger] x[i] == y[i] by {
                assert(y.subrange(0, x.len() as int)[i] == x[i]);
            }
            if x.len() == y.len() {
                assert(x =~= y);
            }
        }
        if x.len() < y.len() && (forall|i: int| 0 <= i < x.len() ==> #[trigger] x[i] == y[i]) {
            assert(x =~= y.subrange(0, x.len() as int));
            assert(x.is_prefix_of(y));
        }
        if covers(p, q) {
            assert(x =~= y.subrange(0, x.len() as int));
            assert(x.len() < y.len()) by {
                if x.len() == y.len() {
                    assert(x =~= y);
                }
            }
            assert forall|i: int| 0 <= i < y.len() implies #[trigger] y[i] != seq![
                0x2eu8,
                0x2eu8,
            ] by {
                assert(!y.contains(seq![crate::path::DOT, crate::path::DOT]));
            }
        }
    }
}

proof fn lemma_kept_places(all: Seq<Grant>, n: int) -> (p: Seq<int>)
    requires
        0 <= n <= all.len(),
    ensures
        p.len() == kept_permissions(all, n).len(),
        forall|a: int|
            0 <= a < p.len() ==> 0 <= #[trigger] p[a] < n && kept_permissions(all, n)[a]
                == all[p[a]].permission@ && uncovered(all, all[p[a]].permission@),
        forall|a: int, b: int| 0 <= a < b < p.len() ==> #[trigger] p[a] < #[trigger] p[b],
        forall|a: int, i: int|
            0 <= a < p.len() && 0 <= i < p[a] ==> !same_permission(
                (#[trigger] all[i]).permission@,
                all[#[trigger] p[a]].permission@,
            ),
        forall|i: int|
            0 <= i < n && uncovered(all, (#[trigger] all[i]).permission@) ==> lists_permission(
                kept_permissions(all, n),
                all[i].permission@,
            ),
    decreases n,
{
    if n == 0 {
        Seq::empty()
    } else {
        let q = lemma_kept_places(all, n - 1);
        let rest = kept_permissions(all, n - 1);
        let kept = kept_permissions(all, n);
        let new = all[n - 1].permission@;
        let p = if uncovered(all, new) && !lists_permission(rest, new) {
            q.push(n - 1)
        } else {
            q
        };
        assert forall|a: int| 0 <= a < p.len() implies 0 <= #[trigger] p[a] < n && kept[a]
            == all[p[a]].permission@ && uncovered(all, all[p[a]].permission@) by {
            if a < q.len() {
                assert(p[a] == q[a]);
                assert(kept[a] == rest[a]);
            }
        }
        assert forall|i: int| 0 <= i < n && uncovered(all, (#[trigger] all[i]).permission@) implies
            lists_permission(kept, all[i].permission@) by {
            if i < n - 1 {
                let k = choose|k: int|
                    0 <= k < rest.len() && same_permission(
                        #[trigger] rest[k],
                        all[i].permission@,
                    );
                assert(kept[k] == rest[k]);
            } else {
                lemma_same_as_itself(new);
                if lists_permission(rest, new) {
                    let k = choose|k: int|
                        0 <= k < rest.len() && same_permission(#[trigger] rest[k], new);
                    assert(kept[k] == rest[k]);
                } else {
                    assert(kept[kept.len() - 1] == new);
                }
            }
        }
        assert forall|a: int, i: int| 0 <= a < p.len() && 0 <= i < p[a] implies !same_permission(
            (#[trigger] all[i]).permission@,
            all[#[trigger] p[a]].permission@,
        ) by {
            if a < q.len() {
                assert(p[a] == q[a]);
            } else if same_permission(all[i].permission@, new) {
                let old_one = all[i].permission@;
                assert(uncovered(all, old_one)) by {
                    assert forall|j: int| 0 <= j < all.len() implies !covers(
                        (#[trigger] all[j]).permission@,
                        old_one,
                    ) by {
                        lemma_covers(all[j].permission@, old_one, new);
                    }
                }
                let k = choose|k: int|
                    0 <= k < rest.len() && same_permission(#[trigger] rest[k], old_one);
                lemma_covers(rest[k], old_one, new);
                assert(lists_permission(rest, new));
            }
        }
        p
    }
}

/// A profile holds, in the order they first occur, the things that are granted and not
/// permitted by anything wider that is granted as well. `p` says where each is first
/// granted. Whatever is granted is permitted by something in the profile. A grant of the
/// profile has the origins of all it permits, and no others.
pub proof fn lemma_what_a_profile_holds(all: Seq<Grant>, grants: Seq<Grant>) -> (p: Seq<int>)
    requires
        adds_up_to(all, grants),
    ensures
        p.len() == grants.len(),
        forall|a: int|
            0 <= a < p.len() ==> 0 <= #[trigger] p[a] < all.len() && grants[a].permission@
                == all[p[a]].permission@,
        forall|a: int, b: int| 0 <= a < b < p.len() ==> #[trigger] p[a] < #[trigger] p[b],
        forall|a: int, i: int|
            0 <= a < p.len() && 0 <= i < all.len() && permits(
                (#[trigger] all[i]).permission@,
                all[#[trigger] p[a]].permission@,
            ) ==> p[a] <= i && permits(all[p[a]].permission@, all[i].permission@),
        forall|i: int|
            0 <= i < all.len() ==> exists|a: int|
                0 <= a < grants.len() && permits(
                    (#[trigger] grants[a]).permission@,
                    (#[trigger] all[i]).permission@,
                ),
        forall|a: int, origin: Provenance|
            0 <= a < grants.len() ==> (#[trigger] grants[a].provenance@.contains(origin)
                <==> exists|i: int|
                0 <= i < all.len() && permits(grants[a].permission@, (#[trigger] all[i]).permission@)
                    && all[i].provenance@.contains(origin)),
{
    let p = lemma_kept_places(all, all.len() as int);
    let kept = kept_permissions(all, all.len() as int);
    assert(permission_views(grants) == kept);
    assert(kept.len() == grants.len());
    assert forall|a: int| 0 <= a < p.len() implies 0 <= #[trigger] p[a] < all.len()
        && grants[a].permission@ == all[p[a]].permission@ by {
        assert(permission_views(grants)[a] == grants[a].permission@);
    }
    assert forall|a: int, i: int|
        0 <= a < p.len() && 0 <= i < all.len() && permits(
            (#[trigger] all[i]).permission@,
            all[#[trigger] p[a]].permission@,
        ) implies p[a] <= i && permits(all[p[a]].permission@, all[i].permission@) by {
        lemma_standing_for_is_permitting(all[i].permission@, all[p[a]].permission@);
        assert(uncovered(all, all[p[a]].permission@));
        assert(!covers(all[i].permission@, all[p[a]].permission@));
    }
    assert forall|i: int| 0 <= i < all.len() implies exists|a: int|
        0 <= a < grants.len() && permits(
            (#[trigger] grants[a]).permission@,
            (#[trigger] all[i]).permission@,
        ) by {
        assert(accounted_for(grants, all[i].permission@));
        let a = choose|a: int|
            0 <= a < grants.len() && stands_for(
                (#[trigger] grants[a]).permission@,
                all[i].permission@,
            );
        lemma_standing_for_is_permitting(grants[a].permission@, all[i].permission@);
    }
    assert forall|a: int, origin: Provenance|
        0 <= a < grants.len() implies (#[trigger] grants[a].provenance@.contains(origin)
        <==> exists|i: int|
        0 <= i < all.len() && permits(grants[a].permission@, (#[trigger] all[i]).permission@)
            && all[i].provenance@.contains(origin)) by {
        let g = grants[a];
        assert(added_up(all, grants[a]));
        assert(gathered(all, g.permission@, g));
        if g.provenance@.contains(origin) {
            assert(origin_from(all, g.permission@, origin));
            let i = choose|i: int|
                0 <= i < all.len() && stands_for(g.permission@, (#[trigger] all[i]).permission@)
                    && all[i].provenance@.contains(origin);
            lemma_standing_for_is_permitting(g.permission@, all[i].permission@);
        }
        if exists|i: int|
            0 <= i < all.len() && permits(g.permission@, (#[trigger] all[i]).permission@)
                && all[i].provenance@.contains(origin) {
            let i = choose|i: int|
                0 <= i < all.len() && permits(g.permission@, (#[trigger] all[i]).permission@)
                    && all[i].provenance@.contains(origin);
            lemma_standing_for_is_permitting(g.permission@, all[i].permission@);
            assert(origin_from(all, g.permission@, origin));
        }
    }
    p
}

/// A grant of a profile has every line of what it permits, and one more for each thing
/// that is narrower, which says that it is covered and names its path. It has no others.
pub proof fn lemma_lines_of_a_profile(
    all: Seq<Grant>,
    grants: Seq<Grant>,
    a: int,
    i: int,
    line: Seq<char>,
)
    requires
        adds_up_to(all, grants),
        0 <= a < grants.len(),
        0 <= i < all.len(),
        permits(grants[a].permission@, all[i].permission@),
    ensures
        texts(all[i].evidence@).contains(line) ==> texts(grants[a].evidence@).contains(line),
        !permits(all[i].permission@, grants[a].permission@) ==> (match all[i].permission {
            Permission::ReadPath(path) => texts(grants[a].evidence@).contains(
                "covers "@ + lossy(path@),
            ),
            Permission::WritePath(path) => texts(grants[a].evidence@).contains(
                "covers "@ + lossy(path@),
            ),
            Permission::ExecPath(path) => texts(grants[a].evidence@).contains(
                "covers "@ + lossy(path@),
            ),
            _ => false,
        }),
{
    let g = grants[a];
    lemma_standing_for_is_permitting(g.permission@, all[i].permission@);
    assert(added_up(all, grants[a]));
    assert(gathered(all, g.permission@, g));
    if texts(all[i].evidence@).contains(line) {
        assert(gives_line(all[i], g.permission@, line));
        assert(line_from(all, g.permission@, line));
    }
    if !permits(all[i].permission@, g.permission@) {
        let told = covers_line(all[i].permission@);
        assert(gives_line(all[i], g.permission@, told));
        assert(line_from(all, g.permission@, told));
    }
}

/// A line of a profile's grant comes from a grant that it permits, `i`: it is one of that
/// grant's own, or it says that the grant is covered.
pub proof fn lemma_lines_come_from_somewhere(
    all: Seq<Grant>,
    grants: Seq<Grant>,
    a: int,
    line: Seq<char>,
) -> (i: int)
    requires
        adds_up_to(all, grants),
        0 <= a < grants.len(),
        texts(grants[a].evidence@).contains(line),
    ensures
        0 <= i < all.len(),
        permits(grants[a].permission@, all[i].permission@),
        texts(all[i].evidence@).contains(line) || !permits(
            all[i].permission@,
            grants[a].permission@,
        ) && (match all[i].permission {
            Permission::ReadPath(path) => line == "covers "@ + lossy(path@),
            Permission::WritePath(path) => line == "covers "@ + lossy(path@),
            Permission::ExecPath(path) => line == "covers "@ + lossy(path@),
            _ => false,
        }),
{
    let g = grants[a];
    assert(added_up(all, grants[a]));
    assert(gathered(all, g.permission@, g));
    assert(line_from(all, g.permission@, line));
    let i = choose|i: int| 0 <= i < all.len() && gives_line(#[trigger] all[i], g.permission@, line);
    lemma_standing_for_is_permitting(g.permission@, all[i].permission@);
    i
}

/// What is merged is the grants of one profile after those of another.
pub proof fn lemma_profiles_follow_one_another(sets: Seq<Permissions>, last: Permissions)
    ensures
        all_grants(Seq::empty()).len() == 0,
        all_grants(sets.push(last)) == all_grants(sets) + last.grants@,
{
    assert(sets.push(last).drop_last() =~= sets);
}

proof fn lemma_paths_by_kind(grants: Seq<Grant>, kind: int) -> (p: Seq<int>)
    ensures
        p.len() == kind_paths(grants, kind).len(),
        forall|a: int|
            0 <= a < p.len() ==> 0 <= #[trigger] p[a] < grants.len() && kind_of(
                grants[p[a]].permission@,
            ) == kind && kind_paths(grants, kind)[a] == path_of(grants[p[a]].permission@)->0,
        forall|a: int, b: int| 0 <= a < b < p.len() ==> #[trigger] p[a] < #[trigger] p[b],
        forall|i: int|
            0 <= i < grants.len() && kind_of((#[trigger] grants[i]).permission@) == kind
                ==> p.contains(i),
    decreases grants.len(),
{
    if grants.len() == 0 {
        Seq::empty()
    } else {
        let rest = grants.drop_last();
        let q = lemma_paths_by_kind(rest, kind);
        let n = grants.len() - 1;
        assert(grants[n] == grants.last());
        let p = if kind_of(grants.last().permission@) == kind {
            q.push(n)
        } else {
            q
        };
        assert forall|i: int|
            0 <= i < grants.len() && kind_of((#[trigger] grants[i]).permission@) == kind implies
            p.contains(i) by {
            if i < n {
                assert(rest[i] == grants[i]);
                let a = choose|a: int| 0 <= a < q.len() && q[a] == i;
                assert(p[a] == i);
            } else {
                assert(p[p.len() - 1] == i);
            }
        }
        assert forall|a: int| 0 <= a < p.len() implies 0 <= #[trigger] p[a] < grants.len()
            && kind_of(grants[p[a]].permission@) == kind && kind_paths(grants, kind)[a] == path_of(
            grants[p[a]].permission@,
        )->0 by {
            if a < q.len() {
                assert(p[a] == q[a]);
                assert(rest[q[a]] == grants[q[a]]);
                assert(kind_paths(grants, kind)[a] == kind_paths(rest, kind)[a]);
            }
        }
        p
    }
}

/// The paths that may be read, written and executed are those that the grants of that
/// sort name, in order: `r`, `w` and `x` say which grants those are. Network and
/// processes are granted when a grant says so.
pub proof fn lemma_what_is_granted(grants: Seq<Grant>) -> (rwx: (Seq<int>, Seq<int>, Seq<int>))
    ensures
        ({
            let (r, w, x) = rwx;
            &&& r.len() == kind_paths(grants, 0).len()
            &&& w.len() == kind_paths(grants, 1).len()
            &&& x.len() == kind_paths(grants, 2).len()
            &&& forall|a: int|
                0 <= a < r.len() ==> 0 <= #[trigger] r[a] < grants.len()
                    && grants[r[a]].permission@ == PermissionView::ReadPath(
                    kind_paths(grants, 0)[a],
                )
            &&& forall|a: int|
                0 <= a < w.len() ==> 0 <= #[trigger] w[a] < grants.len()
                    && grants[w[a]].permission@ == PermissionView::WritePath(
                    kind_paths(grants, 1)[a],
                )
            &&& forall|a: int|
                0 <= a < x.len() ==> 0 <= #[trigger] x[a] < grants.len()
                    && grants[x[a]].permission@ == PermissionView::ExecPath(
                    kind_paths(grants, 2)[a],
                )
            &&& forall|a: int, b: int| 0 <= a < b < r.len() ==> #[trigger] r[a] < #[trigger] r[b]
            &&& forall|a: int, b: int| 0 <= a < b < w.len() ==> #[trigger] w[a] < #[trigger] w[b]
            &&& forall|a: int, b: int| 0 <= a < b < x.len() ==> #[trigger] x[a] < #[trigger] x[b]
            &&& forall|i: int|
                0 <= i < grants.len() ==> match (#[trigger] grants[i]).permission {
                    Permission::ReadPath(_) => r.contains(i),
                    Permission::WritePath(_) => w.contains(i),
                    Permission::ExecPath(_) => x.contains(i),
                    Permission::Network => has_kind(grants, 3),
                    Permission::Spawn => has_kind(grants, 4),
                }
        }),
        has_kind(grants, 3) ==> exists|i: int|
            0 <= i < grants.len() && (#[trigger] grants[i]).permission is Network,
        has_kind(grants, 4) ==> exists|i: int|
            0 <= i < grants.len() && (#[trigger] grants[i]).permission is Spawn,
{
    let r = lemma_paths_by_kind(grants, 0);
    let w = lemma_paths_by_kind(grants, 1);
    let x = lemma_paths_by_kind(grants, 2);
    (r, w, x)
}

/// A summary counts the paths of each sort, and names the network and processes where
/// they are granted.
pub proof fn lemma_what_a_summary_counts(grants: Seq<Grant>)
    ensures
        ({
            let counts = decimal(kind_paths(grants, 0).len()) + " read, "@ + decimal(
                kind_paths(grants, 1).len(),
            ) + " write, "@ + decimal(kind_paths(grants, 2).len()) + " exec"@;
            let network = exists|i: int|
                0 <= i < grants.len() && (#[trigger] grants[i]).permission is Network;
            let spawn = exists|i: int|
                0 <= i < grants.len() && (#[trigger] grants[i]).permission is Spawn;
            &&& !network && !spawn ==> summary_text(grants) == counts
            &&& network && !spawn ==> summary_text(grants) == counts + ", network"@
            &&& !network && spawn ==> summary_text(grants) == counts + ", spawn"@
            &&& network && spawn ==> summary_text(grants) == counts + ", network"@ + ", spawn"@
        }),
{
    let counts = decimal(kind_paths(grants, 0).len()) + " read, "@ + decimal(
        kind_paths(grants, 1).len(),
    ) + " write, "@ + decimal(kind_paths(grants, 2).len()) + " exec"@;
    let network = exists|i: int|
        0 <= i < grants.len() && (#[trigger] grants[i]).permission is Network;
    let spawn = exists|i: int| 0 <= i < grants.len() && (#[trigger] grants[i]).permission is Spawn;
    if network {
        let i = choose|i: int| 0 <= i < grants.len() && (#[trigger] grants[i]).permission is Network;
        assert(kind_of(grants[i].permission@) == 3);
    }
    if spawn {
        let i = choose|i: int| 0 <= i < grants.len() && (#[trigger] grants[i]).permission is Spawn;
        assert(kind_of(grants[i].permission@) == 4);
    }
    assert(network <==> has_kind(grants, 3));
    assert(spawn <==> has_kind(grants, 4));
    assert(counts + Seq::<char>::empty() + Seq::<char>::empty() =~= counts);
    assert(counts + Seq::<char>::empty() + ", spawn"@ =~= counts + ", spawn"@);
    assert(counts + ", network"@ + Seq::<char>::empty() =~= counts + ", network"@);
}

/// Origins are listed in one order: the sources first, then the binaries, then what was
/// seen; each of them once.
pub proof fn lemma_order_of_origins(list: Seq<Provenance>, i: int, j: int)
    requires
        origins_in_order(list),
        0 <= i < j < list.len(),
    ensures
        list[i] is SourceAnalysis ==> !(list[j] is SourceAnalysis),
        list[i] is ElfAnalysis ==> list[j] is RuntimeMonitor,
        !(list[i] is RuntimeMonitor),
{
    assert(origin_rank(list[i]) < origin_rank(list[j]));
}

} // verus!
