//! The jail build steps run in.
//!
//! The working directory and the staging directory are the only writable mounts.
//! Everything else a build may read is mounted read-only at its own path: the
//! toolchain directories of the search path, and what the caller names. The
//! network is out of reach unless the policy grants it.
//!
//! A command is split on white space and executed directly: there is no shell.

use vstd::prelude::*;
use vstd::utf8::{decode_utf8, encode_utf8, valid_utf8};

use crate::bf::optional_path;
use crate::context::BuildContext;
use crate::path::{
    absolute_only, below, entries_from, is_absolute, joined_path, lossy, lossy_text, parent_of,
    path_before, paths, same_path, starts_with, FilePath,
};
use crate::policy::BuildPolicy;
use crate::progress::Task;
use crate::report::{said, wrapped, Report, ReportView};
use crate::text::{
    characters, join, joined, push_signed, signed_decimal, split_words, string_of, texts, trim,
    trim_end, trimmed, trimmed_end, words_from,
};

verus! {

/// Where the step's working directory is mounted inside the jail.
pub const CONTAINER_WORKDIR: &'static str = "/build";

/// Where the staging directory is mounted inside the jail.
pub const CONTAINER_DESTDIR: &'static str = "/dest";

/// The search path handed to sandboxed commands.
pub const CONTAINER_PATH: &'static str = "/usr/local/bin:/usr/local/sbin:/usr/bin:/usr/sbin:/bin:/sbin";

/// Immutable store a Nix-provisioned toolchain resolves into.
pub const NIX_STORE: &'static str = "/nix/store";

/// The system directories the jail mirrors from the host.
pub open spec fn rootfs_texts() -> Seq<Seq<char>> {
    seq!["/bin"@, "/etc"@, "/lib"@, "/lib32"@, "/lib64"@, "/sbin"@, "/usr"@]
}

/// The system directories the jail mirrors from the host, as paths.
pub open spec fn rootfs_paths() -> Seq<Seq<u8>> {
    rootfs_texts().map_values(|t: Seq<char>| encode_utf8(t))
}

/// The system directories the jail mirrors from the host.
pub fn rootfs_roots() -> (r: Vec<FilePath>)
    ensures
        paths(r@) == rootfs_paths(),
{
    let r = vec![
        FilePath::from_text("/bin"),
        FilePath::from_text("/etc"),
        FilePath::from_text("/lib"),
        FilePath::from_text("/lib32"),
        FilePath::from_text("/lib64"),
        FilePath::from_text("/sbin"),
        FilePath::from_text("/usr"),
    ];
    assert(paths(r@) =~= rootfs_paths());
    r
}

/// `p` lies in or under one of `roots`.
pub open spec fn within(p: Seq<u8>, roots: Seq<Seq<u8>>) -> bool {
    exists|i: int| 0 <= i < roots.len() && starts_with(p, #[trigger] roots[i])
}

/// Whether `p` lies in or under one of `roots`.
fn is_within(p: &FilePath, roots: &Vec<FilePath>) -> (r: bool)
    ensures
        r == within(p@, paths(roots@)),
{
    let mut i: usize = 0;
    while i < roots.len()
        invariant
            i <= roots@.len(),
            forall|j: int| 0 <= j < i ==> !starts_with(p@, #[trigger] paths(roots@)[j]),
        decreases roots@.len() - i,
    {
        assert(paths(roots@)[i as int] == roots@[i as int]@);
        if p.starts_with(&roots[i]) {
            return true;
        }
        i += 1;
    }
    false
}

/// A directory of executables that the jail may be given: not the root directory,
/// not mirrored already, and neither in the home directory nor around it.
pub open spec fn admitted(p: Seq<u8>, home: Option<Seq<u8>>) -> bool {
    &&& parent_of(p) is Some
    &&& !within(p, rootfs_paths())
    &&& home is Some ==> !starts_with(home->0, p) && !starts_with(p, home->0)
}

/// The paths of `list` stand in order, and no two of them are the same.
pub open spec fn in_order(list: Seq<Seq<u8>>) -> bool {
    forall|i: int, j: int|
        0 <= i < j < list.len() ==> path_before(#[trigger] list[i], #[trigger] list[j])
}

/// Some path of `list` is the same as `p`.
pub open spec fn has_path(list: Seq<Seq<u8>>, p: Seq<u8>) -> bool {
    exists|i: int| 0 <= i < list.len() && same_path(#[trigger] list[i], p)
}

/// `roots` are the admitted directories of `candidates` that lie in no other one,
/// in order.
pub open spec fn outermost(
    candidates: Seq<Seq<u8>>,
    home: Option<Seq<u8>>,
    roots: Seq<Seq<u8>>,
) -> bool {
    &&& in_order(roots)
    &&& forall|i: int|
        0 <= i < roots.len() ==> candidates.contains(#[trigger] roots[i]) && admitted(
            roots[i],
            home,
        )
    &&& forall|i: int, k: int|
        0 <= i < roots.len() && 0 <= k < candidates.len() && admitted(candidates[k], home)
            && starts_with(#[trigger] roots[i], #[trigger] candidates[k]) ==> same_path(
            roots[i],
            candidates[k],
        )
    &&& forall|k: int|
        0 <= k < candidates.len() && admitted(#[trigger] candidates[k], home) ==> within(
            candidates[k],
            roots,
        )
}

/// No toolchain directory is in the home directory or around it, so the jail never
/// has a home directory of the host's at all.
pub proof fn lemma_home_is_never_mounted(
    candidates: Seq<Seq<u8>>,
    home: Seq<u8>,
    roots: Seq<Seq<u8>>,
    i: int,
)
    requires
        outermost(candidates, Some(home), roots),
        0 <= i < roots.len(),
    ensures
        !starts_with(home, roots[i]),
        !starts_with(roots[i], home),
{
    assert(admitted(roots[i], Some(home)));
}

/// Put `p` into a list of paths that stand in order, unless it is there already.
fn insert_in_order(list: &mut Vec<FilePath>, p: &FilePath)
    requires
        in_order(paths(old(list)@)),
    ensures
        in_order(paths(final(list)@)),
        forall|x: Seq<u8>| #[trigger]
            paths(final(list)@).contains(x) ==> paths(old(list)@).contains(x) || x == p@,
        forall|x: Seq<u8>|
            has_path(paths(old(list)@), x) ==> #[trigger] has_path(paths(final(list)@), x),
        has_path(paths(final(list)@), p@),
{
    let ghost before = paths(list@);
    let mut at: usize = 0;
    while at < list.len() && list[at].before(p)
        invariant
            at <= list@.len(),
            before == paths(list@),
            forall|j: int| 0 <= j < at ==> path_before(#[trigger] before[j], p@),
        decreases list@.len() - at,
    {
        assert(before[at as int] == list@[at as int]@);
        at += 1;
    }
    if at < list.len() && list[at].same(p) {
        assert(before[at as int] == list@[at as int]@);
        return;
    }
    list.insert(at, p.clone());
    proof {
        let after = paths(list@);
        assert(after =~= before.insert(at as int, p@));
        assert forall|i: int, j: int| 0 <= i < j < after.len() implies path_before(
            #[trigger] after[i],
            #[trigger] after[j],
        ) by {
            if j < at {
                assert(after[i] == before[i] && after[j] == before[j]);
            } else if i > at {
                assert(after[i] == before[i - 1] && after[j] == before[j - 1]);
            } else if j == at {
                assert(after[i] == before[i]);
            } else {
                lemma_order(before[at as int], p@, p@);
                if i == at {
                    assert(path_before(p@, before[at as int]));
                    if j - 1 > at {
                        assert(path_before(before[at as int], before[j - 1]));
                        lemma_order(p@, before[at as int], before[j - 1]);
                    }
                } else {
                    assert(after[i] == before[i] && after[j] == before[j - 1]);
                }
            }
        }
        assert(after[at as int] == p@);
        assert forall|x: Seq<u8>| #[trigger] after.contains(x) implies before.contains(x) || x
            == p@ by {
            let i = choose|i: int| 0 <= i < after.len() && after[i] == x;
            if i < at {
                assert(before[i] == x);
            } else if i > at {
                assert(before[i - 1] == x);
            }
        }
        assert forall|x: Seq<u8>| has_path(before, x) implies #[trigger] has_path(after, x) by {
            let i = choose|i: int| 0 <= i < before.len() && same_path(#[trigger] before[i], x);
            if i < at {
                assert(after[i] == before[i]);
            } else {
                assert(after[i + 1] == before[i]);
            }
        }
    }
}

proof fn lemma_order(a: Seq<u8>, b: Seq<u8>, c: Seq<u8>)
    ensures
        same_path(a, b) || path_before(a, b) || path_before(b, a),
        path_before(a, b) && path_before(b, c) ==> path_before(a, c),
        !path_before(a, a),
{
    crate::path::lemma_path_order(a, b, c);
}

/// What lies in a directory that lies in another lies in the other.
proof fn lemma_within_transitive(a: Seq<u8>, b: Seq<u8>, c: Seq<u8>)
    requires
        starts_with(a, b),
        starts_with(b, c),
    ensures
        starts_with(a, c),
{
    let (x, y, z) = (
        crate::path::components(a),
        crate::path::components(b),
        crate::path::components(c),
    );
    assert(z =~= x.subrange(0, z.len() as int)) by {
        assert forall|i: int| 0 <= i < z.len() implies z[i] == x[i] by {
            assert(z[i] == y.subrange(0, z.len() as int)[i]);
            assert(y[i] == x.subrange(0, y.len() as int)[i]);
        }
    }
}

proof fn lemma_same_is_within(a: Seq<u8>, b: Seq<u8>)
    requires
        same_path(a, b),
    ensures
        starts_with(a, b),
{
    let x = crate::path::components(a);
    assert(x =~= x.subrange(0, x.len() as int));
}

/// Whether the jail may be given the directory `p`.
fn is_admitted(p: &FilePath, home: &Option<FilePath>, mirrored: &Vec<FilePath>) -> (r: bool)
    requires
        paths(mirrored@) == rootfs_paths(),
    ensures
        r == admitted(p@, optional_path(*home)),
{
    if p.parent().is_none() {
        return false;
    }
    if is_within(p, mirrored) {
        return false;
    }
    match home {
        Some(h) => !(h.starts_with(p) || p.starts_with(h)),
        None => true,
    }
}

/// Directories holding executables that the jail does not mirror already, out of
/// the directories `found` for the entries of the search path.
pub fn toolchain_roots(found: &Vec<FilePath>, home: &Option<FilePath>) -> (r: Vec<FilePath>)
    ensures
        outermost(paths(found@), optional_path(*home), paths(r@)),
{
    let ghost all = paths(found@);
    let ghost house = optional_path(*home);
    let mut candidates: Vec<FilePath> = Vec::new();
    let mut i: usize = 0;
    while i < found.len()
        invariant
            i <= found@.len(),
            all == paths(found@),
            in_order(paths(candidates@)),
            forall|x: Seq<u8>| #[trigger] paths(candidates@).contains(x) ==> all.contains(x),
            forall|k: int| 0 <= k < i ==> has_path(paths(candidates@), #[trigger] all[k]),
        decreases found@.len() - i,
    {
        let ghost before = paths(candidates@);
        assert(all[i as int] == found@[i as int]@);
        insert_in_order(&mut candidates, &found[i]);
        i += 1;
    }
    let ghost sorted = paths(candidates@);
    let mirrored = rootfs_roots();
    let mut roots: Vec<FilePath> = Vec::new();
    let mut k: usize = 0;
    while k < candidates.len()
        invariant
            k <= candidates@.len(),
            sorted == paths(candidates@),
            house == optional_path(*home),
            paths(mirrored@) == rootfs_paths(),
            in_order(sorted),
            forall|x: Seq<u8>| #[trigger] sorted.contains(x) ==> all.contains(x),
            in_order(paths(roots@)),
            forall|i: int|
                0 <= i < roots@.len() ==> all.contains(#[trigger] paths(roots@)[i]) && admitted(
                    paths(roots@)[i],
                    house,
                ),
            forall|i: int|
                0 <= i < roots@.len() ==> exists|m: int|
                    0 <= m < k && #[trigger] sorted[m] == #[trigger] paths(roots@)[i],
            forall|i: int, j: int|
                0 <= i < roots@.len() && 0 <= j < sorted.len() && admitted(sorted[j], house)
                    && starts_with(#[trigger] paths(roots@)[i], #[trigger] sorted[j])
                    ==> same_path(paths(roots@)[i], sorted[j]),
            forall|j: int|
                0 <= j < k && admitted(#[trigger] sorted[j], house) ==> within(
                    sorted[j],
                    paths(roots@),
                ),
        decreases candidates@.len() - k,
    {
        let ghost before = paths(roots@);
        assert(sorted[k as int] == candidates@[k as int]@);
        assert(sorted.contains(sorted[k as int]));
        if is_admitted(&candidates[k], home, &mirrored) && !is_within(&candidates[k], &roots) {
            roots.push(candidates[k].clone());
            proof {
                let p = sorted[k as int];
                let after = paths(roots@);
                assert(after =~= before.push(p));
                assert forall|i: int, j: int| 0 <= i < j < after.len() implies path_before(
                    #[trigger] after[i],
                    #[trigger] after[j],
                ) by {
                    assert(after[i] == before[i]);
                    if j < before.len() {
                        assert(after[j] == before[j]);
                    } else {
                        let m = choose|m: int|
                            0 <= m < k && #[trigger] sorted[m] == before[i];
                        assert(path_before(sorted[m], sorted[k as int]));
                    }
                }
                assert forall|i: int, j: int|
                    0 <= i < after.len() && 0 <= j < sorted.len() && admitted(sorted[j], house)
                        && starts_with(#[trigger] after[i], #[trigger] sorted[j]) implies same_path(
                    after[i],
                    sorted[j],
                ) by {
                    if i < before.len() {
                        assert(after[i] == before[i]);
                    } else if !same_path(p, sorted[j]) {
                        crate::path::lemma_directory_before_contents(sorted[j], p);
                        lemma_order(sorted[j], p, sorted[j]);
                        assert(j < k) by {
                            if j > k {
                                assert(path_before(sorted[k as int], sorted[j]));
                            }
                        }
                        assert(within(sorted[j], before));
                        let m = choose|m: int|
                            0 <= m < before.len() && starts_with(sorted[j], #[trigger] before[m]);
                        lemma_within_transitive(p, sorted[j], before[m]);
                        assert(within(p, before));
                    }
                }
                assert forall|j: int|
                    0 <= j < k + 1 && admitted(#[trigger] sorted[j], house) implies within(
                    sorted[j],
                    after,
                ) by {
                    if j < k {
                        let m = choose|m: int|
                            0 <= m < before.len() && starts_with(sorted[j], #[trigger] before[m]);
                        assert(after[m] == before[m]);
                    } else {
                        lemma_same_is_within(p, p);
                        assert(after[before.len() as int] == p);
                    }
                }
                assert forall|i: int| 0 <= i < after.len() implies exists|m: int|
                    0 <= m < k + 1 && #[trigger] sorted[m] == #[trigger] after[i] by {
                    if i < before.len() {
                        assert(after[i] == before[i]);
                        let m = choose|m: int| 0 <= m < k && #[trigger] sorted[m] == before[i];
                        assert(sorted[m] == after[i]);
                    } else {
                        assert(sorted[k as int] == after[i]);
                    }
                }
            }
        }
        k += 1;
    }
    proof {
        let kept = paths(roots@);
        assert forall|i: int, c: int|
            0 <= i < kept.len() && 0 <= c < all.len() && admitted(all[c], house) && starts_with(
                #[trigger] kept[i],
                #[trigger] all[c],
            ) implies same_path(kept[i], all[c]) by {
            assert(has_path(sorted, all[c]));
            let j = choose|j: int| 0 <= j < sorted.len() && same_path(#[trigger] sorted[j], all[c]);
            lemma_same_admitted(sorted[j], all[c], house);
            assert(starts_with(kept[i], sorted[j]));
        }
        assert forall|c: int| 0 <= c < all.len() && admitted(#[trigger] all[c], house) implies
            within(all[c], kept) by {
            assert(has_path(sorted, all[c]));
            let j = choose|j: int| 0 <= j < sorted.len() && same_path(#[trigger] sorted[j], all[c]);
            lemma_same_admitted(sorted[j], all[c], house);
            let m = choose|m: int|
                0 <= m < kept.len() && starts_with(sorted[j], #[trigger] kept[m]);
            assert(starts_with(all[c], kept[m]));
        }
    }
    roots
}

/// Whether a directory is admitted depends on its components alone.
proof fn lemma_same_admitted(a: Seq<u8>, b: Seq<u8>, home: Option<Seq<u8>>)
    requires
        same_path(a, b),
    ensures
        admitted(a, home) == admitted(b, home),
{
    crate::path::lemma_spans(a);
    crate::path::lemma_spans(b);
    assert forall|i: int| 0 <= i < rootfs_paths().len() implies starts_with(
        a,
        #[trigger] rootfs_paths()[i],
    ) == starts_with(b, rootfs_paths()[i]) by {}
    if within(a, rootfs_paths()) {
        let i = choose|i: int|
            0 <= i < rootfs_paths().len() && starts_with(a, #[trigger] rootfs_paths()[i]);
        assert(starts_with(b, rootfs_paths()[i]));
    }
    if within(b, rootfs_paths()) {
        let i = choose|i: int|
            0 <= i < rootfs_paths().len() && starts_with(b, #[trigger] rootfs_paths()[i]);
        assert(starts_with(a, rootfs_paths()[i]));
    }
}

/// Mount options, as bits.
pub const MOUNT_RDONLY: u32 = 1;

pub const MOUNT_NOSUID: u32 = 2;

pub const MOUNT_NODEV: u32 = 4;

pub const MOUNT_BIND: u32 = 4096;

pub const MOUNT_REC: u32 = 16384;

/// Options of a read-only bind mount. `nodev` is asked for up front: without it
/// the read-only remount of a directory on a `nodev` file system is refused.
pub const RO_OPTIONS: u32 = 20487;

/// Options of the two writable bind mounts.
pub const RW_OPTIONS: u32 = 20486;

/// The options are what they are made of.
pub proof fn lemma_options()
    ensures
        RO_OPTIONS == MOUNT_BIND + MOUNT_REC + MOUNT_NOSUID + MOUNT_NODEV + MOUNT_RDONLY,
        RW_OPTIONS == MOUNT_BIND + MOUNT_REC + MOUNT_NOSUID + MOUNT_NODEV,
        RO_OPTIONS & MOUNT_RDONLY != 0,
        RW_OPTIONS & MOUNT_RDONLY == 0,
{
    assert(20487u32 & 1 != 0) by (bit_vector);
    assert(20486u32 & 1 == 0) by (bit_vector);
}

/// One bind mount of the jail.
#[derive(Debug, PartialEq, Eq)]
pub struct BindMount {
    /// Where it comes from on the host.
    pub source: String,
    /// Where it appears in the jail.
    pub target: String,
    pub options: u32,
}

/// What a [`BindMount`] says.
pub struct BindMountView {
    pub source: Seq<char>,
    pub target: Seq<char>,
    pub options: u32,
}

impl View for BindMount {
    type V = BindMountView;

    open spec fn view(&self) -> BindMountView {
        BindMountView { source: self.source@, target: self.target@, options: self.options }
    }
}

/// What each mount of a list says.
pub open spec fn mount_views(list: Seq<BindMount>) -> Seq<BindMountView> {
    list.map_values(|m: BindMount| m@)
}

/// What a jail is made of.
#[derive(Debug, PartialEq, Eq)]
pub struct JailPlan {
    pub mounts: Vec<BindMount>,
    /// Whether commands share the host's network.
    pub network: bool,
}

/// A jail that is being configured.
#[verifier::external_type_specification]
#[verifier::external_body]
pub struct ExContainer(hakoniwa::Container);

/// What is mounted in a jail: for each target its source, its file system type and
/// its options.
pub uninterp spec fn mounts_in(container: hakoniwa::Container) -> Map<
    Seq<char>,
    (Seq<char>, Seq<char>, u32),
>;

/// Whether a jail has a network namespace of its own.
pub uninterp spec fn has_own_network(container: hakoniwa::Container) -> bool;

/// Whether a mount that cannot be made as asked for is tried again with the
/// options its file system has.
pub uninterp spec fn retries_mounts(container: hakoniwa::Container) -> bool;

/// `hakoniwa::Container::mount` without extra data: what was mounted on the target
/// before is replaced.
#[verifier::external_body]
fn add_mount(container: &mut hakoniwa::Container, source: &str, target: &str, options: u32)
    ensures
        mounts_in(*final(container)) == mounts_in(*old(container)).insert(
            target@,
            (source@, ""@, options),
        ),
        has_own_network(*final(container)) == has_own_network(*old(container)),
        retries_mounts(*final(container)) == retries_mounts(*old(container)),
{
    container.mount(source, target, "", hakoniwa::MountOptions::from_bits_retain(options), None);
}

/// `hakoniwa::Container::devfsmount`: mounts a device file system without options.
#[verifier::external_body]
fn add_devices(container: &mut hakoniwa::Container, target: &str)
    ensures
        mounts_in(*final(container)) == mounts_in(*old(container)).insert(
            target@,
            ("devfs"@, "devfs"@, 0u32),
        ),
        has_own_network(*final(container)) == has_own_network(*old(container)),
        retries_mounts(*final(container)) == retries_mounts(*old(container)),
{
    container.devfsmount(target);
}

/// `hakoniwa::Container::tmpfsmount`: mounts an empty file system, `nosuid` and
/// `nodev`.
#[verifier::external_body]
fn add_scratch(container: &mut hakoniwa::Container, target: &str)
    ensures
        mounts_in(*final(container)) == mounts_in(*old(container)).insert(
            target@,
            ("tmpfs"@, "tmpfs"@, 6u32),
        ),
        has_own_network(*final(container)) == has_own_network(*old(container)),
        retries_mounts(*final(container)) == retries_mounts(*old(container)),
{
    container.tmpfsmount(target);
}

/// `hakoniwa::Container::runctl` with `MountFallback`.
#[verifier::external_body]
fn retry_mounts(container: &mut hakoniwa::Container)
    ensures
        mounts_in(*final(container)) == mounts_in(*old(container)),
        has_own_network(*final(container)) == has_own_network(*old(container)),
        retries_mounts(*final(container)),
{
    container.runctl(hakoniwa::Runctl::MountFallback);
}

/// `hakoniwa::Container::unshare` with the network namespace.
#[verifier::external_body]
fn leave_network(container: &mut hakoniwa::Container)
    ensures
        mounts_in(*final(container)) == mounts_in(*old(container)),
        has_own_network(*final(container)),
        retries_mounts(*final(container)) == retries_mounts(*old(container)),
{
    container.unshare(hakoniwa::Namespace::Network);
}

/// `mounts` with each mount of `list` made in turn.
pub open spec fn with_mounts(
    mounts: Map<Seq<char>, (Seq<char>, Seq<char>, u32)>,
    list: Seq<BindMountView>,
) -> Map<Seq<char>, (Seq<char>, Seq<char>, u32)>
    decreases list.len(),
{
    if list.len() == 0 {
        mounts
    } else {
        let m = list.last();
        with_mounts(mounts, list.drop_last()).insert(m.target, (m.source, ""@, m.options))
    }
}

/// What is mounted in a jail that is configured by a plan.
pub open spec fn jail_mounts(
    mounts: Map<Seq<char>, (Seq<char>, Seq<char>, u32)>,
    list: Seq<BindMountView>,
) -> Map<Seq<char>, (Seq<char>, Seq<char>, u32)> {
    with_mounts(
        mounts.insert("/dev"@, ("devfs"@, "devfs"@, 0u32)).insert(
            "/tmp"@,
            ("tmpfs"@, "tmpfs"@, 6u32),
        ),
        list,
    )
}

impl JailPlan {
    /// Configure a container that mirrors the host's system directories.
    pub fn configure(&self, container: &mut hakoniwa::Container)
        ensures
            mounts_in(*final(container)) == jail_mounts(
                mounts_in(*old(container)),
                mount_views(self.mounts@),
            ),
            has_own_network(*final(container)) == (has_own_network(*old(container))
                || !self.network),
            retries_mounts(*final(container)),
    {
        add_devices(container, "/dev");
        add_scratch(container, "/tmp");
        retry_mounts(container);
        let ghost base = mounts_in(*container);
        let ghost all = mount_views(self.mounts@);
        let mut i: usize = 0;
        assert(all.take(0) =~= Seq::<BindMountView>::empty());
        while i < self.mounts.len()
            invariant
                i <= self.mounts@.len(),
                all == mount_views(self.mounts@),
                mounts_in(*container) == with_mounts(base, all.take(i as int)),
                has_own_network(*container) == has_own_network(*old(container)),
                retries_mounts(*container),
            decreases self.mounts@.len() - i,
        {
            let m = &self.mounts[i];
            add_mount(container, m.source.as_str(), m.target.as_str(), m.options);
            proof {
                assert(all[i as int] == m@);
                assert(all.take(i + 1).drop_last() =~= all.take(i as int));
                assert(all.take(i + 1).last() == m@);
            }
            i += 1;
        }
        assert(all.take(all.len() as int) =~= all);
        if !self.network {
            leave_network(container);
        }
    }
}

/// What became of looking up a path.
pub enum Lookup {
    /// There is nothing there, or it cannot be reached.
    Missing(Report),
    /// Its canonical path, and whether it is a directory.
    Found {
        canonical: FilePath,
        is_dir: bool,
    },
}

/// What a [`Lookup`] says.
pub enum LookupView {
    Missing(ReportView),
    Found {
        canonical: Seq<u8>,
        is_dir: bool,
    },
}

impl View for Lookup {
    type V = LookupView;

    open spec fn view(&self) -> LookupView {
        match *self {
            Lookup::Missing(report) => LookupView::Missing(report@),
            Lookup::Found { canonical, is_dir } => LookupView::Found {
                canonical: canonical@,
                is_dir,
            },
        }
    }
}

/// Why a path is not the existing directory it has to be.
pub open spec fn directory_failure(
    what: Seq<char>,
    asked: Seq<u8>,
    lookup: LookupView,
) -> Option<ReportView> {
    match lookup {
        LookupView::Missing(report) => Some(
            wrapped(
                "the build sandbox "@ + what + " `"@ + lossy(asked) + "` does not exist"@,
                report,
            ),
        ),
        LookupView::Found { canonical, is_dir } => if is_dir {
            None
        } else {
            Some(
                said(
                    "the build sandbox "@ + what + " `"@ + lossy(canonical)
                        + "` is not a directory"@,
                ),
            )
        },
    }
}

/// The canonical path of an existing directory.
fn existing_dir(asked: &FilePath, what: &str, lookup: Lookup) -> (r: Result<FilePath, Report>)
    ensures
        r is Err <==> directory_failure(what@, asked@, lookup@) is Some,
        match r {
            Ok(path) => lookup@ is Found && path@ == lookup@->canonical,
            Err(report) => report@ == directory_failure(what@, asked@, lookup@)->0,
        },
{
    let mut message = "the build sandbox ".to_owned();
    message.push_str(what);
    message.push_str(" `");
    match lookup {
        Lookup::Missing(report) => {
            message.push_str(asked.display().as_str());
            message.push_str("` does not exist");
            Err(report.wrap(message))
        },
        Lookup::Found { canonical, is_dir } => {
            if is_dir {
                return Ok(canonical);
            }
            message.push_str(canonical.display().as_str());
            message.push_str("` is not a directory");
            Err(Report::new(message))
        },
    }
}

/// What is said of a path that cannot be named in the jail.
pub open spec fn not_text(p: Seq<u8>) -> ReportView {
    said(
        "Path `"@ + lossy(p) + "` is not valid UTF-8 and cannot be used inside the build sandbox"@,
    )
}

/// Mount points and program paths in the jail are text, so a path that is not
/// valid UTF-8 cannot be used there at all.
fn as_utf8(p: &FilePath) -> (r: Result<String, Report>)
    ensures
        r is Ok <==> valid_utf8(p@),
        match r {
            Ok(text) => text@ == decode_utf8(p@),
            Err(report) => report@ == not_text(p@),
        },
{
    match p.to_text() {
        Some(text) => Ok(text),
        None => {
            let mut message = "Path `".to_owned();
            message.push_str(p.display().as_str());
            message.push_str(
                "` is not valid UTF-8 and cannot be used inside the build sandbox",
            );
            Err(Report::new(message))
        },
    }
}

/// A host path a build needs to read, and what became of looking it up.
pub struct Extra {
    pub asked: FilePath,
    pub lookup: Lookup,
}

/// What an [`Extra`] says.
pub struct ExtraView {
    pub asked: Seq<u8>,
    pub lookup: LookupView,
}

impl View for Extra {
    type V = ExtraView;

    open spec fn view(&self) -> ExtraView {
        ExtraView { asked: self.asked@, lookup: self.lookup@ }
    }
}

/// What each member of a list says.
pub open spec fn extra_views(list: Seq<Extra>) -> Seq<ExtraView> {
    list.map_values(|e: Extra| e@)
}

/// Why a path cannot be shown to a build.
pub open spec fn extra_failure(extra: ExtraView) -> Option<ReportView> {
    match extra.lookup {
        LookupView::Missing(report) => Some(
            wrapped(
                "cannot expose `"@ + lossy(extra.asked)
                    + "` to the build sandbox: it does not exist"@,
                report,
            ),
        ),
        LookupView::Found { canonical, is_dir } => if valid_utf8(canonical) {
            None
        } else {
            Some(not_text(canonical))
        },
    }
}

/// Why the first path from `i` on that cannot be shown to a build cannot be.
pub open spec fn extras_failure(list: Seq<ExtraView>, i: int) -> Option<ReportView>
    decreases list.len() - i,
{
    if i < 0 || i >= list.len() {
        None
    } else if extra_failure(list[i]) is Some {
        extra_failure(list[i])
    } else {
        extras_failure(list, i + 1)
    }
}

/// Why the first directory from `i` on that cannot be named in the jail cannot be.
pub open spec fn roots_failure(roots: Seq<Seq<u8>>, i: int) -> Option<ReportView>
    decreases roots.len() - i,
{
    if i < 0 || i >= roots.len() {
        None
    } else if !valid_utf8(roots[i]) {
        Some(not_text(roots[i]))
    } else {
        roots_failure(roots, i + 1)
    }
}

/// What came of mirroring the host's system directories.
pub open spec fn mirrored(r: Result<(), Report>) -> Result<(), ReportView> {
    match r {
        Ok(u) => Ok(u),
        Err(report) => Err(report@),
    }
}

/// Why a jail cannot be set up, if it cannot.
pub open spec fn jail_failure(
    workdir: ExtraView,
    destdir: ExtraView,
    rootfs: Result<(), ReportView>,
    roots: Seq<Seq<u8>>,
    extras: Seq<ExtraView>,
) -> Option<ReportView> {
    let work = directory_failure("working directory"@, workdir.asked, workdir.lookup);
    let dest = directory_failure("staging directory"@, destdir.asked, destdir.lookup);
    if work is Some {
        work
    } else if dest is Some {
        dest
    } else if rootfs is Err {
        Some(
            wrapped(
                "cannot mirror the host system directories into the build sandbox"@,
                rootfs->Err_0,
            ),
        )
    } else if !valid_utf8(workdir.lookup->canonical) {
        Some(not_text(workdir.lookup->canonical))
    } else if !valid_utf8(destdir.lookup->canonical) {
        Some(not_text(destdir.lookup->canonical))
    } else if roots_failure(roots, 0) is Some {
        roots_failure(roots, 0)
    } else {
        extras_failure(extras, 0)
    }
}

/// A path mounted read-only where it is.
pub open spec fn read_only(p: Seq<u8>) -> BindMountView {
    BindMountView { source: decode_utf8(p), target: decode_utf8(p), options: RO_OPTIONS }
}

/// The canonical paths of what was looked up.
pub open spec fn canonical_paths(extras: Seq<ExtraView>) -> Seq<Seq<u8>> {
    extras.map_values(|e: ExtraView| e.lookup->canonical)
}

/// The mounts of a jail: the two writable directories, and then everything that may
/// be read.
pub open spec fn planned_mounts(
    workdir: Seq<u8>,
    destdir: Seq<u8>,
    readable: Seq<Seq<u8>>,
) -> Seq<BindMountView> {
    seq![
        BindMountView {
            source: decode_utf8(workdir),
            target: CONTAINER_WORKDIR@,
            options: RW_OPTIONS,
        },
        BindMountView {
            source: decode_utf8(destdir),
            target: CONTAINER_DESTDIR@,
            options: RW_OPTIONS,
        },
    ] + readable.map_values(|p: Seq<u8>| read_only(p))
}

/// The working directory and the staging directory are the only writable mounts.
pub proof fn lemma_only_two_writable_mounts(
    workdir: Seq<u8>,
    destdir: Seq<u8>,
    readable: Seq<Seq<u8>>,
    i: int,
)
    requires
        0 <= i < planned_mounts(workdir, destdir, readable).len(),
        planned_mounts(workdir, destdir, readable)[i].options & MOUNT_RDONLY == 0,
    ensures
        i == 0 || i == 1,
        i == 0 ==> planned_mounts(workdir, destdir, readable)[i].target == CONTAINER_WORKDIR@,
        i == 1 ==> planned_mounts(workdir, destdir, readable)[i].target == CONTAINER_DESTDIR@,
{
    lemma_options();
    if i >= 2 {
        assert(planned_mounts(workdir, destdir, readable)[i] == read_only(readable[i - 2]));
    }
}

proof fn lemma_with_mounts(
    mounts: Map<Seq<char>, (Seq<char>, Seq<char>, u32)>,
    list: Seq<BindMountView>,
    target: Seq<char>,
)
    requires
        with_mounts(mounts, list).contains_key(target),
        !mounts.contains_key(target),
    ensures
        exists|i: int|
            0 <= i < list.len() && (#[trigger] list[i]).target == target && with_mounts(
                mounts,
                list,
            )[target] == (list[i].source, ""@, list[i].options),
    decreases list.len(),
{
    if list.len() > 0 {
        let rest = list.drop_last();
        if list.last().target == target {
            assert(list[list.len() - 1].target == target);
        } else {
            lemma_with_mounts(mounts, rest, target);
            let i = choose|i: int|
                0 <= i < rest.len() && (#[trigger] rest[i]).target == target && with_mounts(
                    mounts,
                    rest,
                )[target] == (rest[i].source, ""@, rest[i].options);
            assert(list[i] == rest[i]);
        }
    }
}

/// In a jail that is configured by a plan, everything the plan mounts is read-only but
/// for the working directory, the staging directory and what is made afresh for
/// devices and temporary files.
pub proof fn lemma_jail_is_read_only(
    mounts: Map<Seq<char>, (Seq<char>, Seq<char>, u32)>,
    workdir: Seq<u8>,
    destdir: Seq<u8>,
    readable: Seq<Seq<u8>>,
    target: Seq<char>,
)
    requires
        jail_mounts(mounts, planned_mounts(workdir, destdir, readable)).contains_key(target),
        !mounts.contains_key(target),
        target != "/dev"@,
        target != "/tmp"@,
        target != CONTAINER_WORKDIR@,
        target != CONTAINER_DESTDIR@,
    ensures
        jail_mounts(mounts, planned_mounts(workdir, destdir, readable))[target].2 & MOUNT_RDONLY
            != 0,
{
    let list = planned_mounts(workdir, destdir, readable);
    let base = mounts.insert("/dev"@, ("devfs"@, "devfs"@, 0u32)).insert(
        "/tmp"@,
        ("tmpfs"@, "tmpfs"@, 6u32),
    );
    lemma_with_mounts(base, list, target);
    let i = choose|i: int|
        0 <= i < list.len() && (#[trigger] list[i]).target == target && with_mounts(base, list)[target]
            == (list[i].source, ""@, list[i].options);
    if list[i].options & MOUNT_RDONLY == 0 {
        lemma_only_two_writable_mounts(workdir, destdir, readable, i);
    }
}

/// Whether commands are confined or run straight on the host.
pub enum Mode {
    /// Confined.
    Jailed(JailPlan),
    /// Unconfined, for debugging.
    Host,
}

/// A place to run build steps in, configured from a [`BuildPolicy`].
pub struct BuildSandbox {
    pub mode: Mode,
    /// Host-side working directory.
    pub workdir: FilePath,
    /// Host-side staging directory.
    pub destdir: FilePath,
    /// Host paths that are reachable inside the jail at the same path.
    pub visible: Vec<FilePath>,
    /// The progress line this sandbox's package owns, if any.
    pub progress: Task,
    /// The search path a step's first word is looked up in.
    pub path: FilePath,
}

/// Add `p`, mounted read-only where it is.
fn mount_read_only(
    mounts: &mut Vec<BindMount>,
    visible: &mut Vec<FilePath>,
    p: FilePath,
) -> (r: Result<(), Report>)
    ensures
        r is Ok <==> valid_utf8(p@),
        r is Ok ==> mount_views(final(mounts)@) == mount_views(old(mounts)@).push(read_only(p@))
            && paths(final(visible)@) == paths(old(visible)@).push(p@),
        r is Err ==> r->Err_0@ == not_text(p@),
{
    match as_utf8(&p) {
        Err(report) => Err(report),
        Ok(text) => {
            let ghost before = mounts@;
            let ghost seen = visible@;
            mounts.push(BindMount { source: text.clone(), target: text, options: RO_OPTIONS });
            visible.push(p);
            assert(mount_views(mounts@) =~= mount_views(before).push(read_only(p@)));
            assert(paths(visible@) =~= paths(seen).push(p@));
            Ok(())
        },
    }
}

impl BuildSandbox {
    /// Plan a jail for `policy`, staging into `workdir` and `destdir`.
    ///
    /// `rootfs` says whether the host's system directories could be mirrored,
    /// `roots` are the toolchain directories, and `extra_ro` are host paths the
    /// build legitimately needs to read.
    #[verifier::loop_isolation(false)]
    pub fn new_in(
        ctx: &BuildContext,
        policy: &BuildPolicy,
        workdir: Extra,
        destdir: Extra,
        rootfs: Result<(), Report>,
        roots: Vec<FilePath>,
        extra_ro: Vec<Extra>,
    ) -> (r: Result<BuildSandbox, Report>)
        ensures
            r is Err <==> jail_failure(
                workdir@,
                destdir@,
                mirrored(rootfs),
                paths(roots@),
                extra_views(extra_ro@),
            ) is Some,
            match r {
                Err(report) => report@ == jail_failure(
                    workdir@,
                    destdir@,
                    mirrored(rootfs),
                    paths(roots@),
                    extra_views(extra_ro@),
                )->0,
                Ok(sandbox) => {
                    let readable = paths(roots@) + canonical_paths(extra_views(extra_ro@));
                    &&& sandbox.workdir@ == workdir@.lookup->canonical
                    &&& sandbox.destdir@ == destdir@.lookup->canonical
                    &&& sandbox.mode is Jailed
                    &&& mount_views(sandbox.mode->Jailed_0.mounts@) == planned_mounts(
                        sandbox.workdir@,
                        sandbox.destdir@,
                        readable,
                    )
                    &&& sandbox.mode->Jailed_0.network == policy.network
                    &&& paths(sandbox.visible@) == rootfs_paths() + readable
                    &&& sandbox.progress == (Task { id: None, depth: 0, owns_line: true })
                    &&& sandbox.path@ == ctx@.path
                },
            },
    {
        let ghost extras = extra_views(extra_ro@);
        let ghost kept = paths(roots@);
        let ghost outcome = jail_failure(
            workdir@,
            destdir@,
            mirrored(rootfs),
            kept,
            extras,
        );
        let work = match existing_dir(&workdir.asked, "working directory", workdir.lookup) {
            Ok(path) => path,
            Err(report) => return Err(report),
        };
        let dest = match existing_dir(&destdir.asked, "staging directory", destdir.lookup) {
            Ok(path) => path,
            Err(report) => return Err(report),
        };
        match rootfs {
            Ok(()) => {},
            Err(report) => {
                return Err(
                    report.wrap(
                        "cannot mirror the host system directories into the build sandbox".to_owned(),
                    ),
                );
            },
        }
        let work_text = match as_utf8(&work) {
            Ok(text) => text,
            Err(report) => return Err(report),
        };
        let dest_text = match as_utf8(&dest) {
            Ok(text) => text,
            Err(report) => return Err(report),
        };
        let mut mounts: Vec<BindMount> = Vec::new();
        mounts.push(
            BindMount {
                source: work_text,
                target: CONTAINER_WORKDIR.to_owned(),
                options: RW_OPTIONS,
            },
        );
        mounts.push(
            BindMount {
                source: dest_text,
                target: CONTAINER_DESTDIR.to_owned(),
                options: RW_OPTIONS,
            },
        );
        let mut visible = rootfs_roots();
        let ghost readable = kept + canonical_paths(extras);
        proof {
            assert(mount_views(mounts@) =~= planned_mounts(work@, dest@, readable.take(0)));
            assert(paths(visible@) =~= rootfs_paths() + readable.take(0));
        }
        let mut i: usize = 0;
        while i < roots.len()
            invariant
                i <= roots@.len(),
                kept == paths(roots@),
                readable == kept + canonical_paths(extras),
                roots_failure(kept, 0) is Some ==> outcome == roots_failure(kept, 0),
                roots_failure(kept, i as int) == roots_failure(kept, 0),
                mount_views(mounts@) == planned_mounts(work@, dest@, readable.take(i as int)),
                paths(visible@) == rootfs_paths() + readable.take(i as int),
            decreases roots@.len() - i,
        {
            assert(kept[i as int] == roots@[i as int]@);
            assert(readable[i as int] == kept[i as int]);
            let ghost shown = readable.take(i as int);
            match mount_read_only(&mut mounts, &mut visible, roots[i].clone()) {
                Ok(()) => {},
                Err(report) => return Err(report),
            }
            proof {
                assert(readable.take(i + 1) =~= shown.push(kept[i as int]));
                assert(planned_mounts(work@, dest@, shown.push(kept[i as int]))
                    =~= planned_mounts(work@, dest@, shown).push(read_only(kept[i as int])));
                assert(paths(visible@) =~= rootfs_paths() + readable.take(i + 1));
            }
            i += 1;
        }
        let mut j: usize = 0;
        while j < extra_ro.len()
            invariant
                j <= extra_ro@.len(),
                extras == extra_views(extra_ro@),
                readable == kept + canonical_paths(extras),
                outcome == extras_failure(extras, 0),
                extras_failure(extras, j as int) == extras_failure(extras, 0),
                mount_views(mounts@) == planned_mounts(
                    work@,
                    dest@,
                    readable.take(kept.len() + j),
                ),
                paths(visible@) == rootfs_paths() + readable.take(kept.len() + j),
            decreases extra_ro@.len() - j,
        {
            let extra = &extra_ro[j];
            assert(extras[j as int] == extra@);
            let ghost shown = readable.take(kept.len() + j);
            match &extra.lookup {
                Lookup::Missing(report) => {
                    let mut message = "cannot expose `".to_owned();
                    message.push_str(extra.asked.display().as_str());
                    message.push_str("` to the build sandbox: it does not exist");
                    return Err(report.clone().wrap(message));
                },
                Lookup::Found { canonical, is_dir } => {
                    let ghost p = canonical@;
                    assert(readable[kept.len() + j] == p) by {
                        assert(canonical_paths(extras)[j as int] == p);
                    }
                    match mount_read_only(&mut mounts, &mut visible, canonical.clone()) {
                        Ok(()) => {},
                        Err(report) => return Err(report),
                    }
                    proof {
                        assert(readable.take(kept.len() + j + 1) =~= shown.push(p));
                        assert(planned_mounts(work@, dest@, shown.push(p)) =~= planned_mounts(
                            work@,
                            dest@,
                            shown,
                        ).push(read_only(p)));
                        assert(paths(visible@) =~= rootfs_paths() + readable.take(
                            kept.len() + j + 1,
                        ));
                    }
                },
            }
            j += 1;
        }
        proof {
            assert(readable.take((kept.len() + extras.len()) as int) =~= readable);
        }
        Ok(
            BuildSandbox {
                mode: Mode::Jailed(JailPlan { mounts, network: policy.network }),
                workdir: work,
                destdir: dest,
                visible,
                progress: Task::detached(),
                path: ctx.path.clone(),
            },
        )
    }

    /// Commands run unconfined on the host, as the calling user.
    pub fn unsandboxed(workdir: FilePath, destdir: FilePath) -> (r: BuildSandbox)
        ensures
            r.mode is Host,
            r.workdir@ == workdir@,
            r.destdir@ == destdir@,
            r.visible@.len() == 0,
            r.progress == (Task { id: None, depth: 0, owns_line: true }),
            r.path@.len() == 0,
    {
        BuildSandbox {
            mode: Mode::Host,
            workdir,
            destdir,
            visible: Vec::new(),
            progress: Task::detached(),
            path: FilePath { bytes: Vec::new() },
        }
    }

    /// Report this sandbox's commands under `task`, one nested line each.
    pub fn with_progress(self, task: Task) -> (r: BuildSandbox)
        ensures
            r == (BuildSandbox { progress: task, ..self }),
    {
        BuildSandbox { progress: task, ..self }
    }

    /// The progress line this sandbox reports under.
    pub fn progress(&self) -> (r: &Task)
        ensures
            *r == self.progress,
    {
        &self.progress
    }
}

/// A command: the program, and its arguments.
#[derive(Debug, PartialEq, Eq)]
pub struct CommandLine {
    pub program: String,
    pub args: Vec<String>,
}

/// Split a command of step `step` on white space: the first word is the program,
/// the rest are its arguments. A blank command has no program to run.
pub fn parse_command(command: &str, step: &str) -> (r: Result<CommandLine, Report>)
    ensures
        r is Err <==> words_from(command@, 0).len() == 0,
        match r {
            Ok(line) => seq![line.program@] + texts(line.args@) == words_from(command@, 0),
            Err(report) => report@ == said(
                "Step `"@ + step@
                    + "` contains an empty command; every entry of `run` must name a program"@,
            ),
        },
{
    let words = split_words(command);
    let ghost all = words_from(command@, 0);
    assert(texts(words@).len() == words@.len());
    if words.len() == 0 {
        let mut message = "Step `".to_owned();
        message.push_str(step);
        message.push_str(
            "` contains an empty command; every entry of `run` must name a program",
        );
        return Err(Report::new(message));
    }
    let program = words[0].clone();
    let mut args: Vec<String> = Vec::new();
    let mut i: usize = 1;
    assert(args@ =~= words@.subrange(1, 1));
    while i < words.len()
        invariant
            1 <= i <= words@.len(),
            args@ == words@.subrange(1, i as int),
        decreases words@.len() - i,
    {
        args.push(words[i].clone());
        assert(words@.subrange(1, i + 1) =~= words@.subrange(1, i as int).push(words@[i as int]));
        i += 1;
    }
    proof {
        assert(all[0] == words@[0]@);
        assert(seq![program@] + texts(args@) =~= all) by {
            assert forall|k: int| 1 <= k < all.len() implies (seq![program@] + texts(args@))[k]
                == all[k] by {
                assert(all[k] == words@[k]@);
                assert(args@[k - 1] == words@[k]);
            }
        }
    }
    Ok(CommandLine { program, args })
}

/// The paths of `list` in back quotes, separated by commas.
pub open spec fn listed_paths(list: Seq<Seq<u8>>) -> Seq<char> {
    joined(list.map_values(|p: Seq<u8>| "`"@ + lossy(p) + "`"@), ", "@)
}

/// Comma-separated path list for diagnostics.
fn describe_paths(list: &Vec<FilePath>) -> (r: String)
    ensures
        r@ == listed_paths(paths(list@)),
{
    let mut shown: Vec<String> = Vec::new();
    let mut i: usize = 0;
    while i < list.len()
        invariant
            i <= list@.len(),
            shown@.len() == i,
            forall|j: int|
                0 <= j < i ==> (#[trigger] shown@[j])@ == "`"@ + lossy(list@[j]@) + "`"@,
        decreases list@.len() - i,
    {
        let mut one = "`".to_owned();
        one.push_str(list[i].display().as_str());
        one.push_str("`");
        shown.push(one);
        i += 1;
    }
    assert(texts(shown@) =~= paths(list@).map_values(|p: Seq<u8>| "`"@ + lossy(p) + "`"@));
    join(&shown, ", ")
}

/// The first path of `found` from `i` on that lies in or under one of `visible`.
pub open spec fn first_visible(found: Seq<Seq<u8>>, visible: Seq<Seq<u8>>, i: int) -> Option<
    Seq<u8>,
>
    decreases found.len() - i,
{
    if i < 0 || i >= found.len() {
        None
    } else if within(found[i], visible) {
        Some(found[i])
    } else {
        first_visible(found, visible, i + 1)
    }
}

/// `p` as text, where it is text.
pub open spec fn named(p: Seq<u8>) -> Result<Seq<char>, ReportView> {
    if valid_utf8(p) {
        Ok(decode_utf8(p))
    } else {
        Err(not_text(p))
    }
}

/// What `p` on the host is called in the jail, when it lies in the working
/// directory or in the staging directory.
pub open spec fn rewritten(p: Seq<u8>, workdir: Seq<u8>, destdir: Seq<u8>) -> Option<Seq<u8>> {
    match below(p, workdir) {
        Some(rest) => Some(joined_path(encode_utf8(CONTAINER_WORKDIR@), rest)),
        None => match below(p, destdir) {
            Some(rest) => Some(joined_path(encode_utf8(CONTAINER_DESTDIR@), rest)),
            None => None,
        },
    }
}

/// What the jail is to execute for a program that is not spelled with a slash, when
/// these are the executables found for it.
pub open spec fn searched(
    step: Seq<char>,
    program: Seq<char>,
    found: Seq<Seq<u8>>,
    visible: Seq<Seq<u8>>,
) -> Result<Seq<char>, ReportView> {
    match first_visible(found, visible, 0) {
        Some(p) => named(p),
        None => if found.len() == 0 {
            Err(
                said(
                    "Step `"@ + step + "` wants `"@ + program
                        + "`, which is not on PATH. The build sandbox execs programs directly - there is no shell and no PATH search inside it - so the program has to exist on the host that configures the jail."@,
                ),
            )
        } else {
            Err(
                said(
                    "Step `"@ + step + "` wants `"@ + program + "`, which resolves to "@
                        + listed_paths(found)
                        + " on this host - outside every directory the build sandbox can see. Pass the directory holding it to `BuildSandbox::new` as an `extra_ro` path, or install the program under /usr."@,
                ),
            )
        },
    }
}

/// What the jail is to execute for a program that is spelled with a slash, when
/// this is its canonical path.
pub open spec fn located(
    step: Seq<char>,
    program: Seq<u8>,
    canonical: Result<Seq<u8>, ReportView>,
    workdir: Seq<u8>,
    destdir: Seq<u8>,
    visible: Seq<Seq<u8>>,
) -> Result<Seq<char>, ReportView> {
    if !is_absolute(program) {
        named(program)
    } else if rewritten(program, workdir, destdir) is Some {
        named(rewritten(program, workdir, destdir)->0)
    } else {
        match canonical {
            Err(report) => Err(
                wrapped(
                    "Step `"@ + step + "` wants `"@ + lossy(program)
                        + "`, which does not exist on this host"@,
                    report,
                ),
            ),
            Ok(p) => if within(p, visible) {
                named(p)
            } else {
                Err(
                    said(
                        "Step `"@ + step + "` wants `"@ + lossy(program)
                            + "`, which resolves to `"@ + lossy(p)
                            + "` - outside every directory the build sandbox can see. Pass the directory holding it to `BuildSandbox::new` as an `extra_ro` path."@,
                    ),
                )
            },
        }
    }
}

/// A program in the working directory or in the staging directory is executed where
/// the jail has mounted them.
pub proof fn lemma_rewritten_program_is_mounted(p: Seq<u8>, workdir: Seq<u8>, destdir: Seq<u8>)
    requires
        rewritten(p, workdir, destdir) is Some,
        is_absolute(workdir),
        is_absolute(destdir),
    ensures
        starts_with(rewritten(p, workdir, destdir)->0, encode_utf8(CONTAINER_WORKDIR@))
            || starts_with(rewritten(p, workdir, destdir)->0, encode_utf8(CONTAINER_DESTDIR@)),
{
    lemma_container_paths();
    if below(p, workdir) is Some {
        crate::path::lemma_spans(workdir);
        crate::path::lemma_below_is_relative(p, workdir);
        crate::path::lemma_join_stays_below(
            encode_utf8(CONTAINER_WORKDIR@),
            below(p, workdir)->0,
        );
    } else {
        crate::path::lemma_spans(destdir);
        crate::path::lemma_below_is_relative(p, destdir);
        crate::path::lemma_join_stays_below(
            encode_utf8(CONTAINER_DESTDIR@),
            below(p, destdir)->0,
        );
    }
}

proof fn lemma_container_paths()
    ensures
        encode_utf8(CONTAINER_WORKDIR@).len() > 0,
        encode_utf8(CONTAINER_WORKDIR@).last() != crate::path::SLASH,
        encode_utf8(CONTAINER_DESTDIR@).len() > 0,
        encode_utf8(CONTAINER_DESTDIR@).last() != crate::path::SLASH,
{
    reveal_strlit("/build");
    reveal_strlit("/dest");
    vstd::utf8::is_ascii_chars_encode_utf8("/build"@);
    vstd::utf8::is_ascii_chars_encode_utf8("/dest"@);
    assert("/build"@[5] == 'd');
    assert("/dest"@[4] == 't');
}

/// A program that was searched for is executed only where the jail can see it.
pub proof fn lemma_searched_program_is_visible(
    step: Seq<char>,
    program: Seq<char>,
    found: Seq<Seq<u8>>,
    visible: Seq<Seq<u8>>,
)
    requires
        searched(step, program, found, visible) is Ok,
    ensures
        exists|i: int|
            0 <= i < found.len() && within(#[trigger] found[i], visible) && searched(
                step,
                program,
                found,
                visible,
            )->Ok_0 == decode_utf8(found[i]),
{
    lemma_first_visible(found, visible, 0);
}

proof fn lemma_first_visible(found: Seq<Seq<u8>>, visible: Seq<Seq<u8>>, i: int)
    requires
        0 <= i,
    ensures
        first_visible(found, visible, i) is Some ==> exists|k: int|
            0 <= k < found.len() && within(#[trigger] found[k], visible) && found[k]
                == first_visible(found, visible, i)->0,
    decreases found.len() - i,
{
    if i < found.len() && !within(found[i], visible) {
        lemma_first_visible(found, visible, i + 1);
    }
}

/// The views of a result.
pub open spec fn path_result(r: Result<FilePath, Report>) -> Result<Seq<u8>, ReportView> {
    match r {
        Ok(p) => Ok(p@),
        Err(report) => Err(report@),
    }
}

/// The views of a result.
pub open spec fn text_result(r: Result<String, Report>) -> Result<Seq<char>, ReportView> {
    match r {
        Ok(text) => Ok(text@),
        Err(report) => Err(report@),
    }
}

/// Where an executable called `program` may be: in each absolute directory of the
/// search path, in order. An entry that means the current directory is refused.
pub open spec fn places_for(path: Seq<u8>, program: Seq<char>) -> Seq<Seq<u8>> {
    absolute_only(entries_from(path, 0)).map_values(
        |dir: Seq<u8>| joined_path(dir, encode_utf8(program)),
    )
}

fn has_slash(text: &str) -> (r: bool)
    ensures
        r == text@.contains('/'),
{
    let chars = characters(text);
    let mut i: usize = 0;
    while i < chars.len()
        invariant
            i <= chars@.len(),
            chars@ == text@,
            forall|j: int| 0 <= j < i ==> chars@[j] != '/',
        decreases chars@.len() - i,
    {
        if chars[i] == '/' {
            assert(text@[i as int] == '/');
            return true;
        }
        i += 1;
    }
    false
}

impl BuildSandbox {
    /// Is `path` reachable inside the jail at this very path?
    fn is_visible(&self, path: &FilePath) -> (r: bool)
        ensures
            r == within(path@, paths(self.visible@)),
    {
        is_within(path, &self.visible)
    }

    /// Where an executable called `program` may be.
    pub fn candidates(&self, program: &str) -> (r: Vec<FilePath>)
        ensures
            paths(r@) == places_for(self.path@, program@),
    {
        let dirs = self.path.search_directories();
        let ghost all = paths(dirs@);
        let mut r: Vec<FilePath> = Vec::new();
        let mut i: usize = 0;
        while i < dirs.len()
            invariant
                i <= dirs@.len(),
                all == paths(dirs@),
                r@.len() == i,
                forall|j: int|
                    0 <= j < i ==> (#[trigger] r@[j])@ == joined_path(
                        all[j],
                        encode_utf8(program@),
                    ),
            decreases dirs@.len() - i,
        {
            assert(all[i as int] == dirs@[i as int]@);
            r.push(dirs[i].join_text(program));
            i += 1;
        }
        assert(paths(r@) =~= places_for(self.path@, program@));
        r
    }

    /// Turn the first word of a command into a path the jail can actually execute.
    ///
    /// A word without a slash is looked for on the search path: `found` are the
    /// canonical paths of the executables there are among
    /// [`BuildSandbox::candidates`], in order. For a word with a slash in it,
    /// `canonical` is its canonical path.
    pub fn resolve(
        &self,
        program: &str,
        step: &str,
        found: &Vec<FilePath>,
        canonical: Result<FilePath, Report>,
    ) -> (r: Result<String, Report>)
        ensures
            text_result(r) == (if program@.contains('/') {
                located(
                    step@,
                    encode_utf8(program@),
                    path_result(canonical),
                    self.workdir@,
                    self.destdir@,
                    paths(self.visible@),
                )
            } else {
                searched(step@, program@, paths(found@), paths(self.visible@))
            }),
    {
        if has_slash(program) {
            return self.resolve_path(&FilePath::from_text(program), step, canonical);
        }
        let ghost all = paths(found@);
        let mut i: usize = 0;
        while i < found.len()
            invariant
                i <= found@.len(),
                all == paths(found@),
                first_visible(all, paths(self.visible@), i as int) == first_visible(
                    all,
                    paths(self.visible@),
                    0,
                ),
                !program@.contains('/'),
            decreases found@.len() - i,
        {
            assert(all[i as int] == found@[i as int]@);
            if self.is_visible(&found[i]) {
                return as_utf8(&found[i]);
            }
            i += 1;
        }
        let mut message = "Step `".to_owned();
        message.push_str(step);
        message.push_str("` wants `");
        message.push_str(program);
        if found.len() == 0 {
            message.push_str(
                "`, which is not on PATH. The build sandbox execs programs directly - there is no shell and no PATH search inside it - so the program has to exist on the host that configures the jail.",
            );
        } else {
            message.push_str("`, which resolves to ");
            message.push_str(describe_paths(found).as_str());
            message.push_str(
                " on this host - outside every directory the build sandbox can see. Pass the directory holding it to `BuildSandbox::new` as an `extra_ro` path, or install the program under /usr.",
            );
        }
        Err(Report::new(message))
    }

    /// Resolve a program the command spelled with a slash in it.
    fn resolve_path(
        &self,
        program: &FilePath,
        step: &str,
        canonical: Result<FilePath, Report>,
    ) -> (r: Result<String, Report>)
        ensures
            text_result(r) == located(
                step@,
                program@,
                path_result(canonical),
                self.workdir@,
                self.destdir@,
                paths(self.visible@),
            ),
    {
        if !program.is_absolute() {
            return as_utf8(program);
        }
        match program.strip_prefix(&self.workdir) {
            Some(rest) => {
                return as_utf8(&FilePath::from_text(CONTAINER_WORKDIR).join(&rest));
            },
            None => {},
        }
        match program.strip_prefix(&self.destdir) {
            Some(rest) => {
                return as_utf8(&FilePath::from_text(CONTAINER_DESTDIR).join(&rest));
            },
            None => {},
        }
        let mut message = "Step `".to_owned();
        message.push_str(step);
        message.push_str("` wants `");
        message.push_str(program.display().as_str());
        match canonical {
            Err(report) => {
                message.push_str("`, which does not exist on this host");
                Err(report.wrap(message))
            },
            Ok(path) => {
                if self.is_visible(&path) {
                    return as_utf8(&path);
                }
                message.push_str("`, which resolves to `");
                message.push_str(path.display().as_str());
                message.push_str(
                    "` - outside every directory the build sandbox can see. Pass the directory holding it to `BuildSandbox::new` as an `extra_ro` path.",
                );
                Err(Report::new(message))
            },
        }
    }
}

/// What stands behind the last slash of `text`.
pub open spec fn after_last_slash(text: Seq<char>) -> Seq<char>
    decreases text.len(),
{
    if text.len() == 0 || text.last() == '/' {
        Seq::empty()
    } else {
        after_last_slash(text.drop_last()).push(text.last())
    }
}

/// The last path component of a program, which is what a progress line shows.
pub fn basename(program: &str) -> (r: String)
    ensures
        r@ == after_last_slash(program@),
{
    let chars = characters(program);
    let mut from: usize = chars.len();
    while from > 0 && chars[from - 1] != '/'
        invariant
            from <= chars@.len(),
            forall|j: int| from <= j < chars@.len() ==> chars@[j] != '/',
        decreases from,
    {
        from -= 1;
    }
    proof {
        lemma_after_last_slash(chars@, from as int);
    }
    string_of(&chars, from, chars.len())
}

proof fn lemma_after_last_slash(text: Seq<char>, from: int)
    requires
        0 <= from <= text.len(),
        forall|j: int| from <= j < text.len() ==> text[j] != '/',
        from > 0 ==> text[from - 1] == '/',
    ensures
        after_last_slash(text) == text.subrange(from, text.len() as int),
    decreases text.len(),
{
    if from < text.len() {
        let rest = text.drop_last();
        lemma_after_last_slash(rest, from);
        assert(text.subrange(from, text.len() as int) =~= rest.subrange(
            from,
            rest.len() as int,
        ).push(text.last()));
    } else {
        assert(text.subrange(from, text.len() as int) =~= Seq::<char>::empty());
    }
}

/// One captured stream, for a diagnostic.
pub open spec fn stream_text(bytes: Seq<u8>) -> Seq<char> {
    let text = trimmed(lossy(bytes));
    if text.len() == 0 {
        "<no output>"@
    } else {
        text
    }
}

/// Render one captured stream for a diagnostic.
fn describe_stream(bytes: &Vec<u8>) -> (r: String)
    ensures
        r@ == stream_text(bytes@),
{
    let text = trim(lossy_text(bytes.as_slice()).as_str());
    if text.as_str().is_empty() {
        "<no output>".to_owned()
    } else {
        text
    }
}

/// What a command wrote, as far as it was captured.
#[derive(Debug)]
pub struct Captured {
    /// `None` when the command wrote to the terminal itself.
    pub stdout: Option<Vec<u8>>,
    pub stderr: Vec<u8>,
}

/// What was captured, for a failure diagnostic. What was not captured has already
/// been seen and is not mentioned.
pub open spec fn captured_text(captured: Captured) -> Seq<char> {
    let stderr = "stderr:\n"@ + stream_text(captured.stderr@);
    match captured.stdout {
        Some(stdout) => "stdout:\n"@ + stream_text(stdout@) + "\n"@ + stderr,
        None => stderr,
    }
}

impl Captured {
    /// The inherited-stdout case: only stderr came back.
    pub fn stderr_only(stderr: Vec<u8>) -> (r: Captured)
        ensures
            r == (Captured { stdout: None, stderr }),
    {
        Captured { stdout: None, stderr }
    }

    /// The captured output, formatted for a failure diagnostic.
    pub fn describe(&self) -> (r: String)
        ensures
            r@ == captured_text(*self),
    {
        let mut r = String::new();
        match &self.stdout {
            Some(stdout) => {
                r.push_str("stdout:\n");
                r.push_str(describe_stream(stdout).as_str());
                r.push_str("\n");
            },
            None => {},
        }
        r.push_str("stderr:\n");
        r.push_str(describe_stream(&self.stderr).as_str());
        assert(r@ =~= captured_text(*self));
        r
    }

    /// What a command that succeeded said on stderr, if it said anything.
    pub fn warnings(&self) -> (r: Option<String>)
        ensures
            r is Some <==> trimmed(lossy(self.stderr@)).len() > 0,
            r is Some ==> r->0@ == trimmed(lossy(self.stderr@)),
    {
        let text = trim(lossy_text(self.stderr.as_slice()).as_str());
        if text.as_str().is_empty() {
            None
        } else {
            Some(text)
        }
    }
}

/// A command's output as it arrives, line by line.
#[derive(Debug)]
pub struct Drain {
    pub captured: Vec<u8>,
}

impl Drain {
    /// Nothing has arrived.
    pub fn new() -> (r: Drain)
        ensures
            r.captured@.len() == 0,
    {
        Drain { captured: Vec::new() }
    }

    /// Keep `line`, and say what the command's progress line is to show, if the
    /// line says anything.
    pub fn line(&mut self, line: &[u8]) -> (message: Option<String>)
        ensures
            final(self).captured@ == old(self).captured@ + line@,
            message is Some <==> trimmed_end(lossy(line@)).len() > 0,
            message is Some ==> message->0@ == trimmed_end(lossy(line@)),
    {
        self.captured.extend_from_slice(line);
        assert(self.captured@ =~= old(self).captured@ + line@);
        let text = trim_end(lossy_text(line).as_str());
        if text.as_str().is_empty() {
            None
        } else {
            Some(text)
        }
    }
}

/// What a command's result comes to inside the jail.
pub fn conclude_jailed(
    command: &str,
    step: &str,
    code: i32,
    reason: &str,
    out: &Captured,
) -> (r: Result<(), Report>)
    ensures
        r is Ok <==> code == 0,
        r is Err ==> r->Err_0@ == said(
            "Command `"@ + command@ + "` in step `"@ + step@
                + "` failed inside the build sandbox with code "@ + signed_decimal(code as int)
                + " ("@ + reason@ + ")\n"@ + captured_text(*out),
        ),
{
    if code == 0 {
        return Ok(());
    }
    let mut message = "Command `".to_owned();
    message.push_str(command);
    message.push_str("` in step `");
    message.push_str(step);
    message.push_str("` failed inside the build sandbox with code ");
    push_signed(&mut message, code);
    message.push_str(" (");
    message.push_str(reason);
    message.push_str(")\n");
    message.push_str(out.describe().as_str());
    Err(Report::new(message))
}

/// What a command's result comes to on the host, where its status reads `status`.
pub fn conclude_on_host(
    command: &str,
    step: &str,
    success: bool,
    status: &str,
    out: &Captured,
) -> (r: Result<(), Report>)
    ensures
        r is Ok <==> success,
        r is Err ==> r->Err_0@ == said(
            "Command `"@ + command@ + "` in step `"@ + step@ + "` failed with "@ + status@ + "\n"@
                + captured_text(*out),
        ),
{
    if success {
        return Ok(());
    }
    let mut message = "Command `".to_owned();
    message.push_str(command);
    message.push_str("` in step `");
    message.push_str(step);
    message.push_str("` failed with ");
    message.push_str(status);
    message.push_str("\n");
    message.push_str(out.describe().as_str());
    Err(Report::new(message))
}

/// What is said when a command cannot be started, or cannot be waited for.
pub fn cannot_run(sandbox: &BuildSandbox, command: &str, step: &str, report: Report) -> (r: Report)
    ensures
        r@ == wrapped(
            match sandbox.mode {
                Mode::Jailed(_) => "Failed to run `"@ + command@ + "` for step `"@ + step@
                    + "` in the build sandbox"@,
                Mode::Host => "Failed to spawn `"@ + command@ + "` in `"@ + lossy(
                    sandbox.workdir@,
                ) + "` for step `"@ + step@ + "`"@,
            },
            report@,
        ),
{
    match &sandbox.mode {
        Mode::Jailed(_) => {
            let mut message = "Failed to run `".to_owned();
            message.push_str(command);
            message.push_str("` for step `");
            message.push_str(step);
            message.push_str("` in the build sandbox");
            report.wrap(message)
        },
        Mode::Host => {
            let mut message = "Failed to spawn `".to_owned();
            message.push_str(command);
            message.push_str("` in `");
            message.push_str(sandbox.workdir.display().as_str());
            message.push_str("` for step `");
            message.push_str(step);
            message.push_str("`");
            report.wrap(message)
        },
    }
}

/// A command that is being prepared for a jail.
#[verifier::external_type_specification]
#[verifier::external_body]
pub struct ExCommand(hakoniwa::Command);

/// The program a command runs.
pub uninterp spec fn command_program(command: hakoniwa::Command) -> Seq<char>;

/// The arguments of a command, in order.
pub uninterp spec fn command_args(command: hakoniwa::Command) -> Seq<Seq<char>>;

/// The environment of a command.
pub uninterp spec fn command_env(command: hakoniwa::Command) -> Map<Seq<char>, Seq<char>>;

/// The directory a command runs in.
pub uninterp spec fn command_dir(command: hakoniwa::Command) -> Option<Seq<char>>;

/// What is mounted in the jail of a command, as in [`mounts_in`].
pub uninterp spec fn command_mounts(command: hakoniwa::Command) -> Map<
    Seq<char>,
    (Seq<char>, Seq<char>, u32),
>;

/// Whether the jail of a command has a network namespace of its own.
pub uninterp spec fn command_has_own_network(command: hakoniwa::Command) -> bool;

/// Nothing but the arguments, the environment or the directory of a command has
/// changed.
pub open spec fn same_jail_and_program(a: hakoniwa::Command, b: hakoniwa::Command) -> bool {
    &&& command_program(a) == command_program(b)
    &&& command_mounts(a) == command_mounts(b)
    &&& command_has_own_network(a) == command_has_own_network(b)
}

/// An environment without variables.
pub open spec fn no_variables() -> Map<Seq<char>, Seq<char>> {
    Map::empty()
}

/// `hakoniwa::Container::command`: a command that runs `program` in a copy of
/// `container`, with no arguments, an empty environment and no directory of its own.
#[verifier::external_body]
fn start_command(container: &hakoniwa::Container, program: &str) -> (command: hakoniwa::Command)
    ensures
        command_program(command) == program@,
        command_args(command) == Seq::<Seq<char>>::empty(),
        command_env(command) == no_variables(),
        command_dir(command) is None,
        command_mounts(command) == mounts_in(*container),
        command_has_own_network(command) == has_own_network(*container),
{
    container.command(program)
}

/// `hakoniwa::Command::arg`: adds an argument behind those there are.
#[verifier::external_body]
fn add_argument(command: &mut hakoniwa::Command, arg: &str)
    ensures
        command_args(*final(command)) == command_args(*old(command)).push(arg@),
        command_env(*final(command)) == command_env(*old(command)),
        command_dir(*final(command)) == command_dir(*old(command)),
        same_jail_and_program(*final(command), *old(command)),
{
    command.arg(arg);
}

/// `hakoniwa::Command::env`: sets a variable, replacing what it was before.
#[verifier::external_body]
fn set_variable(command: &mut hakoniwa::Command, name: &str, value: &str)
    ensures
        command_env(*final(command)) == command_env(*old(command)).insert(name@, value@),
        command_args(*final(command)) == command_args(*old(command)),
        command_dir(*final(command)) == command_dir(*old(command)),
        same_jail_and_program(*final(command), *old(command)),
{
    command.env(name, value);
}

/// `hakoniwa::Command::current_dir`: sets the directory the command runs in.
#[verifier::external_body]
fn set_directory(command: &mut hakoniwa::Command, dir: &str)
    ensures
        command_dir(*final(command)) == Some(dir@),
        command_args(*final(command)) == command_args(*old(command)),
        command_env(*final(command)) == command_env(*old(command)),
        same_jail_and_program(*final(command), *old(command)),
{
    command.current_dir(dir);
}

/// The whole environment of a command in the jail. It inherits nothing, and its home is
/// the working directory, the only one there is.
pub open spec fn jail_environment() -> Map<Seq<char>, Seq<char>> {
    no_variables().insert("DESTDIR"@, CONTAINER_DESTDIR@).insert("PATH"@, CONTAINER_PATH@).insert(
        "HOME"@,
        CONTAINER_WORKDIR@,
    ).insert("TMPDIR"@, "/tmp"@).insert("LC_ALL"@, "C"@)
}

/// The command that runs `program` in the working directory of a jail.
pub fn jail_command(container: &hakoniwa::Container, program: &str, args: &Vec<String>) -> (r:
    hakoniwa::Command)
    ensures
        command_program(r) == program@,
        command_args(r) == texts(args@),
        command_env(r) == jail_environment(),
        command_dir(r) == Some(CONTAINER_WORKDIR@),
        command_mounts(r) == mounts_in(*container),
        command_has_own_network(r) == has_own_network(*container),
{
    let mut r = start_command(container, program);
    let ghost all = texts(args@);
    let mut i: usize = 0;
    assert(all.take(0) =~= Seq::<Seq<char>>::empty());
    while i < args.len()
        invariant
            i <= args@.len(),
            all == texts(args@),
            command_program(r) == program@,
            command_args(r) == all.take(i as int),
            command_env(r) == no_variables(),
            command_mounts(r) == mounts_in(*container),
            command_has_own_network(r) == has_own_network(*container),
        decreases args@.len() - i,
    {
        add_argument(&mut r, args[i].as_str());
        assert(all.take(i + 1) =~= all.take(i as int).push(args@[i as int]@));
        i += 1;
    }
    assert(all.take(all.len() as int) =~= all);
    set_directory(&mut r, CONTAINER_WORKDIR);
    set_variable(&mut r, "DESTDIR", CONTAINER_DESTDIR);
    set_variable(&mut r, "PATH", CONTAINER_PATH);
    set_variable(&mut r, "HOME", CONTAINER_WORKDIR);
    set_variable(&mut r, "TMPDIR", "/tmp");
    set_variable(&mut r, "LC_ALL", "C");
    r
}

proof fn lemma_first_visible_is_first(found: Seq<Seq<u8>>, visible: Seq<Seq<u8>>, i: int)
    requires
        0 <= i <= found.len(),
    ensures
        match first_visible(found, visible, i) {
            Some(p) => exists|k: int|
                i <= k < found.len() && #[trigger] found[k] == p && within(found[k], visible)
                    && forall|j: int| i <= j < k ==> !within(#[trigger] found[j], visible),
            None => forall|j: int| i <= j < found.len() ==> !within(#[trigger] found[j], visible),
        },
    decreases found.len() - i,
{
    if i < found.len() {
        if within(found[i], visible) {
            assert(found[i] == first_visible(found, visible, i)->0);
        } else {
            lemma_first_visible_is_first(found, visible, i + 1);
            if first_visible(found, visible, i + 1) is Some {
                let k = choose|k: int|
                    i + 1 <= k < found.len() && #[trigger] found[k] == first_visible(
                        found,
                        visible,
                        i + 1,
                    )->0 && within(found[k], visible) && forall|j: int|
                        i + 1 <= j < k ==> !within(#[trigger] found[j], visible);
                assert forall|j: int| i <= j < k implies !within(#[trigger] found[j], visible) by {}
                assert(found[k] == first_visible(found, visible, i)->0);
            }
        }
    }
}

/// The search path decides: of the places a program was found in, the first that lies in
/// or under a directory the jail sees is what is executed, under its whole name. The
/// search fails when there is none, or when that first one is not text.
pub proof fn lemma_first_visible_place_wins(
    step: Seq<char>,
    program: Seq<char>,
    found: Seq<Seq<u8>>,
    visible: Seq<Seq<u8>>,
    i: int,
)
    requires
        0 <= i < found.len(),
        exists|d: int|
            0 <= d < visible.len() && starts_with(found[i], #[trigger] visible[d]),
        forall|j: int, d: int|
            0 <= j < i && 0 <= d < visible.len() ==> !starts_with(
                #[trigger] found[j],
                #[trigger] visible[d],
            ),
    ensures
        searched(step, program, found, visible) is Ok <==> valid_utf8(found[i]),
        searched(step, program, found, visible) matches Ok(text) ==> text == decode_utf8(found[i]),
{
    lemma_first_visible_is_first(found, visible, 0);
    assert(within(found[i], visible));
    assert forall|j: int| 0 <= j < i implies !within(#[trigger] found[j], visible) by {}
    let p = first_visible(found, visible, 0)->0;
    let k = choose|k: int|
        0 <= k < found.len() && #[trigger] found[k] == p && within(found[k], visible)
            && forall|j: int| 0 <= j < k ==> !within(#[trigger] found[j], visible);
    assert(k == i) by {
        if k < i {
            assert(!within(found[k], visible));
        }
        if i < k {
            assert(!within(found[i], visible));
        }
    }
}

/// A program that was found in no place the jail sees is refused.
pub proof fn lemma_invisible_program_is_refused(
    step: Seq<char>,
    program: Seq<char>,
    found: Seq<Seq<u8>>,
    visible: Seq<Seq<u8>>,
)
    requires
        forall|j: int, d: int|
            0 <= j < found.len() && 0 <= d < visible.len() ==> !starts_with(
                #[trigger] found[j],
                #[trigger] visible[d],
            ),
    ensures
        searched(step, program, found, visible) is Err,
{
    lemma_first_visible_is_first(found, visible, 0);
    assert forall|j: int| 0 <= j < found.len() implies !within(#[trigger] found[j], visible) by {}
}

/// Where a program is looked for: in each absolute entry of the search path, in the order
/// of the search path, by its name; `q` says which entries they are.
pub proof fn lemma_programs_are_looked_for_in_order(path: Seq<u8>, program: Seq<char>) -> (q: Seq<
    int,
>)
    ensures
        q.len() == places_for(path, program).len(),
        forall|a: int|
            0 <= a < q.len() ==> {
                let entries = entries_from(path, 0);
                &&& 0 <= #[trigger] q[a] < entries.len()
                &&& entries[q[a]].len() > 0
                &&& entries[q[a]][0] == 0x2f
                &&& places_for(path, program)[a] == joined_path(
                    entries[q[a]],
                    encode_utf8(program),
                )
            },
        forall|a: int, b: int| 0 <= a < b < q.len() ==> #[trigger] q[a] < #[trigger] q[b],
        forall|i: int|
            0 <= i < entries_from(path, 0).len() && (#[trigger] entries_from(path, 0)[i]).len() > 0
                && entries_from(path, 0)[i][0] == 0x2f ==> q.contains(i),
{
    crate::path::lemma_absolute_entries_count(entries_from(path, 0))
}

/// What the jail is to execute for a program that is spelled with a slash. A relative
/// path is taken as it is. One in the working directory, or else in the staging
/// directory, is what it is there, seen from where the jail has mounted that directory.
/// Any other has to exist, and to lie in or under a directory the jail sees: then it is
/// its canonical path.
pub proof fn lemma_spelled_programs_are_found_where_they_are(
    step: Seq<char>,
    program: Seq<u8>,
    canonical: Result<Seq<u8>, ReportView>,
    workdir: Seq<u8>,
    destdir: Seq<u8>,
    visible: Seq<Seq<u8>>,
)
    ensures
        ({
            let r = located(step, program, canonical, workdir, destdir, visible);
            let relative = !(program.len() > 0 && program[0] == 0x2f);
            &&& relative ==> (r is Ok <==> valid_utf8(program)) && (r is Ok ==> r->Ok_0
                == decode_utf8(program))
            &&& !relative && starts_with(program, workdir) ==> {
                let place = joined_path(encode_utf8("/build"@), below(program, workdir)->0);
                &&& crate::path::components(below(program, workdir)->0)
                    == crate::path::components(program).skip(
                    crate::path::components(workdir).len() as int,
                )
                &&& r is Ok <==> valid_utf8(place)
                &&& r is Ok ==> r->Ok_0 == decode_utf8(place)
            }
            &&& !relative && !starts_with(program, workdir) && starts_with(program, destdir) ==> {
                let place = joined_path(encode_utf8("/dest"@), below(program, destdir)->0);
                &&& crate::path::components(below(program, destdir)->0)
                    == crate::path::components(program).skip(
                    crate::path::components(destdir).len() as int,
                )
                &&& r is Ok <==> valid_utf8(place)
                &&& r is Ok ==> r->Ok_0 == decode_utf8(place)
            }
            &&& !relative && !starts_with(program, workdir) && !starts_with(program, destdir) ==> {
                &&& r is Ok <==> (canonical matches Ok(p) && valid_utf8(p) && exists|d: int|
                    0 <= d < visible.len() && starts_with(p, #[trigger] visible[d]))
                &&& r is Ok ==> r->Ok_0 == decode_utf8(canonical->Ok_0)
            }
        }),
{
    crate::path::lemma_below_has_the_rest(program, workdir);
    crate::path::lemma_below_has_the_rest(program, destdir);
}

/// Of the mounts a plan makes at one place, the last counts, whatever was there before;
/// everything else stays as it was.
pub proof fn lemma_last_mount_counts(
    mounts: Map<Seq<char>, (Seq<char>, Seq<char>, u32)>,
    list: Seq<BindMountView>,
    target: Seq<char>,
    i: int,
)
    requires
        -1 <= i < list.len(),
        i >= 0 ==> list[i].target == target,
        forall|j: int| i < j < list.len() ==> (#[trigger] list[j]).target != target,
    ensures
        i >= 0 ==> with_mounts(mounts, list).contains_key(target) && with_mounts(
            mounts,
            list,
        )[target] == (list[i].source, ""@, list[i].options),
        i == -1 ==> with_mounts(mounts, list).contains_key(target) == mounts.contains_key(target),
        i == -1 && mounts.contains_key(target) ==> with_mounts(mounts, list)[target]
            == mounts[target],
    decreases list.len(),
{
    if list.len() > 0 && i < list.len() - 1 {
        let rest = list.drop_last();
        assert(list[list.len() - 1].target != target);
        assert forall|j: int| i < j < rest.len() implies (#[trigger] rest[j]).target != target by {
            assert(rest[j] == list[j]);
        }
        lemma_last_mount_counts(mounts, rest, target, i);
    }
}

/// A jail has devices and a scratch directory of its own, unless its plan puts something
/// else there.
pub proof fn lemma_jail_has_devices_and_scratch(
    mounts: Map<Seq<char>, (Seq<char>, Seq<char>, u32)>,
    list: Seq<BindMountView>,
)
    ensures
        (forall|j: int| 0 <= j < list.len() ==> (#[trigger] list[j]).target != "/dev"@)
            ==> jail_mounts(mounts, list).contains_key("/dev"@) && jail_mounts(mounts, list)["/dev"@]
            == ("devfs"@, "devfs"@, 0u32),
        (forall|j: int| 0 <= j < list.len() ==> (#[trigger] list[j]).target != "/tmp"@)
            ==> jail_mounts(mounts, list).contains_key("/tmp"@) && jail_mounts(mounts, list)["/tmp"@]
            == ("tmpfs"@, "tmpfs"@, 6u32),
{
    let base = mounts.insert("/dev"@, ("devfs"@, "devfs"@, 0u32)).insert(
        "/tmp"@,
        ("tmpfs"@, "tmpfs"@, 6u32),
    );
    reveal_strlit("/dev");
    reveal_strlit("/tmp");
    assert("/dev"@[1] != "/tmp"@[1]);
    if forall|j: int| 0 <= j < list.len() ==> (#[trigger] list[j]).target != "/dev"@ {
        lemma_last_mount_counts(base, list, "/dev"@, -1);
    }
    if forall|j: int| 0 <= j < list.len() ==> (#[trigger] list[j]).target != "/tmp"@ {
        lemma_last_mount_counts(base, list, "/tmp"@, -1);
    }
}

/// What a jail mounts: the working directory at `/build` and the staging directory at
/// `/dest`, both to be written; and each thing that may be read, in order, where it is on
/// the host and read-only. Nothing is mounted besides.
pub proof fn lemma_everything_planned_is_mounted(
    workdir: Seq<u8>,
    destdir: Seq<u8>,
    readable: Seq<Seq<u8>>,
)
    ensures
        ({
            let list = planned_mounts(workdir, destdir, readable);
            &&& list.len() == readable.len() + 2
            &&& list[0].source == decode_utf8(workdir)
            &&& list[0].target == "/build"@
            &&& list[0].options & 1 == 0
            &&& list[1].source == decode_utf8(destdir)
            &&& list[1].target == "/dest"@
            &&& list[1].options & 1 == 0
            &&& forall|i: int|
                2 <= i < list.len() ==> {
                    let m = #[trigger] list[i];
                    &&& m.source == decode_utf8(readable[i - 2])
                    &&& m.target == m.source
                    &&& m.options & 1 == 1
                }
            &&& forall|i: int| 0 <= i < list.len() ==> (#[trigger] list[i]).options / 2 == 10243
        }),
{
    assert(20487u32 & 1 == 1) by (bit_vector);
    assert(20486u32 & 1 == 0) by (bit_vector);
    let list = planned_mounts(workdir, destdir, readable);
    assert forall|i: int| 2 <= i < list.len() implies #[trigger] list[i] == read_only(
        readable[i - 2],
    ) by {}
}

proof fn lemma_roots_failure(roots: Seq<Seq<u8>>, i: int)
    requires
        0 <= i <= roots.len(),
    ensures
        roots_failure(roots, i) is None <==> forall|j: int|
            i <= j < roots.len() ==> valid_utf8(#[trigger] roots[j]),
        roots_failure(roots, i) matches Some(report) ==> exists|k: int|
            i <= k < roots.len() && !valid_utf8(#[trigger] roots[k]) && report == not_text(roots[k])
                && forall|j: int| i <= j < k ==> valid_utf8(#[trigger] roots[j]),
    decreases roots.len() - i,
{
    if i < roots.len() {
        lemma_roots_failure(roots, i + 1);
        if valid_utf8(roots[i]) && roots_failure(roots, i + 1) is Some {
            let k = choose|k: int|
                i + 1 <= k < roots.len() && !valid_utf8(#[trigger] roots[k])
                    && roots_failure(roots, i + 1)->0 == not_text(roots[k]) && forall|j: int|
                    i + 1 <= j < k ==> valid_utf8(#[trigger] roots[j]);
            assert forall|j: int| i <= j < k implies valid_utf8(#[trigger] roots[j]) by {}
            assert(!valid_utf8(roots[k]));
        }
    }
}

proof fn lemma_extras_failure(list: Seq<ExtraView>, i: int)
    requires
        0 <= i <= list.len(),
    ensures
        extras_failure(list, i) is None <==> forall|j: int|
            i <= j < list.len() ==> ((#[trigger] list[j]).lookup is Found && valid_utf8(
                list[j].lookup->canonical,
            )),
    decreases list.len() - i,
{
    if i < list.len() {
        lemma_extras_failure(list, i + 1);
    }
}

/// A jail can be set up exactly when the working directory and the staging directory are
/// directories that exist, the system directories can be mirrored, everything else that
/// is to be read exists, and all of it can be named as text.
pub proof fn lemma_what_a_jail_takes(
    workdir: ExtraView,
    destdir: ExtraView,
    rootfs: Result<(), ReportView>,
    roots: Seq<Seq<u8>>,
    extras: Seq<ExtraView>,
)
    ensures
        jail_failure(workdir, destdir, rootfs, roots, extras) is None <==> {
            &&& workdir.lookup matches LookupView::Found { canonical, is_dir } && is_dir
                && valid_utf8(canonical)
            &&& destdir.lookup matches LookupView::Found { canonical, is_dir } && is_dir
                && valid_utf8(canonical)
            &&& rootfs is Ok
            &&& forall|j: int| 0 <= j < roots.len() ==> valid_utf8(#[trigger] roots[j])
            &&& forall|j: int|
                0 <= j < extras.len() ==> ((#[trigger] extras[j]).lookup is Found && valid_utf8(
                    extras[j].lookup->canonical,
                ))
        },
        workdir.lookup matches LookupView::Missing(reason) ==> jail_failure(
            workdir,
            destdir,
            rootfs,
            roots,
            extras,
        ) == Some(
            wrapped(
                "the build sandbox working directory `"@ + lossy(workdir.asked)
                    + "` does not exist"@,
                reason,
            ),
        ),
{
    lemma_roots_failure(roots, 0);
    lemma_extras_failure(extras, 0);
    if workdir.lookup is Missing {
        reveal_strlit("the build sandbox ");
        reveal_strlit("working directory");
        reveal_strlit(" `");
        reveal_strlit("the build sandbox working directory `");
        assert("the build sandbox "@ + "working directory"@ + " `"@ + lossy(workdir.asked)
            + "` does not exist"@ =~= "the build sandbox working directory `"@ + lossy(
            workdir.asked,
        ) + "` does not exist"@);
    }
}

/// A toolchain directory is never the root directory, never one of the system directories
/// or in one, and never in the home directory or around it. Everything on the search path
/// that is none of these can be reached through a toolchain directory.
pub proof fn lemma_toolchains_leave_nothing_out(
    candidates: Seq<Seq<u8>>,
    home: Option<Seq<u8>>,
    roots: Seq<Seq<u8>>,
    i: int,
    k: int,
)
    requires
        outermost(candidates, home, roots),
        0 <= i < roots.len(),
        0 <= k < candidates.len(),
    ensures
        candidates.contains(roots[i]),
        crate::path::components(roots[i]).len() > 0,
        crate::path::components(roots[i]).last() != seq![0x2fu8],
        forall|d: int| 0 <= d < 7 ==> !starts_with(roots[i], #[trigger] rootfs_paths()[d]),
        home is Some ==> !starts_with(home->0, roots[i]) && !starts_with(roots[i], home->0),
        forall|j: int|
            0 <= j < roots.len() && j != i ==> !starts_with(roots[i], #[trigger] roots[j]),
        crate::path::components(candidates[k]).len() > 0 && crate::path::components(
            candidates[k],
        ).last() != seq![0x2fu8] && (forall|d: int|
            0 <= d < 7 ==> !starts_with(candidates[k], #[trigger] rootfs_paths()[d])) && (home is Some
            ==> !starts_with(home->0, candidates[k]) && !starts_with(candidates[k], home->0))
            ==> exists|j: int|
            0 <= j < roots.len() && starts_with(candidates[k], #[trigger] roots[j]),
{
    crate::path::lemma_parent_has_all_but_the_last(roots[i]);
    crate::path::lemma_parent_has_all_but_the_last(candidates[k]);
    assert(rootfs_paths().len() == 7);
    assert(admitted(roots[i], home));
    assert forall|d: int| 0 <= d < 7 implies !starts_with(
        roots[i],
        #[trigger] rootfs_paths()[d],
    ) by {
        if starts_with(roots[i], rootfs_paths()[d]) {
            assert(within(roots[i], rootfs_paths()));
        }
    }
    assert forall|j: int| 0 <= j < roots.len() && j != i implies !starts_with(
        roots[i],
        #[trigger] roots[j],
    ) by {
        if starts_with(roots[i], roots[j]) {
            let c = choose|c: int| 0 <= c < candidates.len() && candidates[c] == roots[j];
            assert(admitted(roots[j], home));
            assert(same_path(roots[i], candidates[c]));
            crate::path::lemma_path_order(roots[i], roots[i], roots[i]);
            if i < j {
                assert(path_before(roots[i], roots[j]));
            } else {
                assert(path_before(roots[j], roots[i]));
            }
        }
    }
    if crate::path::components(candidates[k]).len() > 0 && crate::path::components(
        candidates[k],
    ).last() != seq![0x2fu8] && (forall|d: int|
        0 <= d < 7 ==> !starts_with(candidates[k], #[trigger] rootfs_paths()[d])) && (home is Some
        ==> !starts_with(home->0, candidates[k]) && !starts_with(candidates[k], home->0)) {
        assert(admitted(candidates[k], home));
    }
}

/// The system directories that are mirrored.
pub proof fn lemma_mirrored_directories()
    ensures
        rootfs_paths() == seq![
            encode_utf8("/bin"@),
            encode_utf8("/etc"@),
            encode_utf8("/lib"@),
            encode_utf8("/lib32"@),
            encode_utf8("/lib64"@),
            encode_utf8("/sbin"@),
            encode_utf8("/usr"@),
        ],
{
    assert(rootfs_paths() =~= seq![
        encode_utf8("/bin"@),
        encode_utf8("/etc"@),
        encode_utf8("/lib"@),
        encode_utf8("/lib32"@),
        encode_utf8("/lib64"@),
        encode_utf8("/sbin"@),
        encode_utf8("/usr"@),
    ]);
}

/// What is shown of a program is all that stands behind its last slash, or all of it.
pub proof fn lemma_basename_stands_behind_the_last_slash(text: Seq<char>)
    ensures
        ({
            let name = after_last_slash(text);
            let from = text.len() - name.len();
            &&& from >= 0
            &&& name == text.skip(from)
            &&& !name.contains('/')
            &&& from > 0 ==> text[from - 1] == '/'
        }),
    decreases text.len(),
{
    if text.len() > 0 && text.last() != '/' {
        let rest = text.drop_last();
        lemma_basename_stands_behind_the_last_slash(rest);
        let name = after_last_slash(text);
        let from = text.len() - name.len();
        assert(name =~= text.skip(from));
        assert(!name.contains('/')) by {
            if name.contains('/') {
                let k = choose|k: int| 0 <= k < name.len() && name[k] == '/';
                if k < name.len() - 1 {
                    assert(after_last_slash(rest)[k] == '/');
                }
            }
        }
    } else {
        assert(after_last_slash(text) =~= text.skip(text.len() as int));
    }
}

/// A command in a jail has five variables and inherits none: where to install, the search
/// path of the jail, a home and a scratch directory in the jail, and the plain locale.
pub proof fn lemma_jail_inherits_no_variables(name: Seq<char>)
    ensures
        jail_environment().contains_key(name) <==> name == "DESTDIR"@ || name == "PATH"@ || name
            == "HOME"@ || name == "TMPDIR"@ || name == "LC_ALL"@,
        jail_environment()["DESTDIR"@] == "/dest"@,
        jail_environment()["PATH"@]
            == "/usr/local/bin:/usr/local/sbin:/usr/bin:/usr/sbin:/bin:/sbin"@,
        jail_environment()["HOME"@] == "/build"@,
        jail_environment()["TMPDIR"@] == "/tmp"@,
        jail_environment()["LC_ALL"@] == "C"@,
{
    reveal_strlit("DESTDIR");
    reveal_strlit("PATH");
    reveal_strlit("HOME");
    reveal_strlit("TMPDIR");
    reveal_strlit("LC_ALL");
    assert("DESTDIR"@.len() == 7);
    assert("PATH"@.len() == 4 && "PATH"@[0] == 'P');
    assert("HOME"@.len() == 4 && "HOME"@[0] == 'H');
    assert("TMPDIR"@.len() == 6 && "TMPDIR"@[0] == 'T');
    assert("LC_ALL"@.len() == 6 && "LC_ALL"@[0] == 'L');
}

proof fn lemma_first_root(roots: Seq<Seq<u8>>, i: int)
    requires
        0 <= i <= roots.len(),
    ensures
        roots_failure(roots, i) is None <==> forall|j: int|
            i <= j < roots.len() ==> valid_utf8(#[trigger] roots[j]),
        forall|k: int|
            i <= k < roots.len() && !valid_utf8(#[trigger] roots[k]) && (forall|j: int|
                i <= j < k ==> valid_utf8(#[trigger] roots[j])) ==> roots_failure(roots, i) == Some(
                not_text(roots[k]),
            ),
    decreases roots.len() - i,
{
    if i < roots.len() {
        lemma_first_root(roots, i + 1);
    }
}

proof fn lemma_first_extra(list: Seq<ExtraView>, i: int)
    requires
        0 <= i <= list.len(),
    ensures
        forall|k: int|
            i <= k < list.len() && extra_failure(#[trigger] list[k]) is Some && (forall|j: int|
                i <= j < k ==> extra_failure(#[trigger] list[j]) is None) ==> extras_failure(list, i)
                == extra_failure(list[k]),
    decreases list.len() - i,
{
    if i < list.len() {
        lemma_first_extra(list, i + 1);
    }
}

/// What keeps a jail from being set up is told in this order: the working directory, the
/// staging directory, the system directories, the names of the first two, the first
/// toolchain directory without a name, the first thing to be read that is not there or has
/// no name. `k` is the place of that first one.
pub proof fn lemma_first_thing_wrong_is_told(
    workdir: ExtraView,
    destdir: ExtraView,
    rootfs: Result<(), ReportView>,
    roots: Seq<Seq<u8>>,
    extras: Seq<ExtraView>,
    k: int,
)
    ensures
        ({
            let told = jail_failure(workdir, destdir, rootfs, roots, extras);
            let is_good = |e: ExtraView|
                e.lookup matches LookupView::Found { canonical, is_dir } && is_dir;
            let two = is_good(workdir) && is_good(destdir);
            let (work, dest) = (workdir.lookup->canonical, destdir.lookup->canonical);
            let names = two && rootfs is Ok && valid_utf8(work) && valid_utf8(dest);
            let all_roots = forall|j: int| 0 <= j < roots.len() ==> valid_utf8(#[trigger] roots[j]);
            &&& (workdir.lookup matches LookupView::Found { canonical, is_dir } && !is_dir)
                ==> told == Some(
                said(
                    "the build sandbox "@ + "working directory"@ + " `"@ + lossy(work)
                        + "` is not a directory"@,
                ),
            )
            &&& is_good(workdir) ==> match destdir.lookup {
                LookupView::Missing(reason) => told == Some(
                    wrapped(
                        "the build sandbox "@ + "staging directory"@ + " `"@ + lossy(destdir.asked)
                            + "` does not exist"@,
                        reason,
                    ),
                ),
                LookupView::Found { canonical, is_dir } => is_dir || told == Some(
                    said(
                        "the build sandbox "@ + "staging directory"@ + " `"@ + lossy(dest)
                            + "` is not a directory"@,
                    ),
                ),
            }
            &&& two && rootfs is Err ==> told == Some(
                wrapped(
                    "cannot mirror the host system directories into the build sandbox"@,
                    rootfs->Err_0,
                ),
            )
            &&& two && rootfs is Ok && !valid_utf8(work) ==> told == Some(not_text(work))
            &&& two && rootfs is Ok && valid_utf8(work) && !valid_utf8(dest) ==> told == Some(
                not_text(dest),
            )
            &&& names && 0 <= k < roots.len() && !valid_utf8(roots[k]) && (forall|j: int|
                0 <= j < k ==> valid_utf8(#[trigger] roots[j])) ==> told == Some(
                not_text(roots[k]),
            )
            &&& names && all_roots && 0 <= k < extras.len() && extra_failure(extras[k]) is Some && (
            forall|j: int| 0 <= j < k ==> extra_failure(#[trigger] extras[j]) is None) ==> told
                == extra_failure(extras[k])
        }),
{
    lemma_first_root(roots, 0);
    lemma_first_extra(extras, 0);
}

/// What is said of something that is to be read and is not there, and of a path that has
/// no name in a jail.
pub proof fn lemma_what_is_said_of_paths(extra: ExtraView, p: Seq<u8>)
    ensures
        extra.lookup matches LookupView::Missing(reason) ==> extra_failure(extra) == Some(
            wrapped(
                "cannot expose `"@ + lossy(extra.asked)
                    + "` to the build sandbox: it does not exist"@,
                reason,
            ),
        ),
        extra.lookup matches LookupView::Found { canonical, is_dir } ==> (extra_failure(extra)
            is None <==> valid_utf8(canonical)) && (!valid_utf8(canonical) ==> extra_failure(extra)
            == Some(not_text(canonical))),
        not_text(p) == said(
            "Path `"@ + lossy(p)
                + "` is not valid UTF-8 and cannot be used inside the build sandbox"@,
        ),
{
}

/// What is said of a program that cannot be executed in a jail: that it was found
/// nowhere, or where it was found.
pub proof fn lemma_what_is_said_of_programs(
    step: Seq<char>,
    program: Seq<char>,
    found: Seq<Seq<u8>>,
    visible: Seq<Seq<u8>>,
    i: int,
)
    ensures
        found.len() == 0 ==> searched(step, program, found, visible) == Err::<Seq<char>, ReportView>(
            said(
                "Step `"@ + step + "` wants `"@ + program
                    + "`, which is not on PATH. The build sandbox execs programs directly - there is no shell and no PATH search inside it - so the program has to exist on the host that configures the jail."@,
            ),
        ),
        found.len() > 0 && (forall|j: int, d: int|
            0 <= j < found.len() && 0 <= d < visible.len() ==> !starts_with(
                #[trigger] found[j],
                #[trigger] visible[d],
            )) ==> searched(step, program, found, visible) == Err::<Seq<char>, ReportView>(
            said(
                "Step `"@ + step + "` wants `"@ + program + "`, which resolves to "@ + listed_paths(
                    found,
                )
                    + " on this host - outside every directory the build sandbox can see. Pass the directory holding it to `BuildSandbox::new` as an `extra_ro` path, or install the program under /usr."@,
            ),
        ),
        found.len() == 1 ==> listed_paths(found) == seq!['`'] + lossy(found[0]) + seq!['`'],
        found.len() > 1 ==> listed_paths(found) == listed_paths(found.drop_last()) + seq![
            ',',
            ' ',
            '`',
        ] + lossy(found.last()) + seq!['`'],
{
    lemma_first_visible_is_first(found, visible, 0);
    if found.len() > 0 && (forall|j: int, d: int|
        0 <= j < found.len() && 0 <= d < visible.len() ==> !starts_with(
            #[trigger] found[j],
            #[trigger] visible[d],
        )) {
        lemma_invisible_program_is_refused(step, program, found, visible);
    }
    reveal_strlit("`");
    reveal_strlit(", ");
    assert("`"@ =~= seq!['`']);
    let shown = found.map_values(|p: Seq<u8>| "`"@ + lossy(p) + "`"@);
    if found.len() > 1 {
        assert(shown.drop_last() =~= found.drop_last().map_values(
            |p: Seq<u8>| "`"@ + lossy(p) + "`"@,
        ));
        assert(listed_paths(found) =~= listed_paths(found.drop_last()) + seq![',', ' ', '`']
            + lossy(found.last()) + seq!['`']);
    }
}

/// What is said of a program that is spelled with a slash, lies in neither of the two
/// directories of a build, and is not there or not to be seen.
pub proof fn lemma_what_is_said_of_spelled_programs(
    step: Seq<char>,
    program: Seq<u8>,
    canonical: Result<Seq<u8>, ReportView>,
    workdir: Seq<u8>,
    destdir: Seq<u8>,
    visible: Seq<Seq<u8>>,
)
    requires
        program.len() > 0,
        program[0] == 0x2f,
        !starts_with(program, workdir),
        !starts_with(program, destdir),
    ensures
        canonical matches Err(reason) ==> located(
            step,
            program,
            canonical,
            workdir,
            destdir,
            visible,
        ) == Err::<Seq<char>, ReportView>(
            wrapped(
                "Step `"@ + step + "` wants `"@ + lossy(program)
                    + "`, which does not exist on this host"@,
                reason,
            ),
        ),
        canonical matches Ok(p) ==> (forall|d: int|
            0 <= d < visible.len() ==> !starts_with(p, #[trigger] visible[d])) ==> located(
            step,
            program,
            canonical,
            workdir,
            destdir,
            visible,
        ) == Err::<Seq<char>, ReportView>(
            said(
                "Step `"@ + step + "` wants `"@ + lossy(program) + "`, which resolves to `"@
                    + lossy(p)
                    + "` - outside every directory the build sandbox can see. Pass the directory holding it to `BuildSandbox::new` as an `extra_ro` path."@,
            ),
        ),
{
    lemma_spelled_programs_are_found_where_they_are(
        step,
        program,
        canonical,
        workdir,
        destdir,
        visible,
    );
}

/// What was captured is told stream by stream, what went to standard output first where
/// it was captured at all; each without the white space around it, or with a remark where
/// there is nothing else.
pub proof fn lemma_what_is_told_of_output(bytes: Seq<u8>, captured: Captured)
    ensures
        trimmed(lossy(bytes)).len() == 0 ==> stream_text(bytes) == "<no output>"@,
        trimmed(lossy(bytes)).len() > 0 ==> stream_text(bytes) == trimmed(lossy(bytes)),
        captured.stdout is None ==> captured_text(captured) == "stderr:\n"@ + stream_text(
            captured.stderr@,
        ),
        captured.stdout matches Some(stdout) ==> captured_text(captured) == "stdout:\n"@
            + stream_text(stdout@) + "\n"@ + ("stderr:\n"@ + stream_text(captured.stderr@)),
{
}

} // verus!
