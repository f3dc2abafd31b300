//! System calls of x86_64.
//!
//! A traced program stops at every system call. What a call is about to do is read
//! out of its arguments and out of the program's memory; what to read there, and what
//! it means, is decided here.

use vstd::prelude::*;

use crate::path::{is_absolute, joined_path, FilePath};
use crate::perms::monitor::Observation;
use crate::perms::{path_of, Permission, PermissionView};
use crate::text::{push_signed, signed_decimal};

verus! {

/// What a decoded syscall argument turns into. The numbers are argument positions.
#[derive(Debug, Clone, Copy, PartialEq, Eq, Structural)]
pub enum Shape {
    /// `open`-family: write-ness is read out of the flags.
    Open {
        dirfd: Option<u8>,
        path: u8,
        flags: u8,
    },
    /// `openat2`: flags live in a `struct open_how` rather than a register.
    OpenHow {
        dirfd: Option<u8>,
        path: u8,
        how: u8,
    },
    /// Reads metadata or contents at a path.
    Read {
        dirfd: Option<u8>,
        path: u8,
    },
    /// Creates or removes a path.
    Write {
        dirfd: Option<u8>,
        path: u8,
    },
    /// Renames: two paths, both written.
    Rename {
        old_dirfd: Option<u8>,
        old_path: u8,
        new_dirfd: Option<u8>,
        new_path: u8,
    },
    /// `execve`-family.
    Exec {
        dirfd: Option<u8>,
        path: u8,
    },
    /// `fork`/`clone`-family.
    Spawn,
    /// `socket`: the address family is a plain register.
    SocketDomain {
        domain: u8,
    },
    /// `connect`/`bind`/`sendto`: the family lives in the `sockaddr` at `addr`.
    SockAddr {
        addr: u8,
        len: u8,
        binds: bool,
    },
}

/// The syscalls worth decoding, by number.
pub open spec fn syscall_entry(number: u64) -> Option<(&'static str, Shape)> {
    if number == 2 {
        Some(("open", Shape::Open { dirfd: None, path: 0, flags: 1 }))
    } else if number == 257 {
        Some(("openat", Shape::Open { dirfd: Some(0), path: 1, flags: 2 }))
    } else if number == 437 {
        Some(("openat2", Shape::OpenHow { dirfd: Some(0), path: 1, how: 2 }))
    } else if number == 4 {
        Some(("stat", Shape::Read { dirfd: None, path: 0 }))
    } else if number == 6 {
        Some(("lstat", Shape::Read { dirfd: None, path: 0 }))
    } else if number == 262 {
        Some(("newfstatat", Shape::Read { dirfd: Some(0), path: 1 }))
    } else if number == 332 {
        Some(("statx", Shape::Read { dirfd: Some(0), path: 1 }))
    } else if number == 21 {
        Some(("access", Shape::Read { dirfd: None, path: 0 }))
    } else if number == 269 {
        Some(("faccessat", Shape::Read { dirfd: Some(0), path: 1 }))
    } else if number == 439 {
        Some(("faccessat2", Shape::Read { dirfd: Some(0), path: 1 }))
    } else if number == 89 {
        Some(("readlink", Shape::Read { dirfd: None, path: 0 }))
    } else if number == 267 {
        Some(("readlinkat", Shape::Read { dirfd: Some(0), path: 1 }))
    } else if number == 87 {
        Some(("unlink", Shape::Write { dirfd: None, path: 0 }))
    } else if number == 263 {
        Some(("unlinkat", Shape::Write { dirfd: Some(0), path: 1 }))
    } else if number == 83 {
        Some(("mkdir", Shape::Write { dirfd: None, path: 0 }))
    } else if number == 258 {
        Some(("mkdirat", Shape::Write { dirfd: Some(0), path: 1 }))
    } else if number == 82 {
        Some(
            (
                "rename",
                Shape::Rename { old_dirfd: None, old_path: 0, new_dirfd: None, new_path: 1 },
            ),
        )
    } else if number == 264 {
        Some(
            (
                "renameat",
                Shape::Rename { old_dirfd: Some(0), old_path: 1, new_dirfd: Some(2), new_path: 3 },
            ),
        )
    } else if number == 316 {
        Some(
            (
                "renameat2",
                Shape::Rename { old_dirfd: Some(0), old_path: 1, new_dirfd: Some(2), new_path: 3 },
            ),
        )
    } else if number == 59 {
        Some(("execve", Shape::Exec { dirfd: None, path: 0 }))
    } else if number == 322 {
        Some(("execveat", Shape::Exec { dirfd: Some(0), path: 1 }))
    } else if number == 57 {
        Some(("fork", Shape::Spawn))
    } else if number == 58 {
        Some(("vfork", Shape::Spawn))
    } else if number == 56 {
        Some(("clone", Shape::Spawn))
    } else if number == 435 {
        Some(("clone3", Shape::Spawn))
    } else if number == 41 {
        Some(("socket", Shape::SocketDomain { domain: 0 }))
    } else if number == 42 {
        Some(("connect", Shape::SockAddr { addr: 1, len: 2, binds: false }))
    } else if number == 49 {
        Some(("bind", Shape::SockAddr { addr: 1, len: 2, binds: true }))
    } else if number == 44 {
        Some(("sendto", Shape::SockAddr { addr: 4, len: 5, binds: false }))
    } else {
        None
    }
}

/// What is known of the syscall with this number.
pub fn lookup(number: u64) -> (r: Option<(&'static str, Shape)>)
    ensures
        r == syscall_entry(number),
{
    if number == 2 {
        Some(("open", Shape::Open { dirfd: None, path: 0, flags: 1 }))
    } else if number == 257 {
        Some(("openat", Shape::Open { dirfd: Some(0), path: 1, flags: 2 }))
    } else if number == 437 {
        Some(("openat2", Shape::OpenHow { dirfd: Some(0), path: 1, how: 2 }))
    } else if number == 4 {
        Some(("stat", Shape::Read { dirfd: None, path: 0 }))
    } else if number == 6 {
        Some(("lstat", Shape::Read { dirfd: None, path: 0 }))
    } else if number == 262 {
        Some(("newfstatat", Shape::Read { dirfd: Some(0), path: 1 }))
    } else if number == 332 {
        Some(("statx", Shape::Read { dirfd: Some(0), path: 1 }))
    } else if number == 21 {
        Some(("access", Shape::Read { dirfd: None, path: 0 }))
    } else if number == 269 {
        Some(("faccessat", Shape::Read { dirfd: Some(0), path: 1 }))
    } else if number == 439 {
        Some(("faccessat2", Shape::Read { dirfd: Some(0), path: 1 }))
    } else if number == 89 {
        Some(("readlink", Shape::Read { dirfd: None, path: 0 }))
    } else if number == 267 {
        Some(("readlinkat", Shape::Read { dirfd: Some(0), path: 1 }))
    } else if number == 87 {
        Some(("unlink", Shape::Write { dirfd: None, path: 0 }))
    } else if number == 263 {
        Some(("unlinkat", Shape::Write { dirfd: Some(0), path: 1 }))
    } else if number == 83 {
        Some(("mkdir", Shape::Write { dirfd: None, path: 0 }))
    } else if number == 258 {
        Some(("mkdirat", Shape::Write { dirfd: Some(0), path: 1 }))
    } else if number == 82 {
        Some(
            (
                "rename",
                Shape::Rename { old_dirfd: None, old_path: 0, new_dirfd: None, new_path: 1 },
            ),
        )
    } else if number == 264 {
        Some(
            (
                "renameat",
                Shape::Rename { old_dirfd: Some(0), old_path: 1, new_dirfd: Some(2), new_path: 3 },
            ),
        )
    } else if number == 316 {
        Some(
            (
                "renameat2",
                Shape::Rename { old_dirfd: Some(0), old_path: 1, new_dirfd: Some(2), new_path: 3 },
            ),
        )
    } else if number == 59 {
        Some(("execve", Shape::Exec { dirfd: None, path: 0 }))
    } else if number == 322 {
        Some(("execveat", Shape::Exec { dirfd: Some(0), path: 1 }))
    } else if number == 57 {
        Some(("fork", Shape::Spawn))
    } else if number == 58 {
        Some(("vfork", Shape::Spawn))
    } else if number == 56 {
        Some(("clone", Shape::Spawn))
    } else if number == 435 {
        Some(("clone3", Shape::Spawn))
    } else if number == 41 {
        Some(("socket", Shape::SocketDomain { domain: 0 }))
    } else if number == 42 {
        Some(("connect", Shape::SockAddr { addr: 1, len: 2, binds: false }))
    } else if number == 49 {
        Some(("bind", Shape::SockAddr { addr: 1, len: 2, binds: true }))
    } else if number == 44 {
        Some(("sendto", Shape::SockAddr { addr: 4, len: 5, binds: false }))
    } else {
        None
    }
}

/// The lower half of a register.
pub open spec fn low_half(x: u64) -> u64 {
    x % 0x1_0000_0000
}

/// The number that means "the current directory" where a directory is named by a
/// file descriptor: -100, as a number of 32 bits.
pub const AT_FDCWD: u64 = 0xffff_ff9c;

pub const AF_UNIX: u64 = 1;

pub const AF_INET: u64 = 2;

pub const AF_INET6: u64 = 10;

/// Longest path that is copied out of a tracee.
pub const PATH_MAX: usize = 4096;

/// Whether an address family is the actual network.
pub open spec fn is_network(family: u64) -> bool {
    family == AF_INET || family == AF_INET6
}

/// Whether a syscall's result is a negated error number: one of the last 4095
/// values there are.
pub open spec fn is_error(rax: u64) -> bool {
    rax >= 0xffff_ffff_ffff_f001
}

/// Whether a syscall return value is a negated errno rather than a result.
pub fn is_errno(rax: u64) -> (r: bool)
    ensures
        r == is_error(rax),
{
    rax >= 0xffff_ffff_ffff_f001
}

/// Whether opening with these flags is for writing: `O_WRONLY`, `O_RDWR`, `O_CREAT`,
/// `O_TRUNC` or `O_APPEND`.
pub open spec fn opens_for_writing(flags: u64) -> bool {
    flags & 3 == 1 || flags & 3 == 2 || flags & 1600 != 0
}

/// What opening `path` with `flags` takes.
pub open spec fn open_needs(path: Seq<u8>, flags: u64) -> PermissionView {
    if opens_for_writing(flags) {
        PermissionView::WritePath(path)
    } else {
        PermissionView::ReadPath(path)
    }
}

fn open_permission(path: FilePath, flags: u64) -> (r: Permission)
    ensures
        r@ == open_needs(path@, flags),
{
    if flags & 3 == 1 || flags & 3 == 2 || flags & 1600 != 0 {
        Permission::WritePath(path)
    } else {
        Permission::ReadPath(path)
    }
}

/// Where a relative path starts.
#[derive(Debug, Clone, Copy, PartialEq, Eq, Structural)]
pub enum Base {
    /// At the tracee's current directory.
    Cwd,
    /// At the directory behind a file descriptor, a number of 32 bits.
    Fd(u32),
}

/// Where a relative path starts, going by the argument that names its directory.
pub open spec fn base_for(dirfd: Option<u64>) -> Base {
    match dirfd {
        None => Base::Cwd,
        Some(fd) => if low_half(fd) == AT_FDCWD {
            Base::Cwd
        } else {
            Base::Fd(low_half(fd) as u32)
        },
    }
}

/// A number of 32 bits as a signed number.
pub open spec fn signed_half(n: u32) -> int {
    if n < 0x8000_0000 {
        n as int
    } else {
        n - 0x1_0000_0000
    }
}

/// The link that leads to where a relative path starts.
pub open spec fn link_text(pid: int, base: Base) -> Seq<char> {
    "/proc/"@ + signed_decimal(pid) + match base {
        Base::Cwd => "/cwd"@,
        Base::Fd(fd) => "/fd/"@ + signed_decimal(signed_half(fd)),
    }
}

impl Base {
    /// Where a relative path starts, going by the argument that names its directory.
    pub fn of(dirfd: Option<u64>) -> (r: Base)
        ensures
            r == base_for(dirfd),
    {
        match dirfd {
            None => Base::Cwd,
            Some(fd) => {
                let low: u64 = fd % 0x1_0000_0000;
                if low == AT_FDCWD {
                    Base::Cwd
                } else {
                    Base::Fd(low as u32)
                }
            },
        }
    }

    /// The link that leads there.
    pub fn link(&self, pid: i32) -> (r: String)
        ensures
            r@ == link_text(pid as int, *self),
    {
        let mut r = "/proc/".to_owned();
        push_signed(&mut r, pid);
        match self {
            Base::Cwd => r.push_str("/cwd"),
            Base::Fd(fd) => {
                r.push_str("/fd/");
                let signed: i32 = if *fd < 0x8000_0000 {
                    *fd as i32
                } else {
                    (*fd as i64 - 0x1_0000_0000) as i32
                };
                push_signed(&mut r, signed);
            },
        }
        assert(r@ =~= link_text(pid as int, *self));
        r
    }
}

/// A path argument: the path, and whether it is known where it is, which it is only
/// when it is absolute.
#[derive(Debug, PartialEq, Eq)]
pub struct Located {
    pub path: FilePath,
    pub resolved: bool,
}

/// What a [`Located`] says.
pub struct LocatedView {
    pub path: Seq<u8>,
    pub resolved: bool,
}

impl LocatedView {
    /// The path is called resolved exactly when it is absolute.
    pub open spec fn wf(self) -> bool {
        self.resolved == is_absolute(self.path)
    }
}

impl View for Located {
    type V = LocatedView;

    open spec fn view(&self) -> LocatedView {
        LocatedView { path: self.path@, resolved: self.resolved }
    }
}

/// Where a path argument leads, when `link` is what the link to its base reads. A
/// base that is no directory, such as a socket, does not count; without a base a
/// relative path is kept exactly as it was passed.
pub open spec fn located(path: Seq<u8>, link: Option<Seq<u8>>) -> LocatedView {
    if is_absolute(path) {
        LocatedView { path, resolved: true }
    } else if link is Some && is_absolute(link->0) {
        if path.len() == 0 {
            LocatedView { path: link->0, resolved: true }
        } else {
            LocatedView { path: joined_path(link->0, path), resolved: true }
        }
    } else {
        LocatedView { path, resolved: false }
    }
}

/// Make a path argument absolute if that can honestly be done.
pub fn locate(path: FilePath, link: Option<FilePath>) -> (r: Located)
    ensures
        r@ == located(path@, crate::bf::optional_path(link)),
        r@.wf(),
{
    if path.is_absolute() {
        return Located { path, resolved: true };
    }
    match link {
        Some(base) => {
            if !base.is_absolute() {
                Located { path, resolved: false }
            } else if path.is_empty() {
                Located { path: base, resolved: true }
            } else {
                Located { path: base.join(&path), resolved: true }
            }
        },
        None => Located { path, resolved: false },
    }
}

/// A path that is being copied out of a tracee, some bytes at a time.
#[derive(Debug)]
pub struct PathReader {
    /// What has been copied, none of it NUL.
    pub copied: Vec<u8>,
    /// Where the next byte is.
    pub cursor: u64,
}

/// What came of some more bytes of a path.
pub enum PathStep {
    /// The path ended.
    Path(FilePath),
    /// There is more to read.
    More,
    /// There is no path to be had: nothing could be read, or it does not end in time.
    Failed,
}

impl PathReader {
    /// No more has been copied than a path may be long, and no byte of it is NUL.
    pub open spec fn wf(&self) -> bool {
        &&& self.copied@.len() <= PATH_MAX
        &&& !self.copied@.contains(0u8)
    }

    /// Start at `addr`. There is nothing at the null pointer.
    pub fn new(addr: u64) -> (r: Option<PathReader>)
        ensures
            r is Some <==> addr != 0,
            r is Some ==> r->0.wf() && r->0.copied@.len() == 0 && r->0.cursor == addr,
    {
        if addr == 0 {
            None
        } else {
            Some(PathReader { copied: Vec::new(), cursor: addr })
        }
    }

    /// How many bytes to read next, and never across a page: the next page may not
    /// be there at all. `None` when a path cannot be that long.
    pub fn want(&self) -> (r: Option<usize>)
        requires
            self.wf(),
        ensures
            r is Some <==> self.copied@.len() < PATH_MAX,
            r is Some ==> {
                let page = 4096 - (self.cursor % 4096) as int;
                let left = PATH_MAX - self.copied@.len();
                &&& r->0 == (if page <= left && page <= 256 {
                    page
                } else if left <= 256 {
                    left
                } else {
                    256
                })
                &&& 0 < r->0
                &&& self.cursor % 4096 + r->0 <= 4096
            },
    {
        if self.copied.len() >= PATH_MAX {
            return None;
        }
        let page: usize = (4096 - self.cursor % 4096) as usize;
        let left: usize = PATH_MAX - self.copied.len();
        if page <= left && page <= 256 {
            Some(page)
        } else if left <= 256 {
            Some(left)
        } else {
            Some(256)
        }
    }

    /// Take what was read, at most as many bytes as were wanted.
    pub fn feed(&mut self, chunk: &[u8]) -> (r: PathStep)
        requires
            old(self).wf(),
            old(self).copied@.len() + chunk@.len() <= PATH_MAX,
        ensures
            r is Failed <==> chunk@.len() == 0 || (!chunk@.contains(0u8) && old(self).copied@.len()
                + chunk@.len() == PATH_MAX),
            r is Path <==> chunk@.contains(0u8),
            match r {
                PathStep::Path(path) => {
                    let end = chunk@.index_of_first(0u8)->0;
                    &&& chunk@.index_of_first(0u8) is Some
                    &&& path@ == old(self).copied@ + chunk@.take(end)
                    &&& !path@.contains(0u8)
                },
                PathStep::More => {
                    &&& final(self).wf()
                    &&& final(self).copied@ == old(self).copied@ + chunk@
                    &&& final(self).cursor == (old(self).cursor + chunk@.len()) % 0x1_0000_0000_0000_0000
                },
                PathStep::Failed => true,
            },
    {
        let ghost before = self.copied@;
        if chunk.len() == 0 {
            return PathStep::Failed;
        }
        let mut end: usize = 0;
        while end < chunk.len() && chunk[end] != 0
            invariant
                end <= chunk@.len(),
                forall|j: int| 0 <= j < end ==> chunk@[j] != 0u8,
            decreases chunk@.len() - end,
        {
            end += 1;
        }
        self.copied.extend_from_slice(&chunk[0..end]);
        assert(self.copied@ =~= before + chunk@.take(end as int));
        assert(!self.copied@.contains(0u8)) by {
            if self.copied@.contains(0u8) {
                let i = choose|i: int| 0 <= i < self.copied@.len() && self.copied@[i] == 0u8;
                if i < before.len() {
                    assert(before[i] == 0u8);
                } else {
                    assert(chunk@[i - before.len()] == 0u8);
                }
            }
        }
        if end < chunk.len() {
            proof {
                assert(chunk@[end as int] == 0u8);
                chunk@.index_of_first_ensures(0u8);
                let first = chunk@.index_of_first(0u8)->0;
                assert(first == end);
            }
            let path = FilePath::from_bytes(self.copied.as_slice());
            return PathStep::Path(path);
        }
        assert(chunk@.take(end as int) =~= chunk@);
        if self.copied.len() == PATH_MAX {
            return PathStep::Failed;
        }
        self.cursor = self.cursor.wrapping_add(chunk.len() as u64);
        PathStep::More
    }
}

/// The bytes in front of the first NUL.
pub open spec fn until_nul(bytes: Seq<u8>) -> Seq<u8>
    decreases bytes.len(),
{
    if bytes.len() == 0 || bytes[0] == 0 {
        Seq::empty()
    } else {
        seq![bytes[0]] + until_nul(bytes.skip(1))
    }
}

proof fn lemma_until_nul(bytes: Seq<u8>, end: int)
    requires
        0 <= end <= bytes.len(),
        forall|j: int| 0 <= j < end ==> bytes[j] != 0,
        end < bytes.len() ==> bytes[end] == 0,
    ensures
        until_nul(bytes) == bytes.take(end),
    decreases end,
{
    if end > 0 {
        let rest = bytes.skip(1);
        assert forall|j: int| 0 <= j < end - 1 implies rest[j] != 0 by {
            assert(rest[j] == bytes[j + 1]);
        }
        lemma_until_nul(rest, end - 1);
        assert(bytes.take(end) =~= seq![bytes[0]] + rest.take(end - 1));
    } else {
        assert(bytes.take(end) =~= Seq::<u8>::empty());
    }
}

/// The address family behind a `sockaddr`, with the path of a local socket.
#[derive(Debug, PartialEq, Eq)]
pub enum Family {
    /// The network.
    Inet,
    /// A path on the file system, not the network.
    Unix(FilePath),
    /// Anything else.
    Other,
}

/// What a [`Family`] says.
pub enum FamilyView {
    Inet,
    Unix(Seq<u8>),
    Other,
}

impl View for Family {
    type V = FamilyView;

    open spec fn view(&self) -> FamilyView {
        match *self {
            Family::Inet => FamilyView::Inet,
            Family::Unix(path) => FamilyView::Unix(path@),
            Family::Other => FamilyView::Other,
        }
    }
}

/// The family of an address: two bytes, the less significant first. An abstract
/// socket starts with a NUL and has no path at all.
pub open spec fn family_of(bytes: Seq<u8>) -> Option<FamilyView> {
    if bytes.len() < 2 {
        None
    } else {
        let family = (bytes[0] + bytes[1] * 0x100) as u64;
        let rest = bytes.skip(2);
        if is_network(family) {
            Some(FamilyView::Inet)
        } else if family != AF_UNIX || rest.len() == 0 || rest[0] == 0 {
            Some(FamilyView::Other)
        } else {
            Some(FamilyView::Unix(until_nul(rest)))
        }
    }
}

/// The view of an optional family.
pub open spec fn optional_family(f: Option<Family>) -> Option<FamilyView> {
    match f {
        Some(family) => Some(family@),
        None => None,
    }
}

/// How much of an address to read, or nothing where there is none.
pub fn sockaddr_want(addr: u64, len: u64) -> (r: Option<usize>)
    ensures
        r is Some <==> addr != 0 && len >= 2,
        r is Some ==> r->0 == (if len <= 2 + PATH_MAX {
            len as int
        } else {
            2 + PATH_MAX
        }),
{
    if addr == 0 || len < 2 {
        None
    } else if len <= (2 + PATH_MAX) as u64 {
        Some(len as usize)
    } else {
        Some(2 + PATH_MAX)
    }
}

/// Classify an address.
pub fn sockaddr(bytes: &Vec<u8>) -> (r: Option<Family>)
    ensures
        optional_family(r) == family_of(bytes@),
{
    if bytes.len() < 2 {
        return None;
    }
    let family: u64 = bytes[0] as u64 + bytes[1] as u64 * 0x100;
    if family == AF_INET || family == AF_INET6 {
        return Some(Family::Inet);
    }
    if family != AF_UNIX || bytes.len() == 2 || bytes[2] == 0 {
        assert(bytes@.len() > 2 ==> bytes@.skip(2)[0] == bytes@[2]);
        return Some(Family::Other);
    }
    let mut end: usize = 2;
    while end < bytes.len() && bytes[end] != 0
        invariant
            2 <= end <= bytes@.len(),
            forall|j: int| 2 <= j < end ==> bytes@[j] != 0,
        decreases bytes@.len() - end,
    {
        end += 1;
    }
    proof {
        let rest = bytes@.skip(2);
        assert(rest[0] == bytes@[2]);
        assert forall|j: int| 0 <= j < end - 2 implies rest[j] != 0 by {
            assert(rest[j] == bytes@[j + 2]);
        }
        lemma_until_nul(rest, end - 2);
        assert(rest.take(end - 2) =~= bytes@.subrange(2, end as int));
    }
    Some(Family::Unix(FilePath::from_bytes(&bytes.as_slice()[2..end])))
}

/// A path argument of a call: the argument that names its directory, and where the
/// path is.
#[derive(Debug, Clone, Copy, PartialEq, Eq, Structural)]
pub struct PathArg {
    pub dirfd: Option<u64>,
    pub addr: u64,
}

/// The argument at an optional position.
pub open spec fn optional_arg(args: Seq<u64>, at: Option<u8>) -> Option<u64> {
    match at {
        Some(i) => Some(args[i as int]),
        None => None,
    }
}

/// The path argument at these positions.
pub open spec fn path_arg_at(args: Seq<u64>, dirfd: Option<u8>, path: u8) -> PathArg {
    PathArg { dirfd: optional_arg(args, dirfd), addr: args[path as int] }
}

/// The path arguments of a call, in order.
pub open spec fn path_args_of(shape: Shape, args: Seq<u64>) -> Seq<PathArg> {
    match shape {
        Shape::Open { dirfd, path, flags } => seq![path_arg_at(args, dirfd, path)],
        Shape::OpenHow { dirfd, path, how } => seq![path_arg_at(args, dirfd, path)],
        Shape::Read { dirfd, path } => seq![path_arg_at(args, dirfd, path)],
        Shape::Write { dirfd, path } => seq![path_arg_at(args, dirfd, path)],
        Shape::Rename { old_dirfd, old_path, new_dirfd, new_path } => seq![
            path_arg_at(args, old_dirfd, old_path),
            path_arg_at(args, new_dirfd, new_path),
        ],
        Shape::Exec { dirfd, path } => seq![path_arg_at(args, dirfd, path)],
        Shape::Spawn => Seq::empty(),
        Shape::SocketDomain { domain } => Seq::empty(),
        Shape::SockAddr { addr, len, binds } => Seq::empty(),
    }
}

/// Every position of a shape is one of the six there are.
pub open spec fn in_registers(shape: Shape) -> bool {
    match shape {
        Shape::Open { dirfd, path, flags } => (dirfd is Some ==> dirfd->0 < 6) && path < 6 && flags
            < 6,
        Shape::OpenHow { dirfd, path, how } => (dirfd is Some ==> dirfd->0 < 6) && path < 6 && how < 6,
        Shape::Read { dirfd, path } => (dirfd is Some ==> dirfd->0 < 6) && path < 6,
        Shape::Write { dirfd, path } => (dirfd is Some ==> dirfd->0 < 6) && path < 6,
        Shape::Rename { old_dirfd, old_path, new_dirfd, new_path } => (old_dirfd is Some
            ==> old_dirfd->0 < 6) && old_path < 6 && (new_dirfd is Some ==> new_dirfd->0 < 6)
            && new_path < 6,
        Shape::Exec { dirfd, path } => (dirfd is Some ==> dirfd->0 < 6) && path < 6,
        Shape::Spawn => true,
        Shape::SocketDomain { domain } => domain < 6,
        Shape::SockAddr { addr, len, binds } => addr < 6 && len < 6,
    }
}

fn path_arg(args: &[u64; 6], dirfd: Option<u8>, path: u8) -> (r: PathArg)
    requires
        dirfd is Some ==> dirfd->0 < 6,
        path < 6,
    ensures
        r == path_arg_at(args@, dirfd, path),
{
    let named: Option<u64> = match dirfd {
        Some(i) => Some(args[i as usize]),
        None => None,
    };
    PathArg { dirfd: named, addr: args[path as usize] }
}

/// A call that is about to be made.
#[derive(Debug, Clone, Copy, PartialEq, Eq)]
pub struct Entry {
    pub name: &'static str,
    pub shape: Shape,
    pub args: [u64; 6],
}

impl Entry {
    /// The call is one of those worth decoding.
    pub open spec fn wf(&self) -> bool {
        in_registers(self.shape)
    }

    /// The paths to copy out of the tracee.
    pub fn paths(&self) -> (r: Vec<PathArg>)
        requires
            self.wf(),
        ensures
            r@ == path_args_of(self.shape, self.args@),
    {
        let mut r: Vec<PathArg> = Vec::new();
        match self.shape {
            Shape::Open { dirfd, path, flags } => r.push(path_arg(&self.args, dirfd, path)),
            Shape::OpenHow { dirfd, path, how } => r.push(path_arg(&self.args, dirfd, path)),
            Shape::Read { dirfd, path } => r.push(path_arg(&self.args, dirfd, path)),
            Shape::Write { dirfd, path } => r.push(path_arg(&self.args, dirfd, path)),
            Shape::Rename { old_dirfd, old_path, new_dirfd, new_path } => {
                r.push(path_arg(&self.args, old_dirfd, old_path));
                r.push(path_arg(&self.args, new_dirfd, new_path));
            },
            Shape::Exec { dirfd, path } => r.push(path_arg(&self.args, dirfd, path)),
            Shape::Spawn => {},
            Shape::SocketDomain { domain } => {},
            Shape::SockAddr { addr, len, binds } => {},
        }
        assert(r@ =~= path_args_of(self.shape, self.args@));
        r
    }

    /// Where the eight bytes of flags of an `openat2` are.
    pub fn flags_at(&self) -> (r: Option<u64>)
        requires
            self.wf(),
        ensures
            r == (match self.shape {
                Shape::OpenHow { dirfd, path, how } => Some(self.args@[how as int]),
                _ => None,
            }),
    {
        match self.shape {
            Shape::OpenHow { dirfd, path, how } => Some(self.args[how as usize]),
            _ => None,
        }
    }

    /// Where the address of a socket is, and how many bytes it has.
    pub fn sockaddr_at(&self) -> (r: Option<(u64, u64)>)
        requires
            self.wf(),
        ensures
            r == (match self.shape {
                Shape::SockAddr { addr, len, binds } => Some(
                    (self.args@[addr as int], self.args@[len as int]),
                ),
                _ => None,
            }),
    {
        match self.shape {
            Shape::SockAddr { addr, len, binds } => Some(
                (self.args[addr as usize], self.args[len as usize]),
            ),
            _ => None,
        }
    }
}

/// What was read out of a tracee for a call.
#[derive(Debug)]
pub struct Reads {
    /// What became of each path argument.
    pub paths: Vec<Option<Located>>,
    /// Whether the first path is a directory.
    pub directory: bool,
    /// The flags of an `openat2`, as bytes.
    pub flags: Option<Vec<u8>>,
    /// The address of a socket.
    pub sockaddr: Option<Vec<u8>>,
}

/// What [`Reads`] says.
pub struct ReadsView {
    pub paths: Seq<Option<LocatedView>>,
    pub directory: bool,
    pub flags: Option<Seq<u8>>,
    pub sockaddr: Option<Seq<u8>>,
}

/// The view of an optional path argument.
pub open spec fn optional_located(l: Option<Located>) -> Option<LocatedView> {
    match l {
        Some(located) => Some(located@),
        None => None,
    }
}

/// The view of optional bytes.
pub open spec fn optional_bytes(b: Option<Vec<u8>>) -> Option<Seq<u8>> {
    match b {
        Some(bytes) => Some(bytes@),
        None => None,
    }
}

impl View for Reads {
    type V = ReadsView;

    open spec fn view(&self) -> ReadsView {
        ReadsView {
            paths: self.paths@.map_values(|l: Option<Located>| optional_located(l)),
            directory: self.directory,
            flags: optional_bytes(self.flags),
            sockaddr: optional_bytes(self.sockaddr),
        }
    }
}

/// The number that eight bytes are, the least significant first; fewer are none.
pub open spec fn flags_in(bytes: Option<Seq<u8>>) -> u64 {
    match bytes {
        Some(b) => if b.len() >= 8 {
            (b[0] + b[1] * 0x100 + b[2] * 0x1_0000 + b[3] * 0x100_0000 + b[4] * 0x1_0000_0000 + b[5]
                * 0x100_0000_0000 + b[6] * 0x1_0000_0000_0000 + b[7] * 0x100_0000_0000_0000) as u64
        } else {
            0
        },
        None => 0,
    }
}

fn read_flags(bytes: &Option<Vec<u8>>) -> (r: u64)
    ensures
        r == flags_in(optional_bytes(*bytes)),
{
    match bytes {
        Some(b) => {
            if b.len() >= 8 {
                b[0] as u64 + b[1] as u64 * 0x100 + b[2] as u64 * 0x1_0000 + b[3] as u64
                    * 0x100_0000 + b[4] as u64 * 0x1_0000_0000 + b[5] as u64 * 0x100_0000_0000
                    + b[6] as u64 * 0x1_0000_0000_0000 + b[7] as u64 * 0x100_0000_0000_0000
            } else {
                0
            }
        },
        None => 0,
    }
}

/// What an [`Observation`] says.
pub struct ObservationView {
    pub pid: i32,
    pub syscall: &'static str,
    pub permission: PermissionView,
    pub path_resolved: bool,
    pub succeeded: bool,
    pub granting: bool,
}

impl View for Observation {
    type V = ObservationView;

    open spec fn view(&self) -> ObservationView {
        ObservationView {
            pid: self.pid,
            syscall: self.syscall,
            permission: self.permission@,
            path_resolved: self.path_resolved,
            succeeded: self.succeeded,
            granting: self.granting,
        }
    }
}

/// What each observation of a list says.
pub open spec fn observation_views(list: Seq<Observation>) -> Seq<ObservationView> {
    list.map_values(|o: Observation| o@)
}

/// A call that has not returned yet.
pub open spec fn awaited(
    pid: i32,
    name: &'static str,
    permission: PermissionView,
    resolved: bool,
    granting: bool,
) -> ObservationView {
    ObservationView {
        pid,
        syscall: name,
        permission,
        path_resolved: resolved,
        succeeded: false,
        granting,
    }
}

/// What each path that could be read is written to, in order.
pub open spec fn written_paths(
    pid: i32,
    name: &'static str,
    paths: Seq<Option<LocatedView>>,
) -> Seq<ObservationView>
    decreases paths.len(),
{
    if paths.len() == 0 {
        Seq::empty()
    } else {
        let rest = written_paths(pid, name, paths.drop_last());
        match paths.last() {
            Some(l) => rest.push(
                awaited(pid, name, PermissionView::WritePath(l.path), l.resolved, true),
            ),
            None => rest,
        }
    }
}

/// What a call implies, given what was read for it.
pub open spec fn decoded(pid: i32, entry: Entry, reads: ReadsView) -> Seq<ObservationView> {
    let name = entry.name;
    match entry.shape {
        Shape::Open { dirfd, path, flags } => match reads.paths[0] {
            Some(l) => seq![
                awaited(
                    pid,
                    name,
                    open_needs(l.path, entry.args@[flags as int]),
                    l.resolved,
                    true,
                ),
            ],
            None => Seq::empty(),
        },
        Shape::OpenHow { dirfd, path, how } => match reads.paths[0] {
            Some(l) => seq![
                awaited(pid, name, open_needs(l.path, flags_in(reads.flags)), l.resolved, true),
            ],
            None => Seq::empty(),
        },
        Shape::Read { dirfd, path } => match reads.paths[0] {
            Some(l) => seq![
                awaited(
                    pid,
                    name,
                    PermissionView::ReadPath(l.path),
                    l.resolved,
                    !reads.directory,
                ),
            ],
            None => Seq::empty(),
        },
        Shape::Write { dirfd, path } => written_paths(pid, name, reads.paths.take(1)),
        Shape::Rename { old_dirfd, old_path, new_dirfd, new_path } => written_paths(
            pid,
            name,
            reads.paths.take(2),
        ),
        Shape::Exec { dirfd, path } => {
            let spawn = awaited(pid, name, PermissionView::Spawn, true, true);
            match reads.paths[0] {
                Some(l) => seq![
                    spawn,
                    awaited(pid, name, PermissionView::ExecPath(l.path), l.resolved, true),
                ],
                None => seq![spawn],
            }
        },
        Shape::Spawn => seq![awaited(pid, name, PermissionView::Spawn, true, true)],
        Shape::SocketDomain { domain } => if is_network(low_half(entry.args@[domain as int])) {
            seq![awaited(pid, name, PermissionView::Network, true, true)]
        } else {
            Seq::empty()
        },
        Shape::SockAddr { addr, len, binds } => match reads.sockaddr {
            Some(bytes) => match family_of(bytes) {
                Some(FamilyView::Inet) => seq![
                    awaited(pid, name, PermissionView::Network, true, true),
                ],
                Some(FamilyView::Unix(path)) => seq![
                    awaited(
                        pid,
                        name,
                        if binds {
                            PermissionView::WritePath(path)
                        } else {
                            PermissionView::ReadPath(path)
                        },
                        is_absolute(path),
                        true,
                    ),
                ],
                _ => Seq::empty(),
            },
            None => Seq::empty(),
        },
    }
}

fn await_call(pid: i32, name: &'static str, permission: Permission, resolved: bool, granting: bool) -> (r:
    Observation)
    ensures
        r@ == awaited(pid, name, permission@, resolved, granting),
{
    Observation {
        pid,
        syscall: name,
        permission,
        path_resolved: resolved,
        succeeded: false,
        granting,
    }
}

/// Turn one call's arguments into the permissions it implies.
pub fn decode(pid: i32, entry: &Entry, reads: &Reads) -> (r: Vec<Observation>)
    requires
        entry.wf(),
        reads.paths@.len() == path_args_of(entry.shape, entry.args@).len(),
    ensures
        observation_views(r@) == decoded(pid, *entry, reads@),
{
    let name = entry.name;
    let mut out: Vec<Observation> = Vec::new();
    assert(reads@.paths.len() == reads.paths@.len());
    match entry.shape {
        Shape::Open { dirfd, path, flags } => {
            assert(reads@.paths[0] == optional_located(reads.paths@[0]));
            match &reads.paths[0] {
                Some(l) => out.push(
                    await_call(
                        pid,
                        name,
                        open_permission(l.path.clone(), entry.args[flags as usize]),
                        l.resolved,
                        true,
                    ),
                ),
                None => {},
            }
        },
        Shape::OpenHow { dirfd, path, how } => {
            assert(reads@.paths[0] == optional_located(reads.paths@[0]));
            match &reads.paths[0] {
                Some(l) => out.push(
                    await_call(
                        pid,
                        name,
                        open_permission(l.path.clone(), read_flags(&reads.flags)),
                        l.resolved,
                        true,
                    ),
                ),
                None => {},
            }
        },
        Shape::Read { dirfd, path } => {
            assert(reads@.paths[0] == optional_located(reads.paths@[0]));
            match &reads.paths[0] {
                Some(l) => out.push(
                    await_call(
                        pid,
                        name,
                        Permission::ReadPath(l.path.clone()),
                        l.resolved,
                        !reads.directory,
                    ),
                ),
                None => {},
            }
        },
        Shape::Write { dirfd, path } => {
            out = write_paths(pid, name, &reads.paths);
            assert(reads@.paths.take(1) =~= reads@.paths);
        },
        Shape::Rename { old_dirfd, old_path, new_dirfd, new_path } => {
            out = write_paths(pid, name, &reads.paths);
            assert(reads@.paths.take(2) =~= reads@.paths);
        },
        Shape::Exec { dirfd, path } => {
            assert(reads@.paths[0] == optional_located(reads.paths@[0]));
            out.push(await_call(pid, name, Permission::Spawn, true, true));
            match &reads.paths[0] {
                Some(l) => out.push(
                    await_call(pid, name, Permission::ExecPath(l.path.clone()), l.resolved, true),
                ),
                None => {},
            }
        },
        Shape::Spawn => out.push(await_call(pid, name, Permission::Spawn, true, true)),
        Shape::SocketDomain { domain } => {
            let family: u64 = entry.args[domain as usize] % 0x1_0000_0000;
            if family == AF_INET || family == AF_INET6 {
                out.push(await_call(pid, name, Permission::Network, true, true));
            }
        },
        Shape::SockAddr { addr, len, binds } => {
            match &reads.sockaddr {
                Some(bytes) => match sockaddr(bytes) {
                    Some(Family::Inet) => {
                        out.push(await_call(pid, name, Permission::Network, true, true));
                    },
                    Some(Family::Unix(path)) => {
                        let resolved = path.is_absolute();
                        let permission = if binds {
                            Permission::WritePath(path)
                        } else {
                            Permission::ReadPath(path)
                        };
                        out.push(await_call(pid, name, permission, resolved, true));
                    },
                    _ => {},
                },
                None => {},
            }
        },
    }
    assert(observation_views(out@) =~= decoded(pid, *entry, reads@));
    out
}

/// What each path that could be read is written to.
fn write_paths(pid: i32, name: &'static str, paths: &Vec<Option<Located>>) -> (r: Vec<Observation>)
    ensures
        observation_views(r@) == written_paths(
            pid,
            name,
            paths@.map_values(|l: Option<Located>| optional_located(l)),
        ),
{
    let ghost all = paths@.map_values(|l: Option<Located>| optional_located(l));
    let mut out: Vec<Observation> = Vec::new();
    let mut i: usize = 0;
    assert(observation_views(out@) =~= written_paths(pid, name, all.take(0)));
    while i < paths.len()
        invariant
            i <= paths@.len(),
            all == paths@.map_values(|l: Option<Located>| optional_located(l)),
            observation_views(out@) == written_paths(pid, name, all.take(i as int)),
        decreases paths@.len() - i,
    {
        let ghost before = observation_views(out@);
        assert(all.take(i + 1).drop_last() =~= all.take(i as int));
        assert(all[i as int] == optional_located(paths@[i as int]));
        match &paths[i] {
            Some(l) => {
                let one = await_call(
                    pid,
                    name,
                    Permission::WritePath(l.path.clone()),
                    l.resolved,
                    true,
                );
                let ghost seen = one@;
                out.push(one);
                assert(observation_views(out@) =~= before.push(seen));
            },
            None => {},
        }
        i += 1;
    }
    assert(all.take(all.len() as int) =~= all);
    out
}

/// Every path that was read is called resolved exactly when it is absolute.
pub open spec fn paths_wf(paths: Seq<Option<LocatedView>>) -> bool {
    forall|i: int| 0 <= i < paths.len() && (#[trigger] paths[i]) is Some ==> paths[i]->0.wf()
}

/// What is said about the path of an observation is true: it is resolved when there is
/// none or it is absolute, and else it is what the tracee passed.
pub open spec fn path_told_truly(o: ObservationView) -> bool {
    o.path_resolved == match path_of(o.permission) {
        Some(path) => is_absolute(path),
        None => true,
    }
}

proof fn lemma_written_paths_told_truly(
    pid: i32,
    name: &'static str,
    paths: Seq<Option<LocatedView>>,
    i: int,
)
    requires
        paths_wf(paths),
        0 <= i < written_paths(pid, name, paths).len(),
    ensures
        path_told_truly(written_paths(pid, name, paths)[i]),
    decreases paths.len(),
{
    let shorter = paths.drop_last();
    assert forall|k: int| 0 <= k < shorter.len() && (#[trigger] shorter[k]) is Some implies
        shorter[k]->0.wf() by {
        assert(paths[k] == shorter[k]);
    }
    assert(paths[paths.len() - 1] == paths.last());
    if i < written_paths(pid, name, shorter).len() {
        lemma_written_paths_told_truly(pid, name, shorter, i);
    }
}

/// A path is never called resolved while it is relative, nor unresolved while it is
/// absolute, whatever the call is.
pub proof fn lemma_paths_are_told_truly(pid: i32, entry: Entry, reads: ReadsView, i: int)
    requires
        paths_wf(reads.paths),
        reads.paths.len() == path_args_of(entry.shape, entry.args@).len(),
        0 <= i < decoded(pid, entry, reads).len(),
    ensures
        path_told_truly(decoded(pid, entry, reads)[i]),
{
    match entry.shape {
        Shape::Write { dirfd, path } => {
            assert(reads.paths.take(1) =~= reads.paths);
            lemma_written_paths_told_truly(pid, entry.name, reads.paths, i);
        },
        Shape::Rename { old_dirfd, old_path, new_dirfd, new_path } => {
            assert(reads.paths.take(2) =~= reads.paths);
            lemma_written_paths_told_truly(pid, entry.name, reads.paths, i);
        },
        _ => {},
    }
}

/// Every call worth decoding has its arguments in registers.
pub proof fn lemma_entries_are_in_registers(number: u64)
    ensures
        syscall_entry(number) matches Some(known) ==> in_registers(known.1),
{
}

/// A look at a directory's metadata grants nothing: it reads one entry, not
/// everything under it.
pub proof fn lemma_directory_probe_grants_nothing(pid: i32, entry: Entry, reads: ReadsView, i: int)
    requires
        entry.shape is Read,
        reads.directory,
        0 <= i < decoded(pid, entry, reads).len(),
    ensures
        !decoded(pid, entry, reads)[i].granting,
{
}

/// A local socket is not the network: whatever its path, it never asks for the
/// network.
pub proof fn lemma_local_socket_is_not_the_network(
    pid: i32,
    entry: Entry,
    reads: ReadsView,
    path: Seq<u8>,
    i: int,
)
    requires
        entry.shape is SockAddr,
        reads.sockaddr is Some,
        family_of(reads.sockaddr->0) == Some(FamilyView::Unix(path)),
        0 <= i < decoded(pid, entry, reads).len(),
    ensures
        !(decoded(pid, entry, reads)[i].permission is Network),
{
}

/// Memory that is being read one machine word at a time.
#[derive(Debug)]
pub struct WordReader {
    pub addr: u64,
    /// How many bytes are wanted.
    pub len: usize,
    pub copied: Vec<u8>,
}

/// What came of a word that could not be read.
pub enum WordEnd {
    /// What had been read up to there.
    Short(Vec<u8>),
    /// Nothing could be read.
    Nothing,
}

impl WordReader {
    /// No more has been read than was wanted.
    pub open spec fn wf(&self) -> bool {
        self.copied@.len() <= self.len
    }

    /// Start at `addr`.
    pub fn new(addr: u64, len: usize) -> (r: WordReader)
        ensures
            r.wf(),
            r.addr == addr,
            r.len == len,
            r.copied@.len() == 0,
    {
        WordReader { addr, len, copied: Vec::new() }
    }

    /// Whether everything that was wanted has been read.
    pub fn done(&self) -> (r: bool)
        requires
            self.wf(),
        ensures
            r == (self.copied@.len() == self.len),
    {
        self.copied.len() == self.len
    }

    /// Where the next word is, if there is one at such an address.
    pub fn next(&self) -> (r: Option<u64>)
        ensures
            r is Some <==> self.addr + self.copied@.len() <= u64::MAX,
            r is Some ==> r->0 == self.addr + self.copied@.len(),
    {
        self.addr.checked_add(self.copied.len() as u64)
    }

    /// Take a word, and no more of it than is wanted.
    pub fn word(&mut self, word: &[u8; 8])
        requires
            old(self).wf(),
        ensures
            final(self).wf(),
            final(self).addr == old(self).addr,
            final(self).len == old(self).len,
            final(self).copied@ == old(self).copied@ + word@.take(
                if old(self).len - old(self).copied@.len() < 8 {
                    old(self).len - old(self).copied@.len()
                } else {
                    8
                },
            ),
    {
        let left: usize = self.len - self.copied.len();
        let take: usize = if left < 8 {
            left
        } else {
            8
        };
        let ghost before = self.copied@;
        let mut i: usize = 0;
        while i < take
            invariant
                i <= take <= 8,
                self.copied@ == before + word@.take(i as int),
                self.addr == old(self).addr,
                self.len == old(self).len,
            decreases take - i,
        {
            self.copied.push(word[i]);
            assert(before + word@.take(i + 1) =~= (before + word@.take(i as int)).push(
                word@[i as int],
            ));
            i += 1;
        }
    }

    /// A word could not be read. `unmapped` says that there is just nothing there: what
    /// was read before that is still worth having.
    pub fn failed(self, unmapped: bool) -> (r: WordEnd)
        ensures
            match r {
                WordEnd::Short(bytes) => unmapped && self.copied@.len() > 0 && bytes == self.copied,
                WordEnd::Nothing => !unmapped || self.copied@.len() == 0,
            },
    {
        if unmapped && self.copied.len() > 0 {
            WordEnd::Short(self.copied)
        } else {
            WordEnd::Nothing
        }
    }
}

/// The name of a call that is decoded.
pub open spec fn name_of(number: u64) -> &'static str {
    match syscall_entry(number) {
        Some((name, shape)) => name,
        None => arbitrary(),
    }
}

/// The shape of a call that is decoded.
pub open spec fn shape_of(number: u64) -> Shape {
    match syscall_entry(number) {
        Some((name, shape)) => shape,
        None => arbitrary(),
    }
}

/// What the call with this number implies, given its arguments and what was read for it.
pub open spec fn implied_by(number: u64, pid: i32, args: [u64; 6], reads: ReadsView) -> Seq<
    ObservationView,
> {
    match syscall_entry(number) {
        Some((name, shape)) => decoded(pid, Entry { name, shape, args }, reads),
        None => Seq::empty(),
    }
}

/// Whether `o` says that process `pid` is about to do this, whatever comes of it.
pub open spec fn is_intent(
    o: ObservationView,
    pid: i32,
    permission: PermissionView,
    resolved: bool,
    granting: bool,
) -> bool {
    &&& o.pid == pid
    &&& o.permission == permission
    &&& o.path_resolved == resolved
    &&& o.granting == granting
    &&& !o.succeeded
}

/// A call that creates or removes a path writes it: `unlink` (87), `unlinkat` (263),
/// `mkdir` (83) and `mkdirat` (258), and nothing but that. A path that could not be read
/// says nothing.
pub proof fn lemma_creating_and_removing_writes(
    number: u64,
    pid: i32,
    args: [u64; 6],
    reads: ReadsView,
)
    requires
        number == 87 || number == 263 || number == 83 || number == 258,
        reads.paths.len() == 1,
    ensures
        match reads.paths[0] {
            Some(l) => implied_by(number, pid, args, reads).len() == 1 && is_intent(
                implied_by(number, pid, args, reads)[0],
                pid,
                PermissionView::WritePath(l.path),
                l.resolved,
                true,
            ),
            None => implied_by(number, pid, args, reads).len() == 0,
        },
{
    let one = reads.paths.take(1);
    assert(one.drop_last() =~= Seq::<Option<LocatedView>>::empty());
    reveal_with_fuel(written_paths, 3);
}

/// A call that only looks at a path reads it: `stat` (4), `lstat` (6), `newfstatat`
/// (262), `statx` (332), `access` (21), `faccessat` (269), `faccessat2` (439), `readlink`
/// (89) and `readlinkat` (267). It counts towards a profile unless it looked at a
/// directory.
pub proof fn lemma_looking_reads(number: u64, pid: i32, args: [u64; 6], reads: ReadsView)
    requires
        number == 4 || number == 6 || number == 262 || number == 332 || number == 21 || number
            == 269 || number == 439 || number == 89 || number == 267,
        reads.paths.len() == 1,
    ensures
        match reads.paths[0] {
            Some(l) => implied_by(number, pid, args, reads).len() == 1 && is_intent(
                implied_by(number, pid, args, reads)[0],
                pid,
                PermissionView::ReadPath(l.path),
                l.resolved,
                !reads.directory,
            ),
            None => implied_by(number, pid, args, reads).len() == 0,
        },
{
}

/// Opening writes when the flags ask for writing (1), for both (2), for creating (64),
/// for emptying (512) or for appending (1024), and reads otherwise.
pub proof fn lemma_flags_decide(flags: u64)
    ensures
        opens_for_writing(flags) <==> flags % 4 == 1 || flags % 4 == 2 || (flags / 64) % 2 == 1 || (
        flags / 512) % 2 == 1 || (flags / 1024) % 2 == 1,
{
    assert(flags & 3 == flags % 4) by (bit_vector);
    assert((flags & 1600 != 0) == ((flags / 64) % 2 == 1 || (flags / 512) % 2 == 1 || (flags / 1024)
        % 2 == 1)) by (bit_vector);
}

/// `open` (2), `openat` (257) and `openat2` (437) read or write the path they name, as
/// their flags say: the second argument, the third, or the first eight bytes of what the
/// third points at, the least significant first. Flags that could not be read are none.
pub proof fn lemma_opening_goes_by_its_flags(
    number: u64,
    pid: i32,
    args: [u64; 6],
    reads: ReadsView,
    flags: u64,
)
    requires
        reads.paths.len() == 1,
        number == 2 && flags == args@[1] || number == 257 && flags == args@[2] || number == 437
            && flags == (match reads.flags {
            Some(b) => if b.len() < 8 {
                0int
            } else {
                b[0] + 256 * (b[1] + 256 * (b[2] + 256 * (b[3] + 256 * (b[4] + 256 * (b[5] + 256 * (
                b[6] + 256 * b[7]))))))
            },
            None => 0,
        }),
    ensures
        match reads.paths[0] {
            Some(l) => implied_by(number, pid, args, reads).len() == 1 && is_intent(
                implied_by(number, pid, args, reads)[0],
                pid,
                if opens_for_writing(flags) {
                    PermissionView::WritePath(l.path)
                } else {
                    PermissionView::ReadPath(l.path)
                },
                l.resolved,
                true,
            ),
            None => implied_by(number, pid, args, reads).len() == 0,
        },
{
    if number == 437 {
        assert(flags_in(reads.flags) == flags);
    }
}

/// `rename` (82), `renameat` (264) and `renameat2` (316) write both paths they name, the
/// old one and then the new one.
pub proof fn lemma_renaming_writes_both(number: u64, pid: i32, args: [u64; 6], reads: ReadsView)
    requires
        number == 82 || number == 264 || number == 316,
        reads.paths.len() == 2,
    ensures
        ({
            let seen = implied_by(number, pid, args, reads);
            match (reads.paths[0], reads.paths[1]) {
                (Some(a), Some(b)) => seen.len() == 2 && is_intent(
                    seen[0],
                    pid,
                    PermissionView::WritePath(a.path),
                    a.resolved,
                    true,
                ) && is_intent(
                    seen[1],
                    pid,
                    PermissionView::WritePath(b.path),
                    b.resolved,
                    true,
                ),
                (Some(a), None) => seen.len() == 1 && is_intent(
                    seen[0],
                    pid,
                    PermissionView::WritePath(a.path),
                    a.resolved,
                    true,
                ),
                (None, Some(b)) => seen.len() == 1 && is_intent(
                    seen[0],
                    pid,
                    PermissionView::WritePath(b.path),
                    b.resolved,
                    true,
                ),
                (None, None) => seen.len() == 0,
            }
        }),
{
    let both = reads.paths.take(2);
    assert(both =~= reads.paths);
    assert(both.drop_last() =~= seq![reads.paths[0]]);
    assert(both.drop_last().drop_last() =~= Seq::<Option<LocatedView>>::empty());
    reveal_with_fuel(written_paths, 4);
}

/// `execve` (59) and `execveat` (322) start a program and execute the path they name.
pub proof fn lemma_executing_spawns_and_executes(
    number: u64,
    pid: i32,
    args: [u64; 6],
    reads: ReadsView,
)
    requires
        number == 59 || number == 322,
        reads.paths.len() == 1,
    ensures
        ({
            let seen = implied_by(number, pid, args, reads);
            &&& seen.len() == (if reads.paths[0] is Some {
                2int
            } else {
                1
            })
            &&& is_intent(seen[0], pid, PermissionView::Spawn, true, true)
            &&& reads.paths[0] matches Some(l) ==> is_intent(
                seen[1],
                pid,
                PermissionView::ExecPath(l.path),
                l.resolved,
                true,
            )
        }),
{
}

/// `fork` (57), `vfork` (58), `clone` (56) and `clone3` (435) start a process and touch
/// no path.
pub proof fn lemma_forking_spawns(number: u64, pid: i32, args: [u64; 6], reads: ReadsView)
    requires
        number == 57 || number == 58 || number == 56 || number == 435,
    ensures
        implied_by(number, pid, args, reads).len() == 1,
        is_intent(
            implied_by(number, pid, args, reads)[0],
            pid,
            PermissionView::Spawn,
            true,
            true,
        ),
        path_args_of(shape_of(number), args@).len() == 0,
{
}

/// `socket` (41) asks for the network when the lower half of its first argument is one
/// of the two families of the internet, 2 and 10, and for nothing otherwise.
pub proof fn lemma_internet_sockets_are_the_network(
    pid: i32,
    args: [u64; 6],
    reads: ReadsView,
)
    ensures
        ({
            let seen = implied_by(41, pid, args, reads);
            let family = args@[0] % 0x1_0000_0000;
            if family == 2 || family == 10 {
                seen.len() == 1 && is_intent(seen[0], pid, PermissionView::Network, true, true)
            } else {
                seen.len() == 0
            }
        }),
{
}

/// The bytes in front of the first NUL: none of them is NUL, and there is a NUL behind
/// them or nothing at all.
pub proof fn lemma_bytes_up_to_the_first_nul(bytes: Seq<u8>)
    ensures
        ({
            let n = until_nul(bytes).len() as int;
            &&& n <= bytes.len()
            &&& until_nul(bytes) == bytes.take(n)
            &&& forall|j: int| 0 <= j < n ==> #[trigger] bytes[j] != 0
            &&& n < bytes.len() ==> bytes[n] == 0
        }),
    decreases bytes.len(),
{
    if bytes.len() > 0 && bytes[0] != 0 {
        let rest = bytes.skip(1);
        lemma_bytes_up_to_the_first_nul(rest);
        let n = until_nul(rest).len() as int;
        assert(until_nul(bytes) =~= bytes.take(n + 1));
        assert forall|j: int| 0 <= j < n + 1 implies #[trigger] bytes[j] != 0 by {
            if j > 0 {
                assert(rest[j - 1] == bytes[j]);
            }
        }
        if n + 1 < bytes.len() {
            assert(rest[n] == bytes[n + 1]);
        }
    } else {
        assert(until_nul(bytes) =~= bytes.take(0));
    }
}

/// `connect` (42), `bind` (49) and `sendto` (44) go by the address they are given, whose
/// first two bytes are its family, the less significant first. An internet address, 2 or
/// 10, is the network. A local one, 1, is the path that follows up to a NUL: `bind`
/// writes it, the others read it. A local address without a path, any other family, and
/// an address that could not be read say nothing.
pub proof fn lemma_addresses_decide(number: u64, pid: i32, args: [u64; 6], reads: ReadsView)
    requires
        number == 42 || number == 49 || number == 44,
    ensures
        ({
            let seen = implied_by(number, pid, args, reads);
            match reads.sockaddr {
                Some(bytes) => {
                    let family = bytes[0] + 256 * bytes[1];
                    if bytes.len() < 2 {
                        seen.len() == 0
                    } else if family == 2 || family == 10 {
                        seen.len() == 1 && is_intent(
                            seen[0],
                            pid,
                            PermissionView::Network,
                            true,
                            true,
                        )
                    } else if family == 1 && bytes.len() > 2 && bytes[2] != 0 {
                        let path = until_nul(bytes.skip(2));
                        seen.len() == 1 && is_intent(
                            seen[0],
                            pid,
                            if number == 49 {
                                PermissionView::WritePath(path)
                            } else {
                                PermissionView::ReadPath(path)
                            },
                            path.len() > 0 && path[0] == 0x2f,
                            true,
                        )
                    } else {
                        seen.len() == 0
                    }
                },
                None => seen.len() == 0,
            }
        }),
        ({
            let shape = shape_of(number);
            &&& shape is SockAddr
            &&& shape->addr == (if number == 44 {
                4u8
            } else {
                1
            })
            &&& shape->len == (if number == 44 {
                5u8
            } else {
                2
            })
            &&& path_args_of(shape, args@).len() == 0
        }),
{
    match reads.sockaddr {
        Some(bytes) => {
            if bytes.len() > 2 {
                assert(bytes.skip(2)[0] == bytes[2]);
            }
        },
        None => {},
    }
}

/// Where the paths of a call are. The plain calls name a path by their first argument;
/// those that end in `at` name the directory it starts from by the first and the path by
/// the second. A rename names two.
pub proof fn lemma_where_the_paths_are(number: u64, args: [u64; 6])
    requires
        syscall_entry(number) is Some,
    ensures
        ({
            let asked = path_args_of(shape_of(number), args@);
            let plain = PathArg { dirfd: None, addr: args@[0] };
            let at = PathArg { dirfd: Some(args@[0]), addr: args@[1] };
            &&& (number == 2 || number == 4 || number == 6 || number == 21 || number == 89 || number
                == 87 || number == 83 || number == 59) ==> asked == seq![plain]
            &&& (number == 257 || number == 437 || number == 262 || number == 332 || number == 269
                || number == 439 || number == 267 || number == 263 || number == 258 || number
                == 322) ==> asked == seq![at]
            &&& number == 82 ==> asked == seq![plain, PathArg { dirfd: None, addr: args@[1] }]
            &&& (number == 264 || number == 316) ==> asked == seq![
                at,
                PathArg { dirfd: Some(args@[2]), addr: args@[3] },
            ]
            &&& number == 437 ==> shape_of(number)->how == 2
        }),
{
}

/// The calls that are decoded, each under its name, and no others.
pub proof fn lemma_calls_by_number(number: u64)
    ensures
        syscall_entry(number) is Some <==> number == 2 || number == 4 || number == 6 || number == 21
            || number == 41 || number == 42 || number == 44 || number == 49 || 56 <= number <= 59
            || number == 82 || number == 83 || number == 87 || number == 89 || number == 257
            || number == 258 || 262 <= number <= 264 || number == 267 || number == 269 || number
            == 316 || number == 322 || number == 332 || number == 435 || number == 437 || number
            == 439,
        number == 2 ==> name_of(number) == "open",
        number == 4 ==> name_of(number) == "stat",
        number == 6 ==> name_of(number) == "lstat",
        number == 21 ==> name_of(number) == "access",
        number == 41 ==> name_of(number) == "socket",
        number == 42 ==> name_of(number) == "connect",
        number == 44 ==> name_of(number) == "sendto",
        number == 49 ==> name_of(number) == "bind",
        number == 56 ==> name_of(number) == "clone",
        number == 57 ==> name_of(number) == "fork",
        number == 58 ==> name_of(number) == "vfork",
        number == 59 ==> name_of(number) == "execve",
        number == 82 ==> name_of(number) == "rename",
        number == 83 ==> name_of(number) == "mkdir",
        number == 87 ==> name_of(number) == "unlink",
        number == 89 ==> name_of(number) == "readlink",
        number == 257 ==> name_of(number) == "openat",
        number == 258 ==> name_of(number) == "mkdirat",
        number == 262 ==> name_of(number) == "newfstatat",
        number == 263 ==> name_of(number) == "unlinkat",
        number == 264 ==> name_of(number) == "renameat",
        number == 267 ==> name_of(number) == "readlinkat",
        number == 269 ==> name_of(number) == "faccessat",
        number == 316 ==> name_of(number) == "renameat2",
        number == 322 ==> name_of(number) == "execveat",
        number == 332 ==> name_of(number) == "statx",
        number == 435 ==> name_of(number) == "clone3",
        number == 437 ==> name_of(number) == "openat2",
        number == 439 ==> name_of(number) == "faccessat2",
{
}

/// What a call implies is said under the name of the call.
pub proof fn lemma_calls_go_by_their_names(
    number: u64,
    pid: i32,
    args: [u64; 6],
    reads: ReadsView,
    i: int,
)
    requires
        syscall_entry(number) is Some,
        reads.paths.len() == path_args_of(shape_of(number), args@).len(),
        0 <= i < implied_by(number, pid, args, reads).len(),
    ensures
        implied_by(number, pid, args, reads)[i].syscall == name_of(number),
{
    assert(reads.paths.take(reads.paths.len() as int) =~= reads.paths);
    if reads.paths.len() == 1 {
        assert(reads.paths.drop_last() =~= Seq::<Option<LocatedView>>::empty());
    } else if reads.paths.len() == 2 {
        assert(reads.paths.drop_last().drop_last() =~= Seq::<Option<LocatedView>>::empty());
    }
    reveal_with_fuel(written_paths, 4);
}

/// Where a path argument leads: an absolute path where it says, a relative one from its
/// directory where that is known, and the directory itself where there is no path. A path
/// whose directory is not known is kept as it was passed.
pub proof fn lemma_paths_lead_from_their_directory(path: Seq<u8>, link: Seq<u8>)
    ensures
        path.len() > 0 && path[0] == 0x2f ==> located(path, None).path == path && located(
            path,
            Some(link),
        ).path == path && located(path, None).resolved && located(path, Some(link)).resolved,
        !(path.len() > 0 && path[0] == 0x2f) ==> {
            &&& located(path, None).path == path
            &&& !located(path, None).resolved
            &&& !(link.len() > 0 && link[0] == 0x2f) ==> located(path, Some(link)).path == path
                && !located(path, Some(link)).resolved
            &&& link.len() > 0 && link[0] == 0x2f ==> {
                let l = located(path, Some(link));
                &&& l.resolved
                &&& path.len() == 0 ==> l.path == link
                &&& path.len() > 0 ==> l.path == joined_path(link, path)
                &&& l.path.take(link.len() as int) == link
                &&& l.path.skip(l.path.len() - path.len()) == path
            }
        },
{
    if !is_absolute(path) && is_absolute(link) {
        crate::path::lemma_join(link, path);
        assert(link.take(link.len() as int) =~= link);
        assert(link.skip(link.len() as int) =~= Seq::<u8>::empty());
        if path.len() == 0 {
            assert(path =~= Seq::<u8>::empty());
        }
    }
}

/// A relative path starts at the current directory where no directory is named, or where
/// the lower half of the register that names it is -100; otherwise at the directory that
/// the lower half names.
pub proof fn lemma_directory_of_a_relative_path(fd: u64)
    ensures
        base_for(None) == Base::Cwd,
        fd % 0x1_0000_0000 == 0x1_0000_0000 - 100 ==> base_for(Some(fd)) == Base::Cwd,
        fd % 0x1_0000_0000 != 0x1_0000_0000 - 100 ==> base_for(Some(fd)) == Base::Fd(
            (fd % 0x1_0000_0000) as u32,
        ),
{
}

/// A result is an error when it is one of -1 to -4095 as a signed number.
pub proof fn lemma_errors_are_small_negative_numbers(rax: u64)
    ensures
        is_error(rax) <==> 1 <= 0x1_0000_0000_0000_0000 - rax <= 4095,
{
}

/// Where a relative path starts is found through a link of the process: to its working
/// directory, or to the descriptor, which is a signed number of 32 bits.
pub proof fn lemma_links_of_a_process(pid: int, fd: u32)
    ensures
        link_text(pid, Base::Cwd) == "/proc/"@ + signed_decimal(pid) + "/cwd"@,
        fd <= 0x7fff_ffff ==> link_text(pid, Base::Fd(fd)) == "/proc/"@ + signed_decimal(pid) + (
        "/fd/"@ + signed_decimal(fd as int)),
        fd > 0x7fff_ffff ==> link_text(pid, Base::Fd(fd)) == "/proc/"@ + signed_decimal(pid) + (
        "/fd/"@ + signed_decimal(fd - 0x1_0000_0000)),
{
}

/// A path is no longer than 4096 bytes.
pub proof fn lemma_longest_path()
    ensures
        PATH_MAX == 4096,
{
}

} // verus!
