//! Process-like context for a container kernel: creds, root, cwd, and fds.

use std::collections::BTreeMap;

use vstd::prelude::*;

use crate::inner::{bare, holds, keeps};
use crate::calls::{
    create_at_room, find, fresh, lemma_create_clock, lemma_open_clock, lemma_unlink_clock, mkdir_at,
    no_value, node_stat, open_handle, open_room, reached, unlink_at, unlink_at_room, Place,
};
use crate::dir::DirEntry;
use crate::edit::truncate_agrees;
use crate::error::{
    ebadf, eexist, einval, enoent, enotdir, Error, Result, EBADF, EINVAL, EIO, EMFILE, ENOENT,
    ENOTDIR,
};
use crate::file::{
    at_time, can_write, options_of, read_did, seek_did, wrote_did, File, OpenOptions, SeekFrom,
};
use crate::flush::{ends_in_sync, flush_failed, journaled, rests};
use crate::format::ROOT_INO;
use crate::fs::{looked, ran, LinuxFile};
use crate::model::FsView;
use crate::names::{found_out, items_out, Resolved};
use crate::ops::{
    dec_open_op, dir_items, inc_open_op, lemma_spared_on, lemma_spared_same, next_ino, rename_op,
    rename_room, same_outcome, spared, type_at, under_name, Found, Outcome,
};
use crate::path::{absolute, UnixPath};
use crate::types::{
    apply_umask, masked_mode, Creds, CredsView, FileType, Stat, AT_EMPTY_PATH, AT_FDCWD,
    AT_REMOVEDIR, AT_SYMLINK_NOFOLLOW, SEEK_CUR, SEEK_END, SEEK_SET, S_IFDIR,
};
use crate::disk::clear;
use crate::open::reopens;

verus! {

broadcast use vstd::std_specs::btree::group_btree_axioms;

/// An open file of a process.
#[derive(Debug)]
pub struct Fd {
    pub file: File,
    pub flags: i32,
    /// The inode, where it is a directory.
    pub dir_ino: Option<u64>,
}

/// Isolated namespace and file-descriptor table over a mounted filesystem.
pub struct Context {
    pub creds: Creds,
    pub cwd: u64,
    pub root: u64,
    pub umask: u16,
    pub fds: BTreeMap<i32, Fd>,
    pub next_fd: i32,
}

/// A context as a value.
pub ghost struct ContextView {
    pub creds: CredsView,
    pub cwd: u64,
    pub root: u64,
    pub umask: u16,
    pub fds: Map<i32, Fd>,
    pub next_fd: i32,
}

impl View for Context {
    type V = ContextView;

    open spec fn view(&self) -> ContextView {
        ContextView {
            creds: self.creds@,
            cwd: self.cwd,
            root: self.root,
            umask: self.umask,
            fds: self.fds@,
            next_fd: self.next_fd,
        }
    }
}

/// The context of a process that has just started.
pub open spec fn new_context(creds: CredsView) -> ContextView {
    ContextView {
        creds,
        cwd: ROOT_INO,
        root: ROOT_INO,
        umask: 0o022,
        fds: Map::empty(),
        next_fd: 3,
    }
}

/// The first number from `n` on that no descriptor has.
pub open spec fn free_fd(fds: Map<i32, Fd>, n: int) -> Option<i32>
    decreases i32::MAX - n,
{
    if n >= i32::MAX {
        None
    } else if fds.contains_key(n as i32) {
        free_fd(fds, n + 1)
    } else {
        Some(n as i32)
    }
}

impl ContextView {
    /// With one more descriptor.
    pub open spec fn with_fd(self, n: i32, f: Fd) -> ContextView {
        ContextView { fds: self.fds.insert(n, f), next_fd: (n + 1) as i32, ..self }
    }

    /// With descriptor `n` as `f`.
    pub open spec fn put_fd(self, n: i32, f: Fd) -> ContextView {
        ContextView { fds: self.fds.insert(n, f), ..self }
    }

    /// Without descriptor `n`.
    pub open spec fn without_fd(self, n: i32) -> ContextView {
        ContextView { fds: self.fds.remove(n), ..self }
    }

    /// The directory that a descriptor stands for.
    pub open spec fn dir_of(self, dirfd: i32) -> Outcome<u64> {
        if dirfd == AT_FDCWD {
            Ok(self.cwd)
        } else if !self.fds.contains_key(dirfd) {
            Err(EBADF)
        } else {
            match self.fds[dirfd].dir_ino {
                Some(ino) => Ok(ino),
                None => Err(ENOTDIR),
            }
        }
    }

    /// Where a path starts that is relative to descriptor `dirfd`.
    pub open spec fn place(self, dirfd: i32, path: Seq<u8>) -> Outcome<Place> {
        if absolute(path) {
            Ok(Place { root: self.root, cwd: self.root, creds: self.creds })
        } else {
            match self.dir_of(dirfd) {
                Ok(dir) => Ok(Place { root: self.root, cwd: dir, creds: self.creds }),
                Err(e) => Err(e),
            }
        }
    }

    /// Where a path leads that is relative to descriptor `dirfd`.
    pub open spec fn find_at(self, v: FsView, dirfd: i32, path: Seq<u8>, follow: bool) -> Outcome<
        Found,
    > {
        if path.len() == 0 {
            Err(EINVAL)
        } else {
            match self.place(dirfd, path) {
                Err(e) => Err(e),
                Ok(at) => find(v, at, path, follow),
            }
        }
    }

    /// The files that a call on a path has to do with.
    pub open spec fn reached_at(self, v: FsView, dirfd: i32, path: Seq<u8>, follow: bool) -> Set<
        u64,
    > {
        match self.place(dirfd, path) {
            Err(_) => Set::empty(),
            Ok(at) => reached(v, at, path, follow),
        }
    }

    /// The file that a path leads to.
    pub open spec fn file_at(self, v: FsView, dirfd: i32, path: Seq<u8>, follow: bool) -> Outcome<
        u64,
    > {
        match self.find_at(v, dirfd, path, follow) {
            Err(e) => Err(e),
            Ok(f) => match f.ino {
                Some(ino) => Ok(ino),
                None => Err(ENOENT),
            },
        }
    }

    /// The directory that a path leads to.
    pub open spec fn dir_at(self, v: FsView, path: Seq<u8>) -> Outcome<u64> {
        match self.file_at(v, AT_FDCWD, path, true) {
            Err(e) => Err(e),
            Ok(ino) => if !v.nodes.contains_key(ino) {
                Err(EIO)
            } else if type_at(v, ino) is Directory {
                Ok(ino)
            } else {
                Err(ENOTDIR)
            },
        }
    }
}

/// The descriptor of an open file.
pub open spec fn fd_of(v: FsView, ino: u64, flags: i32) -> Fd {
    Fd {
        file: File { ino, flags, pos: 0 },
        flags,
        dir_ino: if type_at(v, ino) is Directory {
            Some(ino)
        } else {
            None
        },
    }
}

/// Opening a file through a context.
pub open spec fn openat_op(
    c: ContextView,
    v: FsView,
    dirfd: i32,
    path: Seq<u8>,
    flags: i32,
    mode: u16,
) -> (ContextView, FsView, Outcome<i32>) {
    let start = if absolute(path) {
        Ok(c.root)
    } else if dirfd == AT_FDCWD {
        Ok(c.cwd)
    } else if c.fds.contains_key(dirfd) && c.fds[dirfd].dir_ino is Some {
        Ok(c.fds[dirfd].dir_ino->0)
    } else {
        Err(EBADF)
    };
    match start {
        Err(e) => (c, v, Err(e)),
        Ok(dir) => match free_fd(c.fds, c.next_fd as int) {
            None => (c, v, Err(EMFILE)),
            Some(n) => {
                let at = Place { root: c.root, cwd: dir, creds: c.creds };
                let (w, r) = open_handle(v, at, path, options_of(flags, mode), c.umask, false);
                match r {
                    Err(e) => (c, w, Err(e)),
                    Ok(ino) => (c.with_fd(n, fd_of(w, ino, flags)), w, Ok(n)),
                }
            },
        },
    }
}

/// Duplicating a descriptor.
pub open spec fn dup_op(c: ContextView, v: FsView, fd: i32) -> (ContextView, FsView, Outcome<i32>) {
    if !c.fds.contains_key(fd) {
        (c, v, Err(EBADF))
    } else {
        let src = c.fds[fd];
        match free_fd(c.fds, c.next_fd as int) {
            None => (c, v, Err(EMFILE)),
            Some(n) => {
                let (w, r) = inc_open_op(v, src.file.ino);
                match r {
                    Err(e) => (c, w, Err(e)),
                    Ok(_) => (c.with_fd(n, Fd { file: File { pos: 0, ..src.file }, ..src }), w, Ok(n)),
                }
            },
        }
    }
}

/// Duplicating a descriptor under the number `new`, in place of what stands there.
pub open spec fn dup2_op(c: ContextView, v: FsView, fd: i32, new: i32) -> (
    ContextView,
    FsView,
    Outcome<i32>,
) {
    if !c.fds.contains_key(fd) {
        (c, v, Err(EBADF))
    } else if fd == new {
        (c, v, Ok(new))
    } else {
        let src = c.fds[fd];
        let (w, r) = inc_open_op(v, src.file.ino);
        match r {
            Err(e) => (c, w, Err(e)),
            Ok(_) => {
                let x = if c.fds.contains_key(new) {
                    dec_open_op(w, c.fds[new].file.ino).0
                } else {
                    w
                };
                (c.put_fd(new, Fd { file: File { pos: 0, ..src.file }, ..src }), x, Ok(new))
            },
        }
    }
}

/// Creating a directory through a context.
pub open spec fn mkdirat_op(c: ContextView, v: FsView, dirfd: i32, path: Seq<u8>, mode: u16) -> (
    FsView,
    Outcome<()>,
) {
    match c.place(dirfd, path) {
        Err(e) => (v, Err(e)),
        Ok(at) => mkdir_at(v, at, path, mode, c.umask),
    }
}

/// Removing a name through a context.
pub open spec fn unlinkat_op(c: ContextView, v: FsView, dirfd: i32, path: Seq<u8>, flags: i32) -> (
    FsView,
    Outcome<()>,
) {
    if path.len() == 0 {
        (v, Err(EINVAL))
    } else {
        match c.place(dirfd, path) {
            Err(e) => (v, Err(e)),
            Ok(at) => unlink_at(v, at, path, flags & AT_REMOVEDIR != 0),
        }
    }
}

/// Renaming through a context.
pub open spec fn renameat_op(
    c: ContextView,
    v: FsView,
    olddirfd: i32,
    from: Seq<u8>,
    newdirfd: i32,
    to: Seq<u8>,
) -> (FsView, Outcome<()>) {
    match c.find_at(v, olddirfd, from, false) {
        Err(e) => (v, Err(e)),
        Ok(src) => match c.find_at(v, newdirfd, to, false) {
            Err(e) => (v, Err(e)),
            Ok(dst) => if src.ino is None {
                (v, Err(ENOENT))
            } else {
                rename_op(v, src.parent, src.name, dst.parent, dst.name, c.creds)
            },
        },
    }
}

/// Blocks that opening a file through a context takes at most.
pub open spec fn openat_room(
    c: ContextView,
    v: FsView,
    dirfd: i32,
    path: Seq<u8>,
    flags: i32,
    mode: u16,
) -> int {
    match c.place(dirfd, path) {
        Err(_) => 0,
        Ok(at) => open_room(v, at, path, options_of(flags, mode), c.umask),
    }
}

/// Blocks that creating a directory through a context takes at most.
pub open spec fn mkdirat_room(c: ContextView, v: FsView, dirfd: i32, path: Seq<u8>, mode: u16) -> int {
    match c.place(dirfd, path) {
        Err(_) => 0,
        Ok(at) => create_at_room(v, at, path, true, S_IFDIR | masked_mode(mode, c.umask)),
    }
}

/// Blocks that removing a name through a context takes at most.
pub open spec fn unlinkat_room(c: ContextView, v: FsView, dirfd: i32, path: Seq<u8>) -> int {
    match c.place(dirfd, path) {
        Err(_) => 0,
        Ok(at) => unlink_at_room(v, at, path),
    }
}

/// Blocks that renaming through a context takes at most.
pub open spec fn renameat_room(
    c: ContextView,
    v: FsView,
    olddirfd: i32,
    from: Seq<u8>,
    newdirfd: i32,
    to: Seq<u8>,
) -> int {
    match c.find_at(v, olddirfd, from, false) {
        Err(_) => 0,
        Ok(src) => match c.find_at(v, newdirfd, to, false) {
            Err(_) => 0,
            Ok(dst) => rename_room(v, src.parent, src.name, dst.parent, dst.name, c.creds),
        },
    }
}

/// Renaming leaves the clock alone.
proof fn lemma_renameat_clock(
    c: ContextView,
    v: FsView,
    olddirfd: i32,
    from: Seq<u8>,
    newdirfd: i32,
    to: Seq<u8>,
)
    ensures
        renameat_op(c, v, olddirfd, from, newdirfd, to).0.clock == v.clock,
{
}

/// The position that `lseek` asks for; an offset from the start wraps around.
pub open spec fn whence_pos(off: i64, whence: i32) -> Option<SeekFrom> {
    if whence == SEEK_SET {
        Some(SeekFrom::Start(if off >= 0 {
            off as u64
        } else {
            (off + 0x1_0000_0000_0000_0000) as u64
        }))
    } else if whence == SEEK_CUR {
        Some(SeekFrom::Current(off))
    } else if whence == SEEK_END {
        Some(SeekFrom::End(off))
    } else {
        None
    }
}

/// A position as a signed number; large ones wrap around.
pub open spec fn signed(p: u64) -> i64 {
    if p <= i64::MAX {
        p as i64
    } else {
        (p - 0x1_0000_0000_0000_0000) as i64
    }
}

impl Context {
    pub fn new(creds: Creds) -> (c: Self)
        ensures
            c@ == new_context(creds@),
    {
        let c = Self {
            creds,
            cwd: ROOT_INO,
            root: ROOT_INO,
            umask: 0o022,
            fds: BTreeMap::new(),
            next_fd: 3,
        };
        assert(c.fds@ =~= Map::empty());
        c
    }

    pub fn creds(&self) -> (c: &Creds)
        ensures
            *c == self.creds,
    {
        &self.creds
    }

    pub fn set_creds(&mut self, creds: Creds)
        ensures
            final(self)@ == (ContextView { creds: creds@, ..old(self)@ }),
    {
        self.creds = creds;
    }

    pub fn umask(&self) -> (m: u16)
        ensures
            m == self@.umask,
    {
        self.umask
    }

    /// Sets the umask, and returns the one before.
    pub fn set_umask(&mut self, mask: u16) -> (m: u16)
        ensures
            m == old(self)@.umask,
            final(self)@ == (ContextView { umask: mask & 0o777, ..old(self)@ }),
    {
        let before: u16 = self.umask;
        self.umask = mask & 0o777;
        before
    }

    pub fn enable_permission_checks(&self, fs: &mut LinuxFile, enable: bool) -> (r: Result<()>)
        requires
            old(fs).wf(),
        ensures
            final(fs).wf(),
            keeps(old(fs).inner, final(fs).inner),
            final(fs)@ == (FsView { check_perm: enable, ..old(fs)@ }),
            r is Ok,
    {
        fs.set_check_perm(enable);
        Ok(())
    }

    /// The first free descriptor.
    fn next_free(&self) -> (r: Option<i32>)
        ensures
            r == free_fd(self@.fds, self@.next_fd as int),
    {
        let mut n: i32 = self.next_fd;
        while n < i32::MAX && self.fds.contains_key(&n)
            invariant
                free_fd(self@.fds, self@.next_fd as int) == free_fd(self@.fds, n as int),
            decreases i32::MAX - n,
        {
            n = n + 1;
        }
        if n == i32::MAX {
            None
        } else {
            Some(n)
        }
    }

    fn resolve_dirfd(&self, dirfd: i32) -> (r: Result<u64>)
        ensures
            same_outcome(self@.dir_of(dirfd), r),
    {
        if dirfd == AT_FDCWD {
            return Ok(self.cwd);
        }
        match self.fds.get(&dirfd) {
            Some(f) => match f.dir_ino {
                Some(ino) => Ok(ino),
                None => Err(enotdir("dirfd is not a directory")),
            },
            None => Err(ebadf()),
        }
    }

    /// The directory that a path starts at.
    fn start_of(&self, dirfd: i32, path: UnixPath) -> (r: Result<u64>)
        ensures
            match r {
                Ok(dir) => self@.place(dirfd, path@) == Ok::<Place, i32>(
                    Place { root: self.root, cwd: dir, creds: self.creds@ },
                ),
                Err(e) => self@.place(dirfd, path@) matches Err(n) && e.is(n),
            },
    {
        if path.is_absolute() {
            Ok(self.root)
        } else {
            self.resolve_dirfd(dirfd)
        }
    }

    fn walk_at(&self, fs: &mut LinuxFile, dirfd: i32, path: UnixPath, follow_last: bool) -> (r: Result<
        Resolved,
    >)
        requires
            old(fs).wf(),
        ensures
            looked(
                *old(fs),
                *final(fs),
                self@.find_at(old(fs)@, dirfd, path@, follow_last),
                found_out(r),
            ),
    {
        if path.is_empty() {
            return Err(einval("empty path"));
        }
        let start = match self.start_of(dirfd, path) {
            Ok(s) => s,
            Err(e) => return Err(e),
        };
        fs.inner.walk(self.root, start, path, follow_last, &self.creds)
    }

    pub fn open(&mut self, fs: &mut LinuxFile, path: UnixPath, flags: i32, mode: u16) -> (r: Result<
        i32,
    >)
        requires
            old(fs).wf(),
        ensures
            ({
                let want = openat_op(
                    old(self)@,
                    old(fs)@.at(final(fs)@.clock),
                    AT_FDCWD,
                    path@,
                    flags,
                    mode,
                );
                &&& ran(*old(fs), *final(fs), (want.1, want.2), r, openat_room(old(self)@, old(fs)@.at(final(fs)@.clock), AT_FDCWD, path@, flags, mode), fresh(options_of(flags, mode)))
                &&& r is Ok ==> final(self)@ == want.0
                &&& r is Err ==> final(self)@ == old(self)@
            }),
            r is Err ==> spared(
                old(fs)@.at(final(fs)@.clock),
                final(fs)@,
                old(self)@.reached_at(
                    old(fs)@.at(final(fs)@.clock),
                    AT_FDCWD,
                    path@,
                    !options_of(flags, mode).nofollow,
                ),
            ),
    {
        self.openat(fs, AT_FDCWD, path, flags, mode)
    }

    /// Opens a file, and returns its descriptor. Fails with `EMFILE` where all descriptors are in
    /// use.
    pub fn openat(
        &mut self,
        fs: &mut LinuxFile,
        dirfd: i32,
        path: UnixPath,
        flags: i32,
        mode: u16,
    ) -> (r: Result<i32>)
        requires
            old(fs).wf(),
        ensures
            ({
                let want = openat_op(
                    old(self)@,
                    old(fs)@.at(final(fs)@.clock),
                    dirfd,
                    path@,
                    flags,
                    mode,
                );
                &&& ran(*old(fs), *final(fs), (want.1, want.2), r, openat_room(old(self)@, old(fs)@.at(final(fs)@.clock), dirfd, path@, flags, mode), fresh(options_of(flags, mode)))
                &&& r is Ok ==> final(self)@ == want.0
                &&& r is Err ==> final(self)@ == old(self)@
            }),
            r is Err ==> spared(
                old(fs)@.at(final(fs)@.clock),
                final(fs)@,
                old(self)@.reached_at(
                    old(fs)@.at(final(fs)@.clock),
                    dirfd,
                    path@,
                    !options_of(flags, mode).nofollow,
                ),
            ),
    {
        fs.tick();
        let ghost c = self@;
        let ghost touched = c.reached_at(fs@, dirfd, path@, !options_of(flags, mode).nofollow);
        proof {
            lemma_spared_same(fs@, touched);
        }
        let opts = OpenOptions::from_linux_flags(flags, mode);
        let start: u64 = if path.is_absolute() {
            self.root
        } else if dirfd == AT_FDCWD {
            self.cwd
        } else {
            match self.fds.get(&dirfd) {
                Some(f) => match f.dir_ino {
                    Some(ino) => ino,
                    None => return Err(ebadf()),
                },
                None => return Err(ebadf()),
            }
        };
        let n = match self.next_free() {
            Some(n) => n,
            None => return Err(Error::from_errno(EMFILE)),
        };
        proof {
            let at = Place { root: c.root, cwd: start, creds: c.creds };
            lemma_open_clock(fs@, at, path@, opts, c.umask, false);
            lemma_opened_there(fs@, at, path@, opts, c.umask, false);
            lemma_free_fd(c.fds, c.next_fd as int);
        }
        let ino = match fs.inner.open_counted(
            self.root,
            start,
            &self.creds,
            path,
            &opts,
            self.umask,
            false,
        ) {
            Ok(ino) => ino,
            Err(e) => return Err(e),
        };
        let dir_ino: Option<u64> = match fs.inner.meta(ino) {
            Ok(m) => {
                if FileType::from_mode(m.mode).is_dir() {
                    Some(ino)
                } else {
                    None
                }
            },
            Err(e) => return Err(e),
        };
        self.fds.insert(n, Fd { file: File { ino, flags, pos: 0 }, flags, dir_ino });
        self.next_fd = n + 1;
        proof {
            let want = openat_op(c, old(fs)@.at(fs@.clock), dirfd, path@, flags, mode);
            assert(self@.fds =~= want.0.fds);
        }
        Ok(n)
    }
}

/// A file that was opened is there.
proof fn lemma_opened_there(
    v: FsView,
    at: Place,
    path: Seq<u8>,
    o: OpenOptions,
    umask: u16,
    strict: bool,
)
    ensures
        open_handle(v, at, path, o, umask, strict).1 matches Ok(ino) ==> open_handle(
            v,
            at,
            path,
            o,
            umask,
            strict,
        ).0.nodes.contains_key(ino),
{
}

/// A free descriptor is one.
proof fn lemma_free_fd(fds: Map<i32, Fd>, n: int)
    requires
        i32::MIN <= n,
    ensures
        free_fd(fds, n) matches Some(k) ==> n <= k < i32::MAX && !fds.contains_key(k),
    decreases i32::MAX - n,
{
    if n < i32::MAX && fds.contains_key(n as i32) {
        lemma_free_fd(fds, n + 1);
    }
}

impl Context {
    /// Closes a descriptor.
    pub fn close(&mut self, fs: &mut LinuxFile, fd: i32) -> (r: Result<()>)
        requires
            old(fs).wf(),
        ensures
            final(fs).wf(),
            keeps(old(fs).inner, final(fs).inner),
            if old(self)@.fds.contains_key(fd) {
                &&& r is Ok
                &&& final(self)@ == old(self)@.without_fd(fd)
                &&& final(fs)@ == dec_open_op(old(fs)@, old(self)@.fds[fd].file.ino).0
            } else {
                &&& r matches Err(e) && e.is(EBADF)
                &&& final(self)@ == old(self)@
                &&& *final(fs) == *old(fs)
            },
    {
        let ghost c = self@;
        match self.fds.remove(&fd) {
            Some(f) => {
                assert(self@.fds =~= c.fds.remove(fd));
                f.file.close(fs);
                Ok(())
            },
            None => {
                assert(self@.fds =~= c.fds);
                Err(ebadf())
            },
        }
    }

    /// Reads from an open file, at its position.
    pub fn read(&mut self, fs: &mut LinuxFile, fd: i32, buf: &mut [u8]) -> (r: Result<usize>)
        requires
            old(fs).wf(),
        ensures
            final(fs).wf(),
            final(fs)@ == old(fs)@,
            keeps(old(fs).inner, final(fs).inner),
            if old(self)@.fds.contains_key(fd) {
                let f0 = old(self)@.fds[fd];
                let f1 = final(self)@.fds[fd];
                &&& final(self)@ == old(self)@.put_fd(fd, Fd { file: f1.file, ..f0 })
                &&& read_did(
                    f0.file,
                    f1.file,
                    old(fs).inner,
                    final(fs).inner,
                    old(buf)@,
                    final(buf)@,
                    r,
                )
            } else {
                &&& r matches Err(e) && e.is(EBADF)
                &&& final(self)@ == old(self)@
                &&& final(buf)@ == old(buf)@
            },
    {
        let ghost c = self@;
        let mut f = match self.fds.remove(&fd) {
            Some(f) => f,
            None => {
                assert(self@.fds =~= c.fds);
                return Err(ebadf());
            },
        };
        let r = f.file.read(fs, buf);
        self.fds.insert(fd, f);
        assert(self@.fds =~= c.fds.insert(fd, Fd { file: f.file, ..c.fds[fd] }));
        r
    }

    /// Writes to an open file, at its position.
    pub fn write(&mut self, fs: &mut LinuxFile, fd: i32, buf: &[u8]) -> (r: Result<usize>)
        requires
            old(fs).wf(),
        ensures
            final(fs).wf(),
            keeps(old(fs).inner, final(fs).inner),
            if old(self)@.fds.contains_key(fd) {
                let f0 = old(self)@.fds[fd];
                let f1 = final(self)@.fds[fd];
                &&& final(self)@ == old(self)@.put_fd(fd, Fd { file: f1.file, ..f0 })
                &&& wrote_did(f0.file, f1.file, old(fs).inner, final(fs).inner, buf@, r)
            } else {
                &&& r matches Err(e) && e.is(EBADF)
                &&& final(self)@ == old(self)@
                &&& *final(fs) == *old(fs)
            },
    {
        let ghost c = self@;
        let mut f = match self.fds.remove(&fd) {
            Some(f) => f,
            None => {
                assert(self@.fds =~= c.fds);
                return Err(ebadf());
            },
        };
        let r = f.file.write(fs, buf);
        self.fds.insert(fd, f);
        assert(self@.fds =~= c.fds.insert(fd, Fd { file: f.file, ..c.fds[fd] }));
        r
    }

    /// Moves the position of an open file.
    pub fn lseek(&mut self, fs: &LinuxFile, fd: i32, off: i64, whence: i32) -> (r: Result<i64>)
        requires
            fs.wf(),
        ensures
            if !old(self)@.fds.contains_key(fd) {
                &&& r matches Err(e) && e.is(EBADF)
                &&& final(self)@ == old(self)@
            } else {
                match whence_pos(off, whence) {
                    None => (r matches Err(e) && e.is(EINVAL)) && final(self)@ == old(self)@,
                    Some(pos) => {
                        let f0 = old(self)@.fds[fd];
                        let f1 = final(self)@.fds[fd];
                        &&& final(self)@ == old(self)@.put_fd(fd, Fd { file: f1.file, ..f0 })
                        &&& match r {
                            Ok(p) => p == signed(f1.file.pos) && seek_did(
                                f0.file,
                                f1.file,
                                fs@,
                                pos,
                                Ok(f1.file.pos),
                            ),
                            Err(e) => seek_did(f0.file, f1.file, fs@, pos, Err(e)),
                        }
                    },
                }
            },
    {
        let ghost c = self@;
        if !self.fds.contains_key(&fd) {
            return Err(ebadf());
        }
        let pos = if whence == SEEK_SET {
            SeekFrom::Start(if off >= 0 {
                off as u64
            } else {
                (off as i128 + 0x1_0000_0000_0000_0000) as u64
            })
        } else if whence == SEEK_CUR {
            SeekFrom::Current(off)
        } else if whence == SEEK_END {
            SeekFrom::End(off)
        } else {
            return Err(einval("bad whence"));
        };
        let mut f = match self.fds.remove(&fd) {
            Some(f) => f,
            None => {
                assert(self@.fds =~= c.fds);
                return Err(ebadf());
            },
        };
        let r = f.file.seek(fs, pos);
        self.fds.insert(fd, f);
        assert(self@.fds =~= c.fds.insert(fd, Fd { file: f.file, ..c.fds[fd] }));
        match r {
            Ok(p) => Ok(
                if p <= i64::MAX as u64 {
                    p as i64
                } else {
                    (p as i128 - 0x1_0000_0000_0000_0000) as i64
                },
            ),
            Err(e) => Err(e),
        }
    }

    pub fn fstat(&mut self, fs: &LinuxFile, fd: i32) -> (r: Result<Stat>)
        requires
            fs.wf(),
        ensures
            final(self)@ == old(self)@,
            match r {
                Ok(st) => {
                    let ino = old(self)@.fds[fd].file.ino;
                    &&& old(self)@.fds.contains_key(fd)
                    &&& fs@.nodes.contains_key(ino)
                    &&& st == node_stat(ino, fs@.nodes[ino], fs.inner.inodes@[ino].blocks)
                },
                Err(e) => if old(self)@.fds.contains_key(fd) {
                    e.is(EIO) && !fs@.nodes.contains_key(old(self)@.fds[fd].file.ino)
                } else {
                    e.is(EBADF)
                },
            },
    {
        match self.fds.get(&fd) {
            Some(f) => f.file.stat(fs),
            None => Err(ebadf()),
        }
    }

    pub fn ftruncate(&mut self, fs: &mut LinuxFile, fd: i32, size: u64) -> (r: Result<()>)
        requires
            old(fs).wf(),
        ensures
            final(fs).wf(),
            keeps(old(fs).inner, final(fs).inner),
            final(self)@ == old(self)@,
            if !old(self)@.fds.contains_key(fd) || !can_write(old(self)@.fds[fd].file.flags) {
                final(fs)@ == old(fs)@ && (r matches Err(e) && e.is(EBADF))
            } else {
                truncate_agrees(
                    at_time(old(fs).inner, final(fs)@.clock),
                    final(fs).inner,
                    old(self)@.fds[fd].file.ino,
                    size,
                    r,
                )
            },
    {
        match self.fds.get(&fd) {
            Some(f) => f.file.set_len(fs, size),
            None => Err(ebadf()),
        }
    }

    pub fn fsync(&mut self, fs: &mut LinuxFile, fd: i32) -> (r: Result<()>)
        requires
            old(fs).wf(),
        ensures
            final(fs).wf(),
            final(fs)@ == old(fs)@,
            holds(old(fs).inner, final(fs).inner),
            bare(old(fs).inner) ==> bare(final(fs).inner),
            !old(fs)@.writable ==> final(fs).inner.vol.image@ == old(fs).inner.vol.image@,
            final(self)@ == old(self)@,
            match r {
                Ok(_) => {
                    &&& old(self)@.fds.contains_key(fd)
                    &&& ends_in_sync(final(fs).inner)
                    &&& old(fs)@.writable ==> rests(final(fs).inner)
                    &&& old(fs)@.writable && final(fs).inner.sound() && clear(final(fs).inner)
                        ==> reopens(final(fs).inner, final(fs).inner.vol.image@)
                    &&& old(fs)@.writable && !(old(fs).inner.sync_mode is Deferred) ==> journaled(
                        old(fs).inner,
                        final(fs).inner,
                    )
                },
                Err(e) => if old(self)@.fds.contains_key(fd) {
                    old(fs)@.writable && flush_failed(old(fs).inner, final(fs).inner, e)
                } else {
                    e.is(EBADF)
                },
            },
    {
        match self.fds.get(&fd) {
            Some(f) => f.file.sync_all(fs),
            None => Err(ebadf()),
        }
    }

    /// One more descriptor for the same file, at its start.
    pub fn dup(&mut self, fs: &mut LinuxFile, fd: i32) -> (r: Result<i32>)
        requires
            old(fs).wf(),
        ensures
            final(fs).wf(),
            keeps(old(fs).inner, final(fs).inner),
            ({
                let want = dup_op(old(self)@, old(fs)@, fd);
                &&& final(self)@ == want.0
                &&& final(fs)@ == want.1
                &&& same_outcome(want.2, r)
            }),
    {
        let ghost c = self@;
        let n = self.next_free();
        proof {
            lemma_free_fd(c.fds, c.next_fd as int);
        }
        let (file, flags, dir_ino) = match self.fds.get(&fd) {
            Some(f) => {
                if n.is_none() {
                    return Err(Error::from_errno(EMFILE));
                }
                match f.file.try_clone(fs) {
                    Ok(file) => (file, f.flags, f.dir_ino),
                    Err(e) => return Err(e),
                }
            },
            None => return Err(ebadf()),
        };
        match n {
            Some(n) => {
                self.fds.insert(n, Fd { file, flags, dir_ino });
                self.next_fd = n + 1;
                assert(self@.fds =~= dup_op(c, old(fs)@, fd).0.fds);
                Ok(n)
            },
            None => Err(Error::from_errno(EMFILE)),
        }
    }

    /// Makes `new` a descriptor for the same file as `fd`.
    pub fn dup2(&mut self, fs: &mut LinuxFile, fd: i32, new: i32) -> (r: Result<i32>)
        requires
            old(fs).wf(),
        ensures
            final(fs).wf(),
            keeps(old(fs).inner, final(fs).inner),
            ({
                let want = dup2_op(old(self)@, old(fs)@, fd, new);
                &&& final(self)@ == want.0
                &&& final(fs)@ == want.1
                &&& same_outcome(want.2, r)
            }),
    {
        let ghost c = self@;
        if fd == new {
            if !self.fds.contains_key(&fd) {
                return Err(ebadf());
            }
            return Ok(new);
        }
        let (file, flags, dir_ino) = match self.fds.get(&fd) {
            Some(f) => match f.file.try_clone(fs) {
                Ok(file) => (file, f.flags, f.dir_ino),
                Err(e) => return Err(e),
            },
            None => return Err(ebadf()),
        };
        match self.fds.remove(&new) {
            Some(f) => {
                f.file.close(fs);
            },
            None => {},
        }
        self.fds.insert(new, Fd { file, flags, dir_ino });
        assert(self@.fds =~= dup2_op(c, old(fs)@, fd, new).0.fds);
        Ok(new)
    }

    /// The entries of an open directory.
    pub fn getdents(&mut self, fs: &mut LinuxFile, fd: i32) -> (r: Result<Vec<DirEntry>>)
        requires
            old(fs).wf(),
        ensures
            final(self)@ == old(self)@,
            looked(
                *old(fs),
                *final(fs),
                if old(self)@.fds.contains_key(fd) && old(self)@.fds[fd].dir_ino is Some {
                    dir_items(old(fs)@, old(self)@.fds[fd].dir_ino->0)
                } else {
                    Err(EBADF)
                },
                items_out(r),
            ),
    {
        let ino = match self.fds.get(&fd) {
            Some(f) => match f.dir_ino {
                Some(ino) => ino,
                None => return Err(ebadf()),
            },
            None => return Err(ebadf()),
        };
        fs.inner.read_dir_entries(ino)
    }

    pub fn mkdir(&mut self, fs: &mut LinuxFile, path: UnixPath, mode: u16) -> (r: Result<()>)
        requires
            old(fs).wf(),
        ensures
            final(self)@ == old(self)@,
            ran(
                *old(fs),
                *final(fs),
                mkdirat_op(old(self)@, old(fs)@.at(final(fs)@.clock), AT_FDCWD, path@, mode),
                r,
                mkdirat_room(old(self)@, old(fs)@.at(final(fs)@.clock), AT_FDCWD, path@, mode),
                1,
            ),
            r is Err ==> spared(
                old(fs)@.at(final(fs)@.clock),
                final(fs)@,
                old(self)@.reached_at(old(fs)@.at(final(fs)@.clock), AT_FDCWD, path@, true),
            ),
    {
        self.mkdirat(fs, AT_FDCWD, path, mode)
    }

    pub fn mkdirat(&mut self, fs: &mut LinuxFile, dirfd: i32, path: UnixPath, mode: u16) -> (r: Result<
        (),
    >)
        requires
            old(fs).wf(),
        ensures
            final(self)@ == old(self)@,
            ran(
                *old(fs),
                *final(fs),
                mkdirat_op(old(self)@, old(fs)@.at(final(fs)@.clock), dirfd, path@, mode),
                r,
                mkdirat_room(old(self)@, old(fs)@.at(final(fs)@.clock), dirfd, path@, mode),
                1,
            ),
            r is Err ==> spared(
                old(fs)@.at(final(fs)@.clock),
                final(fs)@,
                old(self)@.reached_at(old(fs)@.at(final(fs)@.clock), dirfd, path@, true),
            ),
    {
        fs.tick();
        let ghost v = fs@;
        let ghost touched = self@.reached_at(v, dirfd, path@, true);
        proof {
            lemma_spared_same(v, touched);
        }
        let start = match self.start_of(dirfd, path) {
            Ok(s) => s,
            Err(e) => return Err(e),
        };
        proof {
            let at = Place { root: self.root, cwd: start, creds: self.creds@ };
            lemma_create_clock(
                fs@,
                at,
                path@,
                true,
                S_IFDIR | masked_mode(mode, self.umask),
                0,
            );
        }
        let x = match fs.inner.walk(self.root, start, path, true, &self.creds) {
            Ok(x) => x,
            Err(e) => return Err(e),
        };
        if x.ino.is_some() {
            return Err(eexist("file exists"));
        }
        match fs.inner.create_child(
            x.parent,
            x.name.as_slice(),
            S_IFDIR | apply_umask(mode, self.umask),
            self.creds.fsuid,
            self.creds.fsgid,
            0,
            &self.creds,
        ) {
            Ok(_) => Ok(()),
            Err(e) => {
                proof {
                    lemma_spared_on(v, v, fs@, set![x.parent, next_ino(v)], touched);
                }
                Err(e)
            },
        }
    }

    pub fn unlink(&mut self, fs: &mut LinuxFile, path: UnixPath) -> (r: Result<()>)
        requires
            old(fs).wf(),
        ensures
            final(self)@ == old(self)@,
            ran(
                *old(fs),
                *final(fs),
                unlinkat_op(old(self)@, old(fs)@.at(final(fs)@.clock), AT_FDCWD, path@, 0),
                r,
                unlinkat_room(old(self)@, old(fs)@.at(final(fs)@.clock), AT_FDCWD, path@),
                0,
            ),
            r is Err ==> spared(
                old(fs)@.at(final(fs)@.clock),
                final(fs)@,
                old(self)@.reached_at(old(fs)@.at(final(fs)@.clock), AT_FDCWD, path@, false),
            ),
    {
        self.unlinkat(fs, AT_FDCWD, path, 0)
    }

    pub fn rmdir(&mut self, fs: &mut LinuxFile, path: UnixPath) -> (r: Result<()>)
        requires
            old(fs).wf(),
        ensures
            final(self)@ == old(self)@,
            ran(
                *old(fs),
                *final(fs),
                unlinkat_op(
                    old(self)@,
                    old(fs)@.at(final(fs)@.clock),
                    AT_FDCWD,
                    path@,
                    AT_REMOVEDIR,
                ),
                r,
                unlinkat_room(old(self)@, old(fs)@.at(final(fs)@.clock), AT_FDCWD, path@),
                0,
            ),
            r is Err ==> spared(
                old(fs)@.at(final(fs)@.clock),
                final(fs)@,
                old(self)@.reached_at(old(fs)@.at(final(fs)@.clock), AT_FDCWD, path@, false),
            ),
    {
        self.unlinkat(fs, AT_FDCWD, path, AT_REMOVEDIR)
    }

    pub fn unlinkat(&mut self, fs: &mut LinuxFile, dirfd: i32, path: UnixPath, flags: i32) -> (r: Result<
        (),
    >)
        requires
            old(fs).wf(),
        ensures
            final(self)@ == old(self)@,
            ran(
                *old(fs),
                *final(fs),
                unlinkat_op(old(self)@, old(fs)@.at(final(fs)@.clock), dirfd, path@, flags),
                r,
                unlinkat_room(old(self)@, old(fs)@.at(final(fs)@.clock), dirfd, path@),
                0,
            ),
            r is Err ==> spared(
                old(fs)@.at(final(fs)@.clock),
                final(fs)@,
                old(self)@.reached_at(old(fs)@.at(final(fs)@.clock), dirfd, path@, false),
            ),
    {
        fs.tick();
        let ghost v = fs@;
        let ghost touched = self@.reached_at(v, dirfd, path@, false);
        proof {
            lemma_spared_same(v, touched);
        }
        let x = match self.walk_at(fs, dirfd, path, false) {
            Ok(x) => x,
            Err(e) => return Err(e),
        };
        proof {
            if let Ok(at) = self@.place(dirfd, path@) {
                lemma_unlink_clock(v, at, path@, flags & AT_REMOVEDIR != 0);
            }
        }
        if x.ino.is_none() {
            return Err(enoent("no such file or directory"));
        }
        let rmdir = flags & AT_REMOVEDIR != 0;
        let r = fs.inner.unlink_name(x.parent, x.name.as_slice(), rmdir, &self.creds);
        proof {
            if r is Err {
                lemma_spared_on(v, v, fs@, under_name(v, x.parent, x.name@), touched);
            }
        }
        r
    }

    pub fn rename(&mut self, fs: &mut LinuxFile, from: UnixPath, to: UnixPath) -> (r: Result<()>)
        requires
            old(fs).wf(),
        ensures
            final(self)@ == old(self)@,
            ran(
                *old(fs),
                *final(fs),
                renameat_op(
                    old(self)@,
                    old(fs)@.at(final(fs)@.clock),
                    AT_FDCWD,
                    from@,
                    AT_FDCWD,
                    to@,
                ),
                r,
                renameat_room(old(self)@, old(fs)@.at(final(fs)@.clock), AT_FDCWD, from@, AT_FDCWD, to@),
                0,
            ),
            r is Err ==> spared(
                old(fs)@.at(final(fs)@.clock),
                final(fs)@,
                old(self)@.reached_at(old(fs)@.at(final(fs)@.clock), AT_FDCWD, from@, false).union(
                    old(self)@.reached_at(old(fs)@.at(final(fs)@.clock), AT_FDCWD, to@, false),
                ),
            ),
    {
        self.renameat(fs, AT_FDCWD, from, AT_FDCWD, to)
    }

    pub fn renameat(
        &mut self,
        fs: &mut LinuxFile,
        olddirfd: i32,
        from: UnixPath,
        newdirfd: i32,
        to: UnixPath,
    ) -> (r: Result<()>)
        requires
            old(fs).wf(),
        ensures
            final(self)@ == old(self)@,
            ran(
                *old(fs),
                *final(fs),
                renameat_op(
                    old(self)@,
                    old(fs)@.at(final(fs)@.clock),
                    olddirfd,
                    from@,
                    newdirfd,
                    to@,
                ),
                r,
                renameat_room(old(self)@, old(fs)@.at(final(fs)@.clock), olddirfd, from@, newdirfd, to@),
                0,
            ),
            r is Err ==> spared(
                old(fs)@.at(final(fs)@.clock),
                final(fs)@,
                old(self)@.reached_at(old(fs)@.at(final(fs)@.clock), olddirfd, from@, false).union(
                    old(self)@.reached_at(old(fs)@.at(final(fs)@.clock), newdirfd, to@, false),
                ),
            ),
    {
        fs.tick();
        let ghost v = fs@;
        let ghost touched = self@.reached_at(v, olddirfd, from@, false).union(
            self@.reached_at(v, newdirfd, to@, false),
        );
        proof {
            lemma_spared_same(v, touched);
        }
        proof {
            lemma_renameat_clock(self@, fs@, olddirfd, from@, newdirfd, to@);
        }
        let src = match self.walk_at(fs, olddirfd, from, false) {
            Ok(x) => x,
            Err(e) => return Err(e),
        };
        let dst = match self.walk_at(fs, newdirfd, to, false) {
            Ok(x) => x,
            Err(e) => return Err(e),
        };
        if src.ino.is_none() {
            return Err(enoent("no such file or directory"));
        }
        let r = fs.inner.rename(
            src.parent,
            src.name.as_slice(),
            dst.parent,
            dst.name.as_slice(),
            &self.creds,
        );
        proof {
            if r is Err {
                let both = under_name(v, src.parent, src.name@).union(
                    under_name(v, dst.parent, dst.name@),
                );
                lemma_spared_on(v, v, fs@, both, touched);
            }
        }
        r
    }

    /// The directory that a path leads to.
    fn find_dir(&self, fs: &mut LinuxFile, path: UnixPath) -> (r: Result<u64>)
        requires
            old(fs).wf(),
        ensures
            looked(*old(fs), *final(fs), self@.dir_at(old(fs)@, path@), r),
    {
        let x = match self.walk_at(fs, AT_FDCWD, path, true) {
            Ok(x) => x,
            Err(e) => return Err(e),
        };
        let ino = match x.ino {
            Some(ino) => ino,
            None => return Err(enoent("no such file or directory")),
        };
        match fs.inner.meta(ino) {
            Ok(m) => {
                if FileType::from_mode(m.mode).is_dir() {
                    Ok(ino)
                } else {
                    Err(enotdir("not a directory"))
                }
            },
            Err(e) => Err(e),
        }
    }

    /// Makes a directory the one that relative paths start at.
    pub fn chdir(&mut self, fs: &mut LinuxFile, path: UnixPath) -> (r: Result<()>)
        requires
            old(fs).wf(),
        ensures
            ({
                let want = old(self)@.dir_at(old(fs)@, path@);
                &&& looked(*old(fs), *final(fs), no_value((old(fs)@, want)).1, r)
                &&& final(self)@ == match r {
                    Ok(_) => ContextView { cwd: want->Ok_0, ..old(self)@ },
                    Err(_) => old(self)@,
                }
            }),
    {
        match self.find_dir(fs, path) {
            Ok(ino) => {
                self.cwd = ino;
                Ok(())
            },
            Err(e) => Err(e),
        }
    }

    /// Makes an open directory the one that relative paths start at.
    pub fn fchdir(&mut self, fd: i32) -> (r: Result<()>)
        ensures
            if old(self)@.fds.contains_key(fd) && old(self)@.fds[fd].dir_ino is Some {
                r is Ok && final(self)@ == (ContextView {
                    cwd: old(self)@.fds[fd].dir_ino->0,
                    ..old(self)@
                })
            } else {
                (r matches Err(e) && e.is(EBADF)) && final(self)@ == old(self)@
            },
    {
        match self.fds.get(&fd) {
            Some(f) => match f.dir_ino {
                Some(ino) => {
                    self.cwd = ino;
                    Ok(())
                },
                None => Err(ebadf()),
            },
            None => Err(ebadf()),
        }
    }

    /// Makes a directory the root of all paths.
    pub fn chroot(&mut self, fs: &mut LinuxFile, path: UnixPath) -> (r: Result<()>)
        requires
            old(fs).wf(),
        ensures
            ({
                let want = old(self)@.dir_at(old(fs)@, path@);
                &&& looked(*old(fs), *final(fs), no_value((old(fs)@, want)).1, r)
                &&& final(self)@ == match r {
                    Ok(_) => ContextView { root: want->Ok_0, cwd: want->Ok_0, ..old(self)@ },
                    Err(_) => old(self)@,
                }
            }),
    {
        match self.find_dir(fs, path) {
            Ok(ino) => {
                self.root = ino;
                self.cwd = ino;
                Ok(())
            },
            Err(e) => Err(e),
        }
    }

    pub fn stat(&mut self, fs: &mut LinuxFile, path: UnixPath) -> (r: Result<Stat>)
        requires
            old(fs).wf(),
        ensures
            final(self)@ == old(self)@,
            looked(
                *old(fs),
                *final(fs),
                fstatat_op(old(self)@, old(fs)@, *final(fs), AT_FDCWD, path@, 0),
                r,
            ),
    {
        self.fstatat(fs, AT_FDCWD, path, 0)
    }

    pub fn lstat(&mut self, fs: &mut LinuxFile, path: UnixPath) -> (r: Result<Stat>)
        requires
            old(fs).wf(),
        ensures
            final(self)@ == old(self)@,
            looked(
                *old(fs),
                *final(fs),
                fstatat_op(old(self)@, old(fs)@, *final(fs), AT_FDCWD, path@, AT_SYMLINK_NOFOLLOW),
                r,
            ),
    {
        self.fstatat(fs, AT_FDCWD, path, AT_SYMLINK_NOFOLLOW)
    }

    /// `stat` of a path that is relative to a descriptor; an empty path stands for the file that
    /// the descriptor is open on, where the flags say so.
    pub fn fstatat(&mut self, fs: &mut LinuxFile, dirfd: i32, path: UnixPath, flags: i32) -> (r: Result<
        Stat,
    >)
        requires
            old(fs).wf(),
        ensures
            final(self)@ == old(self)@,
            looked(
                *old(fs),
                *final(fs),
                fstatat_op(old(self)@, old(fs)@, *final(fs), dirfd, path@, flags),
                r,
            ),
    {
        if path.is_empty() && flags & AT_EMPTY_PATH != 0 {
            return self.fstat(fs, dirfd);
        }
        let x = match self.walk_at(fs, dirfd, path, flags & AT_SYMLINK_NOFOLLOW == 0) {
            Ok(x) => x,
            Err(e) => return Err(e),
        };
        match x.ino {
            Some(ino) => fs.inner.stat_ino(ino),
            None => Err(enoent("no such file or directory")),
        }
    }
}

/// The `stat` of inode `ino`; mount `f` knows the blocks that it takes up.
pub open spec fn stat_known(v: FsView, f: LinuxFile, ino: u64) -> Outcome<Stat> {
    if v.nodes.contains_key(ino) {
        Ok(node_stat(ino, v.nodes[ino], f.inner.inodes@[ino].blocks))
    } else {
        Err(EIO)
    }
}

/// `stat` through a context.
pub open spec fn fstatat_op(
    c: ContextView,
    v: FsView,
    f: LinuxFile,
    dirfd: i32,
    path: Seq<u8>,
    flags: i32,
) -> Outcome<Stat> {
    if path.len() == 0 && flags & AT_EMPTY_PATH != 0 {
        if c.fds.contains_key(dirfd) {
            stat_known(v, f, c.fds[dirfd].file.ino)
        } else {
            Err(EBADF)
        }
    } else {
        match c.file_at(v, dirfd, path, flags & AT_SYMLINK_NOFOLLOW == 0) {
            Err(e) => Err(e),
            Ok(ino) => stat_known(v, f, ino),
        }
    }
}

} // verus!
