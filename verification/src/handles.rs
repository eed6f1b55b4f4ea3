//! What opening, duplicating, reading, writing and positioning handles and descriptors means.

use vstd::prelude::*;
use vstd::utf8::{decode_utf8, valid_utf8};

use crate::calls::{find, mkdir_at, node_stat, open_at, open_handle, stat_at, unlink_at, Place};
use crate::context::{
    dup2_op, dup_op, free_fd, fstatat_op, mkdirat_op, new_context, openat_op, renameat_op, signed,
    unlinkat_op, whence_pos, ContextView, Fd,
};
use crate::entries::{others_kept, same_switches};
use crate::error::{Result, EBADF, EEXIST, EINVAL, EIO, EISDIR, EMFILE, ENFILE, ENOENT, ENOTDIR};
use crate::file::{read_did, seek_did, wrote_did, File, OpenOptions, SeekFrom};
use crate::fs::{stat_path, text_of, LinuxFile};
use crate::inner::Inner;
use crate::model::FsView;
use crate::ops::{create_child_op, opens_of, rename_op, type_at, Found};
use crate::types::{CredsView, Stat};

verus! {

/// A regular file that is opened to be cut is empty afterwards, whatever else is asked for and
/// however it is opened; it is the file that the path led to, and no other file changes.
pub proof fn opening_cuts_files(
    v: FsView,
    at: Place,
    path: Seq<u8>,
    o: OpenOptions,
    umask: u16,
    strict: bool,
)
    requires
        o.truncate,
        find(v, at, path, !o.nofollow) matches Ok(f) && f.ino matches Some(ino) && type_at(v, ino)
            is File,
    ensures
        ({
            let ino = find(v, at, path, !o.nofollow)->Ok_0.ino->0;
            let (w, r) = open_at(v, at, path, o, umask, strict);
            let (x, q) = open_handle(v, at, path, o, umask, strict);
            &&& r is Ok ==> {
                &&& r == Ok::<u64, i32>(ino)
                &&& w.nodes.contains_key(ino)
                &&& w.nodes[ino].data.len() == 0
                &&& others_kept(v, w, ino, ino)
            }
            &&& q is Ok ==> {
                &&& q == Ok::<u64, i32>(ino)
                &&& x.nodes.contains_key(ino)
                &&& x.nodes[ino].data.len() == 0
                &&& others_kept(v, x, ino, ino)
            }
        }),
{
}

/// A process that opens a regular file with the flag to cut it finds it empty.
pub proof fn opening_by_flags_cuts_files(
    c: ContextView,
    v: FsView,
    dirfd: i32,
    path: Seq<u8>,
    flags: i32,
    mode: u16,
)
    requires
        flags & 0o1000 != 0,
        openat_op(c, v, dirfd, path, flags, mode).2 is Ok,
        c.place(dirfd, path) matches Ok(at) && find(v, at, path, flags & 0o400000 == 0) matches Ok(f)
            && f.ino matches Some(ino) && type_at(v, ino) is File,
    ensures
        ({
            let (d, w, r) = openat_op(c, v, dirfd, path, flags, mode);
            let ino = find(v, c.place(dirfd, path)->Ok_0, path, flags & 0o400000 == 0)->Ok_0.ino->0;
            &&& d.fds.contains_key(r->Ok_0)
            &&& d.fds[r->Ok_0].file.ino == ino
            &&& w.nodes.contains_key(ino)
            &&& w.nodes[ino].data.len() == 0
            &&& others_kept(v, w, ino, ino)
        }),
{
}

/// When a file that is there can be opened, and what that changes: nothing but the contents of a
/// regular file that is to be cut.
pub proof fn opening_what_is_there(
    v: FsView,
    at: Place,
    path: Seq<u8>,
    o: OpenOptions,
    umask: u16,
    strict: bool,
)
    requires
        find(v, at, path, !o.nofollow) matches Ok(f) && f.ino matches Some(ino)
            && v.nodes.contains_key(ino),
    ensures
        ({
            let (w, r) = open_at(v, at, path, o, umask, strict);
            let ino = find(v, at, path, !o.nofollow)->Ok_0.ino->0;
            let dir = type_at(v, ino) is Directory;
            let regular = type_at(v, ino) is File;
            &&& o.create_new ==> r == Err::<u64, i32>(EEXIST)
            &&& !o.create_new && o.directory && !dir ==> r == Err::<u64, i32>(ENOTDIR)
            &&& !o.create_new && dir && o.write && !o.directory ==> r == Err::<u64, i32>(EISDIR)
            &&& r is Ok <==> !o.create_new && (o.directory ==> dir) && (dir && o.write
                ==> o.directory) && (o.truncate && strict ==> regular) && (o.truncate && regular
                ==> v.writable)
            &&& r is Ok ==> r == Ok::<u64, i32>(ino)
            &&& r is Err || !o.truncate || !regular ==> w == v
            &&& (w.opens, w.orphans, w.free_inodes, w.next_inode) == (
                v.opens,
                v.orphans,
                v.free_inodes,
                v.next_inode,
            )
            &&& same_switches(v, w)
        }),
{
}

/// Opening a file that is not there creates a regular file, where that is asked for, with the mode
/// that the umask leaves, for whoever asks.
pub proof fn opening_what_is_not_there(
    v: FsView,
    at: Place,
    path: Seq<u8>,
    o: OpenOptions,
    umask: u16,
    strict: bool,
)
    requires
        find(v, at, path, !o.nofollow) matches Ok(f) && f.ino is None,
    ensures
        ({
            let f = find(v, at, path, !o.nofollow)->Ok_0;
            &&& !o.create && !o.create_new ==> open_at(v, at, path, o, umask, strict) == (
                v,
                Err::<u64, i32>(ENOENT),
            )
            &&& o.create || o.create_new ==> open_at(v, at, path, o, umask, strict)
                == create_child_op(
                v,
                f.parent,
                f.name,
                0o100000 | ((o.mode & 0o7777) & !umask),
                at.creds.fsuid,
                at.creds.fsgid,
                0,
                at.creds,
            )
        }),
{
}

/// A handle on a file counts, and takes nothing away from what opening it did.
pub proof fn handles_count(
    v: FsView,
    at: Place,
    path: Seq<u8>,
    o: OpenOptions,
    umask: u16,
    strict: bool,
    x: u64,
)
    ensures
        ({
            let (w, r) = open_at(v, at, path, o, umask, strict);
            let (h, q) = open_handle(v, at, path, o, umask, strict);
            &&& r is Err ==> q == r && h == w
            &&& r is Ok && opens_of(w, r->Ok_0) == 0xffff_ffff ==> q == Err::<u64, i32>(ENFILE) && h
                == w
            &&& r is Ok && opens_of(w, r->Ok_0) < 0xffff_ffff ==> {
                &&& q == r
                &&& h.nodes == w.nodes
                &&& opens_of(h, r->Ok_0) == opens_of(w, r->Ok_0) + 1
                &&& x != r->Ok_0 ==> opens_of(h, x) == opens_of(w, x)
                &&& (h.orphans, h.free_inodes, h.next_inode) == (
                    w.orphans,
                    w.free_inodes,
                    w.next_inode,
                )
                &&& same_switches(w, h)
            }
        }),
{
}

/// A new process is at the root, masks writing by others, and numbers its files from 3 on.
pub proof fn new_processes(creds: CredsView)
    ensures
        new_context(creds).creds == creds,
        new_context(creds).cwd == 1,
        new_context(creds).root == 1,
        new_context(creds).umask == 0o022,
        new_context(creds).next_fd == 3,
        forall|n: i32| !(#[trigger] new_context(creds).fds.contains_key(n)),
{
}

/// A free number is the lowest one from `n` on that is not in use.
pub proof fn free_numbers_are_lowest(fds: Map<i32, Fd>, n: int)
    requires
        i32::MIN <= n,
    ensures
        free_fd(fds, n) matches Some(k) ==> n <= k < i32::MAX && !fds.contains_key(k) && forall|
            j: i32,
        |
            n <= j < k ==> #[trigger] fds.contains_key(j),
        free_fd(fds, n) is None ==> forall|j: i32|
            n <= j < i32::MAX ==> #[trigger] fds.contains_key(j),
    decreases i32::MAX - n,
{
    if n < i32::MAX && fds.contains_key(n as i32) {
        free_numbers_are_lowest(fds, n + 1);
        assert forall|j: i32| n <= j < i32::MAX && free_fd(fds, n) is None implies
            #[trigger] fds.contains_key(j) by {
            if j > n {
                assert(n + 1 <= j);
            }
        }
    }
}

/// Where a path starts: an absolute one at the root of the process, any other at the directory that
/// it is relative to.
pub proof fn paths_start(c: ContextView, dirfd: i32, path: Seq<u8>)
    ensures
        ({
            let abs = path.len() > 0 && path[0] == 47;
            &&& abs ==> c.place(dirfd, path) == Ok::<Place, i32>(
                Place { root: c.root, cwd: c.root, creds: c.creds },
            )
            &&& !abs && dirfd == -100 ==> c.place(dirfd, path) == Ok::<Place, i32>(
                Place { root: c.root, cwd: c.cwd, creds: c.creds },
            )
            &&& !abs && dirfd != -100 && !c.fds.contains_key(dirfd) ==> c.place(dirfd, path) == Err::<
                Place,
                i32,
            >(EBADF)
            &&& !abs && dirfd != -100 && c.fds.contains_key(dirfd) ==> c.place(dirfd, path) == (
            match c.fds[dirfd].dir_ino {
                Some(ino) => Ok::<Place, i32>(Place { root: c.root, cwd: ino, creds: c.creds }),
                None => Err::<Place, i32>(ENOTDIR),
            })
        }),
{
}

/// Opening gives a number that was free; it stands for the file, at its beginning, with the flags
/// that were asked for. All other numbers, and the rest of the process, stay as they are.
pub proof fn opening_gives_a_number(
    c: ContextView,
    v: FsView,
    dirfd: i32,
    path: Seq<u8>,
    flags: i32,
    mode: u16,
    n: i32,
)
    ensures
        ({
            let (d, w, r) = openat_op(c, v, dirfd, path, flags, mode);
            let abs = path.len() > 0 && path[0] == 47;
            &&& r is Err ==> d == c
            &&& !abs && dirfd != -100 && !(c.fds.contains_key(dirfd) && c.fds[dirfd].dir_ino is Some)
                ==> r == Err::<i32, i32>(EBADF) && w == v
            &&& r == Err::<i32, i32>(EMFILE) && free_fd(c.fds, c.next_fd as int) is None ==> w == v
            &&& r matches Ok(k) ==> {
                let at = c.place(dirfd, path)->Ok_0;
                let o = crate::file::options_of(flags, mode);
                &&& c.place(dirfd, path) is Ok
                &&& w == open_handle(v, at, path, o, c.umask, false).0
                &&& open_handle(v, at, path, o, c.umask, false).1 == Ok::<u64, i32>(
                    d.fds[k].file.ino,
                )
                &&& free_fd(c.fds, c.next_fd as int) == Some(k)
                &&& !c.fds.contains_key(k)
                &&& d.fds.contains_key(k)
                &&& d.fds[k].file.pos == 0
                &&& d.fds[k].file.flags == flags
                &&& d.fds[k].flags == flags
                &&& type_at(w, d.fds[k].file.ino) is Directory ==> d.fds[k].dir_ino == Some(
                    d.fds[k].file.ino,
                )
                &&& !(type_at(w, d.fds[k].file.ino) is Directory) ==> d.fds[k].dir_ino is None
                &&& n != k ==> (d.fds.contains_key(n) <==> c.fds.contains_key(n))
                &&& n != k && c.fds.contains_key(n) ==> d.fds[n] == c.fds[n]
                &&& d.next_fd == k + 1
                &&& (d.root, d.cwd, d.umask, d.creds) == (c.root, c.cwd, c.umask, c.creds)
            }
        }),
{
    free_numbers_are_lowest(c.fds, c.next_fd as int);
}

/// A duplicate stands for the same file, with the same flags, from the beginning, and counts as a
/// handle of its own.
pub proof fn duplicates_share_the_file(c: ContextView, v: FsView, fd: i32, n: i32)
    ensures
        ({
            let (d, w, r) = dup_op(c, v, fd);
            let ino = c.fds[fd].file.ino;
            &&& !c.fds.contains_key(fd) ==> r == Err::<i32, i32>(EBADF)
            &&& r is Err ==> d == c && w == v
            &&& c.fds.contains_key(fd) && free_fd(c.fds, c.next_fd as int) is None ==> r == Err::<
                i32,
                i32,
            >(EMFILE)
            &&& r is Ok <==> c.fds.contains_key(fd) && free_fd(c.fds, c.next_fd as int) is Some
                && opens_of(v, ino) < 0xffff_ffff
            &&& r matches Ok(k) ==> {
                &&& free_fd(c.fds, c.next_fd as int) == Some(k)
                &&& !c.fds.contains_key(k)
                &&& d.fds.contains_key(k)
                &&& d.fds[k].file.ino == ino
                &&& d.fds[k].file.flags == c.fds[fd].file.flags
                &&& d.fds[k].file.pos == 0
                &&& d.fds[k].flags == c.fds[fd].flags
                &&& d.fds[k].dir_ino == c.fds[fd].dir_ino
                &&& n != k ==> (d.fds.contains_key(n) <==> c.fds.contains_key(n))
                &&& n != k && c.fds.contains_key(n) ==> d.fds[n] == c.fds[n]
                &&& (d.root, d.cwd, d.umask, d.creds) == (c.root, c.cwd, c.umask, c.creds)
                &&& w.nodes == v.nodes
                &&& opens_of(w, ino) == opens_of(v, ino) + 1
            }
        }),
{
    free_numbers_are_lowest(c.fds, c.next_fd as int);
}

/// A duplicate under a given number takes the place of what had that number, which is closed. A
/// number is its own duplicate already.
pub proof fn duplicates_take_numbers(c: ContextView, v: FsView, fd: i32, new: i32, n: i32, x: u64)
    ensures
        ({
            let (d, w, r) = dup2_op(c, v, fd, new);
            let ino = c.fds[fd].file.ino;
            &&& !c.fds.contains_key(fd) ==> r == Err::<i32, i32>(EBADF)
            &&& r is Err ==> d == c && w == v
            &&& c.fds.contains_key(fd) && fd == new ==> r == Ok::<i32, i32>(new) && d == c && w == v
            &&& c.fds.contains_key(fd) && fd != new && opens_of(v, ino) < 0xffff_ffff ==> {
                &&& r == Ok::<i32, i32>(new)
                &&& d.fds.contains_key(new)
                &&& d.fds[new].file.ino == ino
                &&& d.fds[new].file.flags == c.fds[fd].file.flags
                &&& d.fds[new].file.pos == 0
                &&& d.fds[new].flags == c.fds[fd].flags
                &&& d.fds[new].dir_ino == c.fds[fd].dir_ino
                &&& n != new ==> (d.fds.contains_key(n) <==> c.fds.contains_key(n))
                &&& n != new && c.fds.contains_key(n) ==> d.fds[n] == c.fds[n]
                &&& (d.root, d.cwd, d.umask, d.creds) == (c.root, c.cwd, c.umask, c.creds)
                &&& !c.fds.contains_key(new) ==> w.nodes == v.nodes && opens_of(w, ino) == opens_of(
                    v,
                    ino,
                ) + 1
                &&& c.fds.contains_key(new) && c.fds[new].file.ino != ino ==> {
                    let gone = c.fds[new].file.ino;
                    &&& opens_of(w, ino) == opens_of(v, ino) + 1
                    &&& opens_of(v, gone) > 0 ==> opens_of(w, gone) == opens_of(v, gone) - 1
                    &&& x != gone && v.nodes.contains_key(x) ==> w.nodes.contains_key(x)
                        && w.nodes[x] == v.nodes[x]
                }
                &&& c.fds.contains_key(new) && c.fds[new].file.ino == ino ==> opens_of(w, ino)
                    == opens_of(v, ino)
            }
        }),
{
}

/// The calls of a process that take a directory are the calls on paths from there on.
pub proof fn calls_start_at_directories(
    c: ContextView,
    v: FsView,
    dirfd: i32,
    path: Seq<u8>,
    mode: u16,
    flags: i32,
    follow: bool,
)
    ensures
        c.place(dirfd, path) matches Err(e) ==> mkdirat_op(c, v, dirfd, path, mode) == (v, Err::<
            (),
            i32,
        >(e)) && (path.len() > 0 ==> unlinkat_op(c, v, dirfd, path, flags) == (v, Err::<(), i32>(e))
            && c.find_at(v, dirfd, path, follow) == Err::<Found, i32>(e)),
        path.len() == 0 ==> unlinkat_op(c, v, dirfd, path, flags) == (v, Err::<(), i32>(EINVAL))
            && c.find_at(v, dirfd, path, follow) == Err::<Found, i32>(EINVAL),
        c.place(dirfd, path) matches Ok(at) ==> {
            &&& mkdirat_op(c, v, dirfd, path, mode) == mkdir_at(v, at, path, mode, c.umask)
            &&& path.len() > 0 && flags & 0x200 != 0 ==> unlinkat_op(c, v, dirfd, path, flags)
                == unlink_at(v, at, path, true)
            &&& path.len() > 0 && flags & 0x200 == 0 ==> unlinkat_op(c, v, dirfd, path, flags)
                == unlink_at(v, at, path, false)
            &&& path.len() > 0 ==> c.find_at(v, dirfd, path, follow) == find(v, at, path, follow)
        },
        c.find_at(v, dirfd, path, follow) matches Ok(f) ==> c.file_at(v, dirfd, path, follow) == (
        match f.ino {
            Some(ino) => Ok::<u64, i32>(ino),
            None => Err::<u64, i32>(ENOENT),
        }),
        c.find_at(v, dirfd, path, follow) matches Err(e) ==> c.file_at(v, dirfd, path, follow)
            == Err::<u64, i32>(e),
{
}

/// A process renames the name that one path ends in to the one that another path ends in.
pub proof fn processes_rename(
    c: ContextView,
    v: FsView,
    olddirfd: i32,
    from: Seq<u8>,
    newdirfd: i32,
    to: Seq<u8>,
)
    ensures
        ({
            let src = c.find_at(v, olddirfd, from, false);
            let dst = c.find_at(v, newdirfd, to, false);
            let r = renameat_op(c, v, olddirfd, from, newdirfd, to);
            &&& src matches Err(e) ==> r == (v, Err::<(), i32>(e))
            &&& src is Ok && dst is Err ==> r == (v, Err::<(), i32>(dst->Err_0))
            &&& src is Ok && dst is Ok && src->Ok_0.ino is None ==> r == (v, Err::<(), i32>(ENOENT))
            &&& src is Ok && dst is Ok && src->Ok_0.ino is Some ==> r == rename_op(
                v,
                src->Ok_0.parent,
                src->Ok_0.name,
                dst->Ok_0.parent,
                dst->Ok_0.name,
                c.creds,
            )
        }),
{
}

/// Only a directory can be worked in.
pub proof fn only_directories_are_entered(c: ContextView, v: FsView, path: Seq<u8>)
    ensures
        ({
            let at = c.file_at(v, (-100) as i32, path, true);
            &&& at matches Err(e) ==> c.dir_at(v, path) == Err::<u64, i32>(e)
            &&& at is Ok && v.nodes.contains_key(at->Ok_0) && type_at(v, at->Ok_0) is Directory
                ==> c.dir_at(v, path) == at
            &&& at is Ok && v.nodes.contains_key(at->Ok_0) && !(type_at(v, at->Ok_0) is Directory)
                ==> c.dir_at(v, path) == Err::<u64, i32>(ENOTDIR)
            &&& at is Ok && !v.nodes.contains_key(at->Ok_0) ==> c.dir_at(v, path) == Err::<u64, i32>(
                EIO,
            )
        }),
{
}

/// `fstatat` is `stat` of what a path leads to, with the last link followed unless a flag says
/// otherwise; with another flag and no path it is `stat` of the descriptor.
pub proof fn stat_from_directories(
    c: ContextView,
    v: FsView,
    f: LinuxFile,
    dirfd: i32,
    path: Seq<u8>,
    flags: i32,
)
    ensures
        ({
            let r = fstatat_op(c, v, f, dirfd, path, flags);
            let handle = path.len() == 0 && flags & 0x1000 != 0;
            let at = c.file_at(v, dirfd, path, flags & 0x100 == 0);
            let ino = if handle {
                c.fds[dirfd].file.ino
            } else {
                at->Ok_0
            };
            &&& handle && !c.fds.contains_key(dirfd) ==> r == Err::<Stat, i32>(EBADF)
            &&& !handle && at is Err ==> r == Err::<Stat, i32>(at->Err_0)
            &&& (handle && c.fds.contains_key(dirfd)) || (!handle && at is Ok) ==> {
                &&& v.nodes.contains_key(ino) ==> r == Ok::<Stat, i32>(
                    node_stat(ino, v.nodes[ino], f.inner.inodes@[ino].blocks),
                )
                &&& !v.nodes.contains_key(ino) ==> r == Err::<Stat, i32>(EIO)
            }
        }),
{
}

/// What `whence` says an offset counts from, and how a position is told.
pub proof fn whence_counts_from(off: i64, whence: i32, p: u64)
    ensures
        whence == 0 && off >= 0 ==> whence_pos(off, whence) == Some(SeekFrom::Start(off as u64)),
        whence == 1 ==> whence_pos(off, whence) == Some(SeekFrom::Current(off)),
        whence == 2 ==> whence_pos(off, whence) == Some(SeekFrom::End(off)),
        !(0 <= whence <= 2) ==> whence_pos(off, whence) is None,
        p < 0x8000_0000_0000_0000 ==> signed(p) == p,
{
}

/// A read through a handle takes the bytes at its position and moves behind them; it falls short
/// only at the end of the file. A handle for writing alone reads nothing.
pub proof fn handle_reads(
    f0: File,
    f1: File,
    s0: Inner,
    s1: Inner,
    b0: Seq<u8>,
    b1: Seq<u8>,
    r: Result<usize>,
)
    requires
        read_did(f0, f1, s0, s1, b0, b1, r),
    ensures
        (f1.ino, f1.flags) == (f0.ino, f0.flags),
        f0.flags & 3 == 1 ==> (r matches Err(e) && e.is(EBADF)),
        r is Err ==> f1.pos == f0.pos,
        r matches Ok(n) ==> {
            let data = s0@.nodes[f0.ino].data;
            &&& s0@.nodes.contains_key(f0.ino)
            &&& f1.pos == f0.pos + n
            &&& n <= b0.len()
            &&& b1.len() == b0.len()
            &&& n < b0.len() ==> f0.pos + n >= data.len()
            &&& n > 0 ==> f0.pos + n <= data.len()
            &&& forall|k: int| 0 <= k < n ==> #[trigger] b1[k] == data[f0.pos + k]
            &&& forall|k: int| n <= k < b0.len() ==> #[trigger] b1[k] == b0[k]
        },
{
}

/// A write through a handle puts the bytes at its position, or at the end of the file where it was
/// opened to append, and moves behind them. A handle for reading alone writes nothing.
pub proof fn handle_writes(f0: File, f1: File, s0: Inner, s1: Inner, buf: Seq<u8>, r: Result<usize>)
    requires
        wrote_did(f0, f1, s0, s1, buf, r),
    ensures
        (f1.ino, f1.flags) == (f0.ino, f0.flags),
        f0.flags & 3 == 0 ==> s1@ == s0@ && (r matches Err(e) && e.is(EBADF)),
        r is Err ==> f1.pos == f0.pos,
        r is Ok && buf.len() == 0 ==> s1@.nodes == s0@.nodes,
        r is Ok && buf.len() > 0 ==> {
            let n = r->Ok_0;
            let was = s0@.nodes[f0.ino].data;
            let is = s1@.nodes[f0.ino].data;
            let at = if f0.flags & 0o2000 != 0 {
                was.len() as int
            } else {
                f0.pos as int
            };
            &&& n == buf.len()
            &&& f1.pos == at + n
            &&& forall|k: int| 0 <= k < buf.len() ==> is[at + k] == #[trigger] buf[k]
            &&& forall|p: int|
                0 <= p < was.len() && !(at <= p < at + n) ==> #[trigger] is[p] == was[p]
            &&& forall|p: int| was.len() <= p < at ==> #[trigger] is[p] == 0
            &&& is.len() == if at + n > was.len() {
                at + n
            } else {
                was.len() as int
            }
        },
{
}

/// A handle goes to the position that was asked for, and says so; a position before the file is
/// refused, and the handle stays where it is.
pub proof fn handle_seeks(f0: File, f1: File, v: FsView, pos: SeekFrom, r: Result<u64>)
    requires
        seek_did(f0, f1, v, pos, r),
        v.nodes.contains_key(f0.ino),
    ensures
        ({
            let to = match pos {
                SeekFrom::Start(o) => o as int,
                SeekFrom::Current(o) => f0.pos + o,
                SeekFrom::End(o) => v.nodes[f0.ino].data.len() + o,
            };
            &&& (f1.ino, f1.flags) == (f0.ino, f0.flags)
            &&& r is Ok <==> to >= 0
            &&& to < 0 ==> (r matches Err(e) && e.is(EINVAL)) && f1.pos == f0.pos
            &&& 0 <= to <= u64::MAX ==> r->Ok_0 == to && f1.pos == to
        }),
{
}

/// A descriptor that is closed is gone, one that is moved on stays, and no other one changes.
pub proof fn descriptors_change_one_by_one(c: ContextView, n: i32, f: Fd, k: i32)
    ensures
        !c.without_fd(n).fds.contains_key(n),
        k != n ==> (c.without_fd(n).fds.contains_key(k) <==> c.fds.contains_key(k)),
        k != n && c.fds.contains_key(k) ==> c.without_fd(n).fds[k] == c.fds[k],
        c.put_fd(n, f).fds.contains_key(n),
        c.put_fd(n, f).fds[n] == f,
        k != n ==> (c.put_fd(n, f).fds.contains_key(k) <==> c.fds.contains_key(k)),
        k != n && c.fds.contains_key(k) ==> c.put_fd(n, f).fds[k] == c.fds[k],
        ({
            let d = c.without_fd(n);
            (d.root, d.cwd, d.umask, d.creds, d.next_fd) == (
                c.root,
                c.cwd,
                c.umask,
                c.creds,
                c.next_fd,
            )
        }),
        ({
            let d = c.put_fd(n, f);
            (d.root, d.cwd, d.umask, d.creds, d.next_fd) == (
                c.root,
                c.cwd,
                c.umask,
                c.creds,
                c.next_fd,
            )
        }),
{
}

/// Bytes are text where they are valid as such, and an error where they are not; errors stay as they
/// are.
pub proof fn bytes_as_text(b: Seq<u8>, e: i32)
    ensures
        valid_utf8(b) ==> text_of(Ok(b)) == Ok::<Seq<char>, i32>(decode_utf8(b)),
        !valid_utf8(b) ==> text_of(Ok(b)) == Err::<Seq<char>, i32>(EINVAL),
        text_of(Err(e)) == Err::<Seq<char>, i32>(e),
{
}

/// `stat` of a path tells of the file that the path leads to.
pub proof fn stat_of_paths(v: FsView, s: Inner, at: Place, path: Seq<u8>, follow: bool)
    ensures
        stat_at(v, at, path, follow) matches Err(e) ==> stat_path(v, s, at, path, follow) == Err::<
            Stat,
            i32,
        >(e),
        stat_at(v, at, path, follow) matches Ok(ino) ==> {
            let st = stat_path(v, s, at, path, follow)->Ok_0;
            let m = v.nodes[ino].meta;
            &&& stat_path(v, s, at, path, follow) is Ok
            &&& st.ino == ino
            &&& (st.mode, st.nlink, st.uid, st.gid, st.rdev) == (
                m.mode,
                m.nlink,
                m.uid,
                m.gid,
                m.rdev,
            )
            &&& (st.atime, st.mtime, st.ctime, st.btime) == (m.atime, m.mtime, m.ctime, m.btime)
            &&& v.nodes[ino].data.len() <= u64::MAX ==> st.size == v.nodes[ino].data.len()
            &&& st.blocks == s.inodes@[ino].blocks
        },
{
}

} // verus!
