//! The calls on paths, as functions of the file system as a mathematical value.

use vstd::prelude::*;

use crate::compress::{compression_code, compression_of, Compression};
use crate::dir::DirItem;
use crate::error::{
    EACCES, EBUSY, EEXIST, EFBIG, EINVAL, EIO, EISDIR, ENAMETOOLONG, ENOENT, ENOTDIR, EROFS,
};
use crate::format::{BLOCK_SIZE, ROOT_INO};
use crate::file::OpenOptions;
use crate::model::{FsView, Node};
use crate::ops::{
    chmod_op, chown_op, create_child_op, create_room, cut_room, dec_open_op, dir_insert_room,
    dir_items, dir_remove_room, getxattr_op, inc_open_op, lemma_spared_on, link_op, listxattr_op,
    lookup_name, next_ino, removexattr_op, rename_op, rename_room, room, same_outside,
    set_compression_op, set_times_op, setxattr_op, spared, type_at, under_name, unlink_op,
    walk_path, whole, Found, Outcome,
};
use crate::path::{dot, dot_dot, joined, parent_of, root_path};
use crate::types::{
    creds_of, masked_mode, may_access, Access, CredsView, FileTimes, Stat, MAX_FILE_SIZE, R_OK,
    S_IFDIR, S_IFLNK, S_IFREG, W_OK, X_OK,
};

verus! {

/// Where paths start, and who asks.
pub ghost struct Place {
    pub root: u64,
    pub cwd: u64,
    pub creds: CredsView,
}

/// The superuser at the root directory.
pub open spec fn top() -> Place {
    Place { root: ROOT_INO, cwd: ROOT_INO, creds: creds_of(0, 0) }
}

/// Where a path leads.
pub open spec fn find(v: FsView, at: Place, path: Seq<u8>, follow: bool) -> Outcome<Found> {
    walk_path(v, at.root, at.cwd, path, follow, at.creds, 0)
}

/// The file that a path leads to.
pub open spec fn find_file(v: FsView, at: Place, path: Seq<u8>, follow: bool) -> Outcome<u64> {
    match find(v, at, path, follow) {
        Err(e) => Err(e),
        Ok(f) => match f.ino {
            Some(ino) => Ok(ino),
            None => Err(ENOENT),
        },
    }
}

/// The files that a call on a path has to do with: the directory that has the last name, what
/// stands under that name, and the file that the path leads to or the one that is created there.
pub open spec fn reached(v: FsView, at: Place, path: Seq<u8>, follow: bool) -> Set<u64> {
    match find(v, at, path, follow) {
        Err(_) => Set::empty(),
        Ok(f) => under_name(v, f.parent, f.name).insert(
            match f.ino {
                Some(ino) => ino,
                None => next_ino(v),
            },
        ),
    }
}

/// Setting the length of file `ino`.
pub open spec fn truncate_op(v: FsView, ino: u64, n: u64) -> (FsView, Outcome<()>) {
    if !v.writable {
        (v, Err(EROFS))
    } else if n > MAX_FILE_SIZE {
        (v, Err(EFBIG))
    } else if !v.nodes.contains_key(ino) {
        (v, Err(EIO))
    } else {
        (crate::edit::truncated(v, ino, n as nat), Ok(()))
    }
}

/// Writing `buf` into file `ino` at `off`.
pub open spec fn write_op(v: FsView, ino: u64, off: u64, buf: Seq<u8>) -> (FsView, Outcome<()>) {
    if !v.writable {
        (v, Err(EROFS))
    } else if buf.len() == 0 {
        (v, Ok(()))
    } else if off + buf.len() > MAX_FILE_SIZE {
        (v, Err(EFBIG))
    } else if !v.nodes.contains_key(ino) {
        (v, Err(EIO))
    } else {
        (crate::edit::written(v, ino, off as int, buf), Ok(()))
    }
}

/// The `stat` of a file that takes up `blocks` sectors.
pub open spec fn node_stat(ino: u64, n: Node, blocks: u64) -> Stat {
    Stat {
        ino,
        mode: n.meta.mode,
        nlink: n.meta.nlink,
        uid: n.meta.uid,
        gid: n.meta.gid,
        size: n.data.len() as u64,
        blocks,
        blksize: BLOCK_SIZE,
        rdev: n.meta.rdev,
        atime: n.meta.atime,
        mtime: n.meta.mtime,
        ctime: n.meta.ctime,
        btime: n.meta.btime,
    }
}

/// The file that a path leads to, where there is an inode for it.
pub open spec fn stat_at(v: FsView, at: Place, path: Seq<u8>, follow: bool) -> Outcome<u64> {
    match find_file(v, at, path, follow) {
        Err(e) => Err(e),
        Ok(ino) => if v.nodes.contains_key(ino) {
            Ok(ino)
        } else {
            Err(EIO)
        },
    }
}

/// The algorithm for new writes to a file.
pub open spec fn compression_at(v: FsView, at: Place, path: Seq<u8>) -> Outcome<Compression> {
    match stat_at(v, at, path, true) {
        Err(e) => Err(e),
        Ok(ino) => Ok(compression_of(v.nodes[ino].meta.compression)),
    }
}

/// Choosing the algorithm for new writes to a file.
pub open spec fn set_compression_at(v: FsView, at: Place, path: Seq<u8>, c: Compression) -> (
    FsView,
    Outcome<()>,
) {
    match find_file(v, at, path, true) {
        Err(e) => (v, Err(e)),
        Ok(ino) => set_compression_op(v, ino, compression_code(c)),
    }
}

/// `chmod` on a path.
pub open spec fn chmod_at(v: FsView, at: Place, path: Seq<u8>, mode: u16) -> (FsView, Outcome<()>) {
    match find_file(v, at, path, true) {
        Err(e) => (v, Err(e)),
        Ok(ino) => chmod_op(v, ino, mode, at.creds),
    }
}

/// `chown` on a path.
pub open spec fn chown_at(
    v: FsView,
    at: Place,
    path: Seq<u8>,
    follow: bool,
    uid: u32,
    gid: u32,
) -> (FsView, Outcome<()>) {
    match find_file(v, at, path, follow) {
        Err(e) => (v, Err(e)),
        Ok(ino) => chown_op(v, ino, Some(uid), Some(gid), at.creds),
    }
}

/// Setting the times of a file.
pub open spec fn set_times_at(v: FsView, at: Place, path: Seq<u8>, times: FileTimes) -> (
    FsView,
    Outcome<()>,
) {
    match find_file(v, at, path, true) {
        Err(e) => (v, Err(e)),
        Ok(ino) => set_times_op(v, ino, times),
    }
}

/// Setting the length of a file that is no directory.
pub open spec fn truncate_at(v: FsView, at: Place, path: Seq<u8>, n: u64) -> (FsView, Outcome<()>) {
    match stat_at(v, at, path, true) {
        Err(e) => (v, Err(e)),
        Ok(ino) => if type_at(v, ino) is Directory {
            (v, Err(EISDIR))
        } else {
            truncate_op(v, ino, n)
        },
    }
}

/// Reading an extended attribute of a file.
pub open spec fn getxattr_at(v: FsView, at: Place, path: Seq<u8>, name: Seq<u8>) -> Outcome<Seq<u8>> {
    match find_file(v, at, path, true) {
        Err(e) => Err(e),
        Ok(ino) => getxattr_op(v, ino, name),
    }
}

/// The names of the extended attributes of a file.
pub open spec fn listxattr_at(v: FsView, at: Place, path: Seq<u8>) -> Outcome<Seq<Seq<u8>>> {
    match find_file(v, at, path, true) {
        Err(e) => Err(e),
        Ok(ino) => listxattr_op(v, ino),
    }
}

/// Setting an extended attribute of a file.
pub open spec fn setxattr_at(
    v: FsView,
    at: Place,
    path: Seq<u8>,
    name: Seq<u8>,
    value: Seq<u8>,
    flags: u32,
) -> (FsView, Outcome<()>) {
    match find_file(v, at, path, true) {
        Err(e) => (v, Err(e)),
        Ok(ino) => setxattr_op(v, ino, name, value, flags),
    }
}

/// Removing an extended attribute of a file.
pub open spec fn removexattr_at(v: FsView, at: Place, path: Seq<u8>, name: Seq<u8>) -> (
    FsView,
    Outcome<()>,
) {
    match find_file(v, at, path, true) {
        Err(e) => (v, Err(e)),
        Ok(ino) => removexattr_op(v, ino, name),
    }
}

/// Creating a file of any type where a path leads to nothing yet.
pub open spec fn create_at(
    v: FsView,
    at: Place,
    path: Seq<u8>,
    follow: bool,
    mode: u16,
    rdev: u64,
) -> (FsView, Outcome<u64>) {
    match find(v, at, path, follow) {
        Err(e) => (v, Err(e)),
        Ok(f) => if f.ino is Some {
            (v, Err(EEXIST))
        } else {
            create_child_op(
                v,
                f.parent,
                f.name,
                mode,
                at.creds.fsuid,
                at.creds.fsgid,
                rdev,
                at.creds,
            )
        },
    }
}

/// An outcome without its value.
pub open spec fn no_value<T>(r: (FsView, Outcome<T>)) -> (FsView, Outcome<()>) {
    match r.1 {
        Ok(_) => (r.0, Ok(())),
        Err(e) => (r.0, Err(e)),
    }
}

/// Creating a directory.
pub open spec fn mkdir_at(v: FsView, at: Place, path: Seq<u8>, mode: u16, umask: u16) -> (
    FsView,
    Outcome<()>,
) {
    no_value(create_at(v, at, path, true, S_IFDIR | masked_mode(mode, umask), 0))
}

/// Creating a symbolic link to `target`.
pub open spec fn symlink_at(v: FsView, at: Place, target: Seq<u8>, path: Seq<u8>) -> (
    FsView,
    Outcome<()>,
) {
    let (w, r) = create_at(v, at, path, false, S_IFLNK | 0o777, 0);
    match r {
        Err(e) => (w, Err(e)),
        Ok(ino) => write_op(w, ino, 0, target),
    }
}

/// Removing a name. A path that ends in no name, such as that of the root directory, has none to
/// remove.
pub open spec fn unlink_at(v: FsView, at: Place, path: Seq<u8>, rmdir: bool) -> (
    FsView,
    Outcome<()>,
) {
    match find(v, at, path, false) {
        Err(e) => (v, Err(e)),
        Ok(f) => if f.ino is None {
            (v, Err(ENOENT))
        } else {
            unlink_op(v, f.parent, f.name, rmdir, at.creds)
        },
    }
}

/// Removing a directory that is not the root directory.
pub open spec fn rmdir_at(v: FsView, at: Place, path: Seq<u8>) -> (FsView, Outcome<()>) {
    match find_file(v, at, path, false) {
        Err(e) => (v, Err(e)),
        Ok(ino) => if ino == ROOT_INO {
            (v, Err(EBUSY))
        } else {
            unlink_at(v, at, path, true)
        },
    }
}

/// Renaming.
pub open spec fn rename_at(v: FsView, at: Place, from: Seq<u8>, to: Seq<u8>) -> (
    FsView,
    Outcome<()>,
) {
    match find(v, at, from, false) {
        Err(e) => (v, Err(e)),
        Ok(src) => if src.ino is None {
            (v, Err(ENOENT))
        } else {
            match find(v, at, to, false) {
                Err(e) => (v, Err(e)),
                Ok(dst) => rename_op(v, src.parent, src.name, dst.parent, dst.name, at.creds),
            }
        },
    }
}

/// Giving a file one more name.
pub open spec fn link_at(v: FsView, at: Place, old_path: Seq<u8>, new_path: Seq<u8>) -> (
    FsView,
    Outcome<()>,
) {
    match find_file(v, at, old_path, true) {
        Err(e) => (v, Err(e)),
        Ok(ino) => match find(v, at, new_path, false) {
            Err(e) => (v, Err(e)),
            Ok(dst) => if dst.ino is Some {
                (v, Err(EEXIST))
            } else {
                link_op(v, ino, dst.parent, dst.name, at.creds)
            },
        },
    }
}

/// The target of a symbolic link.
pub open spec fn read_link_at(v: FsView, at: Place, path: Seq<u8>) -> Outcome<Seq<u8>> {
    match stat_at(v, at, path, false) {
        Err(e) => Err(e),
        Ok(ino) => if type_at(v, ino) is Symlink {
            whole(v, ino)
        } else {
            Err(EINVAL)
        },
    }
}

/// The entries of a directory.
pub open spec fn read_dir_at(v: FsView, at: Place, path: Seq<u8>) -> Outcome<Seq<DirItem>> {
    match find_file(v, at, path, true) {
        Err(e) => Err(e),
        Ok(ino) => dir_items(v, ino),
    }
}

/// Opening an existing file, or creating it where the options say so. `strict` says whether only
/// regular files may be cut to length 0.
pub open spec fn open_at(
    v: FsView,
    at: Place,
    path: Seq<u8>,
    o: OpenOptions,
    umask: u16,
    strict: bool,
) -> (FsView, Outcome<u64>) {
    match find(v, at, path, !o.nofollow) {
        Err(e) => (v, Err(e)),
        Ok(f) => match f.ino {
            Some(ino) => if o.create_new {
                (v, Err(EEXIST))
            } else if !v.nodes.contains_key(ino) {
                (v, Err(EIO))
            } else if o.directory && !(type_at(v, ino) is Directory) {
                (v, Err(ENOTDIR))
            } else if type_at(v, ino) is Directory && o.write && !o.directory {
                (v, Err(EISDIR))
            } else if o.truncate && !(type_at(v, ino) is File) && strict {
                (v, Err(EINVAL))
            } else if o.truncate && type_at(v, ino) is File {
                let (w, r) = truncate_op(v, ino, 0);
                match r {
                    Err(e) => (w, Err(e)),
                    Ok(_) => (w, Ok(ino)),
                }
            } else {
                (v, Ok(ino))
            },
            None => if !o.create && !o.create_new {
                (v, Err(ENOENT))
            } else {
                create_child_op(
                    v,
                    f.parent,
                    f.name,
                    S_IFREG | masked_mode(o.mode, umask),
                    at.creds.fsuid,
                    at.creds.fsgid,
                    0,
                    at.creds,
                )
            },
        },
    }
}

/// Opening a file, with a handle on it.
pub open spec fn open_handle(
    v: FsView,
    at: Place,
    path: Seq<u8>,
    o: OpenOptions,
    umask: u16,
    strict: bool,
) -> (FsView, Outcome<u64>) {
    let (w, r) = open_at(v, at, path, o, umask, strict);
    match r {
        Err(e) => (w, Err(e)),
        Ok(ino) => {
            let (x, q) = inc_open_op(w, ino);
            match q {
                Err(e) => (x, Err(e)),
                Ok(_) => (x, Ok(ino)),
            }
        },
    }
}

/// Reading a file as a whole, through a handle.
pub open spec fn read_at_path(v: FsView, at: Place, path: Seq<u8>) -> (FsView, Outcome<Seq<u8>>) {
    let (w, r) = open_handle(v, at, path, reading(), 0o022, true);
    match r {
        Err(e) => (w, Err(e)),
        Ok(ino) => (dec_open_op(w, ino).0, whole(w, ino)),
    }
}

/// Making `data` the contents of a file, through a handle.
pub open spec fn write_at_path(v: FsView, at: Place, path: Seq<u8>, data: Seq<u8>) -> (
    FsView,
    Outcome<()>,
) {
    let (w, r) = open_handle(v, at, path, rewriting(), 0o022, true);
    match r {
        Err(e) => (w, Err(e)),
        Ok(ino) => if data.len() == 0 {
            (dec_open_op(w, ino).0, Ok(()))
        } else {
            let (x, q) = write_op(w, ino, 0, data);
            (dec_open_op(x, ino).0, q)
        },
    }
}

/// Options to read.
pub open spec fn reading() -> OpenOptions {
    OpenOptions { read: true, ..plain_options() }
}

/// Options to write a file anew.
pub open spec fn rewriting() -> OpenOptions {
    OpenOptions { write: true, create: true, truncate: true, ..plain_options() }
}

/// Options that ask for nothing.
pub open spec fn plain_options() -> OpenOptions {
    OpenOptions {
        read: false,
        write: false,
        append: false,
        truncate: false,
        create: false,
        create_new: false,
        mode: 0o666,
        nofollow: false,
        directory: false,
    }
}

/// Copying the contents and the mode of a file.
pub open spec fn copy_at(v: FsView, at: Place, from: Seq<u8>, to: Seq<u8>) -> (
    FsView,
    Outcome<u64>,
) {
    let (w, r) = read_at_path(v, at, from);
    match r {
        Err(e) => (w, Err(e)),
        Ok(data) => match stat_at(w, at, from, true) {
            Err(e) => (w, Err(e)),
            Ok(ino) => {
                let mode = w.nodes[ino].meta.mode;
                let (x, q) = write_at_path(w, at, to, data);
                match q {
                    Err(e) => (x, Err(e)),
                    Ok(_) => {
                        let (y, p) = chmod_at(x, at, to, mode);
                        match p {
                            Err(e) => (y, Err(e)),
                            Ok(_) => (y, Ok(data.len() as u64)),
                        }
                    },
                }
            },
        },
    }
}

/// The directory that a path leads through last, where it has to be made too.
pub open spec fn made_first(path: Seq<u8>) -> Option<Seq<u8>> {
    match parent_of(path) {
        Some(p) => if p.len() > 0 && p != root_path() && p.len() < path.len() {
            Some(p)
        } else {
            None
        },
        None => None,
    }
}

/// Creates a directory; one that is there already is no failure.
pub open spec fn mkdir_there(v: FsView, at: Place, path: Seq<u8>) -> (FsView, Outcome<()>) {
    let (w, r) = mkdir_at(v, at, path, 0o777, 0o022);
    if r == Err::<(), i32>(EEXIST) {
        match stat_at(w, at, path, true) {
            Err(e) => (w, Err(e)),
            Ok(ino) => if type_at(w, ino) is Directory {
                (w, Ok(()))
            } else {
                (w, Err(EEXIST))
            },
        }
    } else {
        (w, r)
    }
}

/// Creating a directory and those that lead to it; what becomes of the latter is not looked at.
pub open spec fn mkdir_all(v: FsView, at: Place, path: Seq<u8>) -> (FsView, Outcome<()>)
    decreases path.len(),
{
    if path.len() == 0 || path == root_path() {
        (v, Ok(()))
    } else {
        let w = match made_first(path) {
            Some(p) => mkdir_all(v, at, p).0,
            None => v,
        };
        mkdir_there(w, at, path)
    }
}

/// The entries of a directory but `.` and `..`.
pub open spec fn real_items(es: Seq<DirItem>) -> Seq<DirItem>
    decreases es.len(),
{
    if es.len() == 0 {
        Seq::empty()
    } else {
        let front = real_items(es.drop_last());
        if es.last().name == dot() || es.last().name == dot_dot() {
            front
        } else {
            front.push(es.last())
        }
    }
}

/// Removing a file, or a directory with all that is in it. Nothing is done where there is no such
/// file.
pub open spec fn remove_all(v: FsView, at: Place, path: Seq<u8>) -> (FsView, Outcome<()>)
    decreases usize::MAX - path.len(), 1int, 0int,
{
    match stat_at(v, at, path, false) {
        Err(e) => if e == ENOENT {
            (v, Ok(()))
        } else {
            (v, Err(e))
        },
        Ok(ino) => if type_at(v, ino) is Directory {
            match read_dir_at(v, at, path) {
                Err(e) => (v, Err(e)),
                Ok(es) => {
                    let (w, r) = remove_items(v, at, path, real_items(es), 0);
                    match r {
                        Err(e) => (w, Err(e)),
                        Ok(_) => rmdir_at(w, at, path),
                    }
                },
            }
        } else {
            unlink_at(v, at, path, false)
        },
    }
}

/// Removing the entries of a directory from number `k` on.
pub open spec fn remove_items(
    v: FsView,
    at: Place,
    path: Seq<u8>,
    es: Seq<DirItem>,
    k: nat,
) -> (FsView, Outcome<()>)
    decreases usize::MAX - path.len(), 0int, es.len() - k,
{
    if k >= es.len() {
        (v, Ok(()))
    } else {
        let child = joined(path, es[k as int].name);
        if child.len() <= path.len() {
            (v, Err(EIO))
        } else if child.len() > usize::MAX {
            (v, Err(ENAMETOOLONG))
        } else {
            let (w, r) = if es[k as int].file_type is Directory {
                remove_all(v, at, child)
            } else {
                unlink_at(v, at, child, false)
            };
            match r {
                Err(e) => (w, Err(e)),
                Ok(_) => remove_items(w, at, path, es, k + 1),
            }
        }
    }
}

/// Blocks that creating a file takes at most.
pub open spec fn create_at_room(v: FsView, at: Place, path: Seq<u8>, follow: bool, mode: u16) -> int {
    match find(v, at, path, follow) {
        Err(_) => 0,
        Ok(f) => create_room(v, f.parent, f.name, mode),
    }
}

/// Blocks that creating a directory takes at most.
pub open spec fn mkdir_room(v: FsView, at: Place, path: Seq<u8>) -> int {
    create_at_room(v, at, path, true, S_IFDIR | masked_mode(0o777, 0o022))
}

/// Blocks that linking a file takes at most.
pub open spec fn link_at_room(v: FsView, at: Place, from: Seq<u8>, to: Seq<u8>) -> int {
    match find_file(v, at, from, true) {
        Err(_) => 0,
        Ok(ino) => match find(v, at, to, false) {
            Err(_) => 0,
            Ok(f) => dir_insert_room(v, f.parent, f.name, ino, type_at(v, ino)),
        },
    }
}

/// Blocks that removing a name takes at most.
pub open spec fn unlink_at_room(v: FsView, at: Place, path: Seq<u8>) -> int {
    match find(v, at, path, false) {
        Err(_) => 0,
        Ok(f) => dir_remove_room(v, f.parent, f.name),
    }
}

/// Blocks that a rename takes at most.
pub open spec fn rename_at_room(v: FsView, at: Place, from: Seq<u8>, to: Seq<u8>) -> int {
    match find(v, at, from, false) {
        Err(_) => 0,
        Ok(src) => match find(v, at, to, false) {
            Err(_) => 0,
            Ok(dst) => rename_room(v, src.parent, src.name, dst.parent, dst.name, at.creds),
        },
    }
}

/// Inodes that opening a file with options `o` creates at most.
pub open spec fn fresh(o: OpenOptions) -> int {
    if o.create || o.create_new {
        1
    } else {
        0
    }
}

/// Blocks that opening a file takes at most.
pub open spec fn open_room(v: FsView, at: Place, path: Seq<u8>, o: OpenOptions, umask: u16) -> int {
    match find(v, at, path, !o.nofollow) {
        Err(_) => 0,
        Ok(f) => if f.ino is Some {
            if o.truncate {
                cut_room()
            } else {
                0
            }
        } else if o.create || o.create_new {
            create_room(v, f.parent, f.name, S_IFREG | masked_mode(o.mode, umask))
        } else {
            0
        },
    }
}

/// Blocks that it takes at most to make `n` bytes the contents of a file.
pub open spec fn write_at_room(v: FsView, at: Place, path: Seq<u8>, n: int) -> int {
    open_room(v, at, path, rewriting(), 0o022) + room(n)
}

/// Blocks that a copy takes at most.
pub open spec fn copy_at_room(v: FsView, at: Place, from: Seq<u8>, to: Seq<u8>) -> int {
    let (w, r) = read_at_path(v, at, from);
    match r {
        Err(_) => 0,
        Ok(data) => write_at_room(w, at, to, data.len() as int),
    }
}

/// Blocks that it takes at most to remove a file or a directory with all that is in it.
#[verifier::opaque]
pub open spec fn remove_all_room(v: FsView, at: Place, path: Seq<u8>) -> int
    decreases usize::MAX - path.len(), 1int, 0int,
{
    match stat_at(v, at, path, false) {
        Err(_) => 0,
        Ok(ino) => if type_at(v, ino) is Directory {
            match read_dir_at(v, at, path) {
                Err(_) => 0,
                Ok(es) => {
                    let w = remove_items(v, at, path, real_items(es), 0).0;
                    remove_items_room(v, at, path, real_items(es), 0) + unlink_at_room(w, at, path)
                },
            }
        } else {
            unlink_at_room(v, at, path)
        },
    }
}

/// Blocks that it takes at most to remove the entries of a directory from number `k` on.
#[verifier::opaque]
pub open spec fn remove_items_room(
    v: FsView,
    at: Place,
    path: Seq<u8>,
    es: Seq<DirItem>,
    k: nat,
) -> int
    decreases usize::MAX - path.len(), 0int, es.len() - k,
{
    let child = joined(path, es[k as int].name);
    if k >= es.len() || child.len() <= path.len() || child.len() > usize::MAX {
        0
    } else if es[k as int].file_type is Directory {
        remove_all_room(v, at, child) + remove_items_room(
            remove_all(v, at, child).0,
            at,
            path,
            es,
            k + 1,
        )
    } else {
        unlink_at_room(v, at, child) + remove_items_room(
            unlink_at(v, at, child, false).0,
            at,
            path,
            es,
            k + 1,
        )
    }
}

/// Removing one entry of a directory.
pub open spec fn remove_entry(v: FsView, at: Place, child: Seq<u8>, dir: bool) -> (
    FsView,
    Outcome<()>,
) {
    if dir {
        remove_all(v, at, child)
    } else {
        unlink_at(v, at, child, false)
    }
}

/// Blocks that removing one entry of a directory takes at most.
pub open spec fn remove_entry_room(v: FsView, at: Place, child: Seq<u8>, dir: bool) -> int {
    if dir {
        remove_all_room(v, at, child)
    } else {
        unlink_at_room(v, at, child)
    }
}

/// The entries from number `k` on: the first of them, and the others.
pub proof fn lemma_items_step(v: FsView, at: Place, path: Seq<u8>, es: Seq<DirItem>, k: nat)
    requires
        k < es.len(),
        path.len() < joined(path, es[k as int].name).len() <= usize::MAX,
    ensures
        ({
            let child = joined(path, es[k as int].name);
            let dir = es[k as int].file_type is Directory;
            let (w, r) = remove_entry(v, at, child, dir);
            let one = remove_entry_room(v, at, child, dir);
            let rest = remove_items_room(w, at, path, es, k + 1);
            &&& one >= 0
            &&& rest >= 0
            &&& remove_items_room(v, at, path, es, k) == one + rest
            &&& remove_items(v, at, path, es, k) == (match r {
                Err(e) => (w, Err(e)),
                Ok(_) => remove_items(w, at, path, es, k + 1),
            })
        }),
{
    reveal_with_fuel(remove_all_room, 2);
    reveal_with_fuel(remove_items_room, 2);
    let child = joined(path, es[k as int].name);
    let dir = es[k as int].file_type is Directory;
    lemma_remove_room(v, at, child);
    lemma_items_room(remove_entry(v, at, child, dir).0, at, path, es, k + 1);
}

/// What removing a directory takes: its entries, and its name.
pub proof fn lemma_dir_room(v: FsView, at: Place, path: Seq<u8>)
    ensures
        match stat_at(v, at, path, false) {
            Err(_) => true,
            Ok(ino) => if type_at(v, ino) is Directory {
                read_dir_at(v, at, path) matches Ok(es) ==> {
                    let w = remove_items(v, at, path, real_items(es), 0).0;
                    remove_all_room(v, at, path) == remove_items_room(
                        v,
                        at,
                        path,
                        real_items(es),
                        0,
                    ) + unlink_at_room(w, at, path)
                }
            } else {
                remove_all_room(v, at, path) == unlink_at_room(v, at, path)
            },
        },
{
    reveal_with_fuel(remove_all_room, 2);
    reveal_with_fuel(remove_items_room, 2);
}

/// Rooms are not negative.
pub proof fn lemma_remove_room(v: FsView, at: Place, path: Seq<u8>)
    ensures
        remove_all_room(v, at, path) >= 0,
    decreases usize::MAX - path.len(), 1int, 0int,
{
    reveal_with_fuel(remove_all_room, 2);
    reveal_with_fuel(remove_items_room, 2);
    if let Ok(es) = read_dir_at(v, at, path) {
        lemma_items_room(v, at, path, real_items(es), 0);
    }
}

pub proof fn lemma_items_room(v: FsView, at: Place, path: Seq<u8>, es: Seq<DirItem>, k: nat)
    ensures
        remove_items_room(v, at, path, es, k) >= 0,
    decreases usize::MAX - path.len(), 0int, es.len() - k,
{
    reveal_with_fuel(remove_all_room, 2);
    reveal_with_fuel(remove_items_room, 2);
    let child = joined(path, es[k as int].name);
    if k >= es.len() || child.len() <= path.len() || child.len() > usize::MAX {
    } else if es[k as int].file_type is Directory {
        lemma_remove_room(v, at, child);
        lemma_items_room(remove_all(v, at, child).0, at, path, es, k + 1);
    } else {
        lemma_items_room(unlink_at(v, at, child, false).0, at, path, es, k + 1);
    }
}

/// The first entry for inode `ino` that is neither `.` nor `..`.
pub open spec fn name_of(es: Seq<DirItem>, ino: u64) -> Option<Seq<u8>>
    decreases es.len(),
{
    if es.len() == 0 {
        None
    } else {
        match name_of(es.drop_last(), ino) {
            Some(n) => Some(n),
            None => {
                let e = es.last();
                if e.ino == ino && e.name != dot() && e.name != dot_dot() {
                    Some(e.name)
                } else {
                    None
                }
            },
        }
    }
}

/// The directory that holds directory `ino`.
pub open spec fn parent_dir(v: FsView, ino: u64) -> Outcome<u64> {
    match lookup_name(v, ino, dot_dot()) {
        Err(e) => Err(e),
        Ok(Some((p, _))) => Ok(p),
        Ok(None) => Ok(ROOT_INO),
    }
}

/// The path of directory `ino`, from `n` levels above it on.
pub open spec fn path_up(v: FsView, ino: u64, n: nat) -> Outcome<Seq<u8>>
    decreases n,
{
    if n == 0 || ino == ROOT_INO {
        Ok(root_path())
    } else {
        match parent_dir(v, ino) {
            Err(e) => Err(e),
            Ok(p) => match dir_items(v, p) {
                Err(e) => Err(e),
                Ok(es) => match name_of(es, ino) {
                    None => Err(ENOENT),
                    Some(name) => match path_up(v, p, (n - 1) as nat) {
                        Err(e) => Err(e),
                        Ok(base) => Ok(joined(base, name)),
                    },
                },
            },
        }
    }
}

/// The path without links, `.` and `..`: that of a directory from its parents, that of any other
/// file from the directory that has its name.
pub open spec fn canonical(v: FsView, at: Place, path: Seq<u8>) -> Outcome<Seq<u8>> {
    match find(v, at, path, true) {
        Err(e) => Err(e),
        Ok(f) => match f.ino {
            None => Err(ENOENT),
            Some(ino) => if v.nodes.contains_key(ino) && !(type_at(v, ino) is Directory) {
                match path_up(v, f.parent, 4096) {
                    Err(e) => Err(e),
                    Ok(base) => Ok(joined(base, f.name)),
                }
            } else {
                path_up(v, ino, 4096)
            },
        },
    }
}

/// Whether a file may be accessed in all ways that `mode` asks for.
pub open spec fn access_at(v: FsView, at: Place, path: Seq<u8>, mode: u32) -> Outcome<()> {
    match stat_at(v, at, path, true) {
        Err(e) => Err(e),
        Ok(ino) => {
            let m = v.nodes[ino].meta;
            if (mode & R_OK != 0 && !may_access(m.mode, m.uid, m.gid, at.creds, Access::Read))
                || (mode & W_OK != 0 && !may_access(m.mode, m.uid, m.gid, at.creds, Access::Write))
                || (mode & X_OK != 0 && !may_access(m.mode, m.uid, m.gid, at.creds, Access::Exec)) {
                Err(EACCES)
            } else {
                Ok(())
            }
        },
    }
}

/// Creating a file leaves the clock alone.
pub proof fn lemma_create_clock(
    v: FsView,
    at: Place,
    path: Seq<u8>,
    follow: bool,
    mode: u16,
    rdev: u64,
)
    ensures
        create_at(v, at, path, follow, mode, rdev).0.clock == v.clock,
{
}

/// Removing a name leaves the clock alone.
pub proof fn lemma_unlink_clock(v: FsView, at: Place, path: Seq<u8>, rmdir: bool)
    ensures
        unlink_at(v, at, path, rmdir).0.clock == v.clock,
        rmdir_at(v, at, path).0.clock == v.clock,
{
}

/// Giving a file one more name leaves the clock alone.
pub proof fn lemma_link_clock(v: FsView, at: Place, old_path: Seq<u8>, new_path: Seq<u8>)
    ensures
        link_at(v, at, old_path, new_path).0.clock == v.clock,
{
}

/// Renaming leaves the clock alone.
pub proof fn lemma_rename_clock(v: FsView, at: Place, from: Seq<u8>, to: Seq<u8>)
    ensures
        rename_at(v, at, from, to).0.clock == v.clock,
{
}

/// Opening a file leaves the clock alone.
pub proof fn lemma_open_clock(
    v: FsView,
    at: Place,
    path: Seq<u8>,
    o: OpenOptions,
    umask: u16,
    strict: bool,
)
    ensures
        open_at(v, at, path, o, umask, strict).0.clock == v.clock,
        open_handle(v, at, path, o, umask, strict).0.clock == v.clock,
{
}

/// Closing a handle leaves the clock alone.
pub proof fn lemma_close_clock(v: FsView, ino: u64)
    ensures
        dec_open_op(v, ino).0.clock == v.clock,
{
}

/// Reading and writing a file as a whole leaves the clock alone.
pub proof fn lemma_whole_clock(v: FsView, at: Place, path: Seq<u8>, data: Seq<u8>)
    ensures
        read_at_path(v, at, path).0.clock == v.clock,
        write_at_path(v, at, path, data).0.clock == v.clock,
{
    let (w, r) = open_handle(v, at, path, reading(), 0o022, true);
    lemma_open_clock(v, at, path, reading(), 0o022, true);
    if let Ok(ino) = r {
        lemma_close_clock(w, ino);
    }
    let (w, r) = open_handle(v, at, path, rewriting(), 0o022, true);
    lemma_open_clock(v, at, path, rewriting(), 0o022, true);
    if let Ok(ino) = r {
        lemma_close_clock(w, ino);
        lemma_close_clock(write_op(w, ino, 0, data).0, ino);
    }
}

/// Creating directories leaves the clock alone.
pub proof fn lemma_mkdir_all_clock(v: FsView, at: Place, path: Seq<u8>)
    ensures
        mkdir_all(v, at, path).0.clock == v.clock,
    decreases path.len(),
{
    if path.len() > 0 && path != root_path() {
        let w = match made_first(path) {
            Some(p) => mkdir_all(v, at, p).0,
            None => v,
        };
        if let Some(p) = made_first(path) {
            lemma_mkdir_all_clock(v, at, p);
        }
        lemma_create_clock(w, at, path, true, S_IFDIR | masked_mode(0o777, 0o022), 0);
    }
}

/// Removing directories leaves the clock alone.
pub proof fn lemma_remove_all_clock(v: FsView, at: Place, path: Seq<u8>)
    ensures
        remove_all(v, at, path).0.clock == v.clock,
    decreases usize::MAX - path.len(), 1int, 0int,
{
    lemma_unlink_clock(v, at, path, false);
    if let Ok(es) = read_dir_at(v, at, path) {
        lemma_remove_items_clock(v, at, path, real_items(es), 0);
        let (w, r) = remove_items(v, at, path, real_items(es), 0);
        lemma_unlink_clock(w, at, path, true);
    }
}

proof fn lemma_remove_items_clock(v: FsView, at: Place, path: Seq<u8>, es: Seq<DirItem>, k: nat)
    ensures
        remove_items(v, at, path, es, k).0.clock == v.clock,
    decreases usize::MAX - path.len(), 0int, es.len() - k,
{
    if k < es.len() {
        let child = joined(path, es[k as int].name);
        if child.len() > path.len() && child.len() <= usize::MAX {
            let (w, r) = if es[k as int].file_type is Directory {
                remove_all(v, at, child)
            } else {
                unlink_at(v, at, child, false)
            };
            lemma_unlink_clock(v, at, child, false);
            if es[k as int].file_type is Directory {
                lemma_remove_all_clock(v, at, child);
            }
            lemma_remove_items_clock(w, at, path, es, k + 1);
        }
    }
}

/// Creating a file changes what its path reaches.
pub proof fn lemma_create_spares(
    v: FsView,
    at: Place,
    path: Seq<u8>,
    follow: bool,
    mode: u16,
    rdev: u64,
)
    ensures
        ({
            let (w, r) = create_at(v, at, path, follow, mode, rdev);
            let t = reached(v, at, path, follow);
            &&& spared(v, w, t)
            &&& r matches Ok(ino) ==> t.contains(ino)
        }),
{
    reveal(same_outside);
}

/// Opening a file changes what its path reaches.
pub proof fn lemma_open_spares(
    v: FsView,
    at: Place,
    path: Seq<u8>,
    o: OpenOptions,
    umask: u16,
    strict: bool,
)
    ensures
        ({
            let (w0, r0) = open_at(v, at, path, o, umask, strict);
            let (w, r) = open_handle(v, at, path, o, umask, strict);
            let t = reached(v, at, path, !o.nofollow);
            &&& spared(v, w0, t)
            &&& spared(v, w, t)
            &&& r matches Ok(ino) ==> t.contains(ino)
        }),
{
    reveal(same_outside);
}

/// One open handle less changes at most the file that it was on.
pub proof fn lemma_close_spares(v: FsView, ino: u64)
    ensures
        spared(v, dec_open_op(v, ino).0, set![ino]),
{
    reveal(same_outside);
}

/// Reading or writing a file as a whole changes what its path reaches.
pub proof fn lemma_whole_spares(v: FsView, at: Place, path: Seq<u8>, data: Seq<u8>)
    ensures
        spared(v, read_at_path(v, at, path).0, reached(v, at, path, true)),
        spared(v, write_at_path(v, at, path, data).0, reached(v, at, path, true)),
{
    let t = reached(v, at, path, true);
    lemma_open_spares(v, at, path, reading(), 0o022, true);
    let (w, r) = open_handle(v, at, path, reading(), 0o022, true);
    if let Ok(ino) = r {
        lemma_close_spares(w, ino);
        lemma_spared_on(v, w, dec_open_op(w, ino).0, set![ino], t);
    }
    lemma_open_spares(v, at, path, rewriting(), 0o022, true);
    let (w, r) = open_handle(v, at, path, rewriting(), 0o022, true);
    if let Ok(ino) = r {
        let x = if data.len() == 0 {
            w
        } else {
            write_op(w, ino, 0, data).0
        };
        assert(spared(w, x, set![ino])) by {
            reveal(same_outside);
        }
        lemma_spared_on(v, w, x, set![ino], t);
        lemma_close_spares(x, ino);
        lemma_spared_on(v, x, dec_open_op(x, ino).0, set![ino], t);
    }
}

} // verus!
