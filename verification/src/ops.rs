//! The operations on a file system, as functions of the file system as a mathematical value.

use vstd::prelude::*;

use crate::dir::{dir_bytes, parsed_dir, DirItem};
use crate::error::{
    Error, EACCES, EEXIST, EFBIG, EINVAL, EIO, EISDIR, ELOOP, EMLINK, ENFILE, ENODATA, ENOENT,
    ENOSPC, ENOTDIR, ENOTEMPTY, EOVERFLOW, EPERM, EROFS,
};
use crate::format::ROOT_INO;
use crate::model::{changed_at, modified_at, FsView, Meta, Node};
use crate::path::{
    absolute, dot, dot_dot, joined, name_error, path_parts, root_path, Part, SYMLOOP_MAX,
};
use crate::types::{
    may_access, some_mode, type_of_mode, Access, CredsView, FileTimes, FileType, MAX_FILE_SIZE,
    MODE_PERM, S_IFMT, S_ISVTX, XATTR_CREATE, XATTR_REPLACE,
};
use crate::xattr::XattrView;

verus! {

/// What an operation returns: a value, or an errno.
pub type Outcome<T> = std::result::Result<T, i32>;

/// A result is the one that is wanted.
pub open spec fn same_outcome<T>(want: Outcome<T>, got: std::result::Result<T, Error>) -> bool {
    match got {
        Ok(x) => want matches Ok(y) && x == y,
        Err(e) => want matches Err(n) && e.is(n),
    }
}

/// The file system with other metadata for file `ino`.
pub open spec fn with_meta(v: FsView, ino: u64, m: Meta) -> FsView {
    v.with(ino, Node { meta: m, ..v.nodes[ino] })
}

/// `chmod` on an inode.
pub open spec fn chmod_op(v: FsView, ino: u64, mode: u16, creds: CredsView) -> (FsView, Outcome<()>) {
    let m = v.nodes[ino].meta;
    if !v.writable {
        (v, Err(EROFS))
    } else if !v.nodes.contains_key(ino) {
        (v, Err(EIO))
    } else if v.check_perm && creds.fsuid != 0 && creds.fsuid != m.uid {
        (v, Err(EPERM))
    } else {
        (
            with_meta(
                v,
                ino,
                Meta {
                    mode: some_mode((m.mode & S_IFMT) | (mode & MODE_PERM)),
                    ..changed_at(m, v.clock)
                },
            ),
            Ok(()),
        )
    }
}

/// Whether `creds` may give a file of owner `uid` to another owner or group.
pub open spec fn may_chown(
    uid: u32,
    new_uid: Option<u32>,
    new_gid: Option<u32>,
    creds: CredsView,
) -> bool {
    creds.fsuid == 0 || ((new_uid matches Some(u) ==> u == uid) && (new_gid matches Some(g) ==> (
    creds.fsuid == uid && (g == creds.fsgid || creds.groups.contains(g)))))
}

/// `chown` on an inode.
pub open spec fn chown_op(
    v: FsView,
    ino: u64,
    uid: Option<u32>,
    gid: Option<u32>,
    creds: CredsView,
) -> (FsView, Outcome<()>) {
    let m = v.nodes[ino].meta;
    if !v.writable {
        (v, Err(EROFS))
    } else if !v.nodes.contains_key(ino) {
        (v, Err(EIO))
    } else if v.check_perm && !may_chown(m.uid, uid, gid, creds) {
        (v, Err(EPERM))
    } else {
        (
            with_meta(
                v,
                ino,
                Meta {
                    uid: uid.unwrap_or(m.uid),
                    gid: gid.unwrap_or(m.gid),
                    ..changed_at(m, v.clock)
                },
            ),
            Ok(()),
        )
    }
}

/// Setting the time stamps of an inode.
pub open spec fn set_times_op(v: FsView, ino: u64, times: FileTimes) -> (FsView, Outcome<()>) {
    let m = v.nodes[ino].meta;
    if !v.writable {
        (v, Err(EROFS))
    } else if !v.nodes.contains_key(ino) {
        (v, Err(EIO))
    } else {
        (
            with_meta(
                v,
                ino,
                Meta {
                    atime: times.accessed.unwrap_or(m.atime),
                    mtime: times.modified.unwrap_or(m.mtime),
                    btime: times.created.unwrap_or(m.btime),
                    ..changed_at(m, v.clock)
                },
            ),
            Ok(()),
        )
    }
}

/// Choosing the compression of an inode.
pub open spec fn set_compression_op(v: FsView, ino: u64, code: u8) -> (FsView, Outcome<()>) {
    let m = v.nodes[ino].meta;
    if !v.writable {
        (v, Err(EROFS))
    } else if !v.nodes.contains_key(ino) {
        (v, Err(EIO))
    } else {
        (with_meta(v, ino, Meta { compression: code, ..changed_at(m, v.clock) }), Ok(()))
    }
}

/// Number of inodes that a volume can ever hold.
pub const MAX_INODES: u64 = 0x10_0000_0000;

/// The inode table is not grown any more where fewer numbers than these are left.
pub const SPARE_INODES: u64 = 0x1_0000;

/// The number of the inode that is created next.
pub open spec fn next_ino(v: FsView) -> u64 {
    if v.free_inodes.len() > 0 {
        v.free_inodes.last()
    } else {
        v.next_inode
    }
}

/// Whether there are no inode numbers left.
pub open spec fn out_of_inodes(v: FsView) -> bool {
    v.free_inodes.len() == 0 && v.next_inode > MAX_INODES - SPARE_INODES
}

/// A new, empty file.
pub open spec fn new_node(v: FsView, mode: u16, uid: u32, gid: u32) -> Node {
    Node {
        meta: Meta {
            mode: some_mode(mode),
            nlink: 1,
            uid,
            gid,
            rdev: 0,
            compression: v.default_compression,
            atime: v.clock,
            mtime: v.clock,
            ctime: v.clock,
            btime: v.clock,
        },
        data: Seq::empty(),
        xattr: Seq::empty(),
    }
}

/// Creating an inode without a name.
pub open spec fn alloc_inode_op(v: FsView, mode: u16, uid: u32, gid: u32) -> (FsView, Outcome<
    u64,
>) {
    let ino = next_ino(v);
    let n = new_node(v, mode, uid, gid);
    if !v.writable {
        (v, Err(EROFS))
    } else if out_of_inodes(v) {
        (v, Err(ENOSPC))
    } else if v.free_inodes.len() > 0 {
        (FsView { free_inodes: v.free_inodes.drop_last(), ..v.with(ino, n) }, Ok(ino))
    } else {
        (FsView { next_inode: (v.next_inode + 1) as u64, ..v.with(ino, n) }, Ok(ino))
    }
}

/// Removing an inode; its number is used again, but for that of the root.
pub open spec fn drop_inode_op(v: FsView, ino: u64) -> (FsView, Outcome<()>) {
    if !v.writable {
        (v, Err(EROFS))
    } else if !v.nodes.contains_key(ino) {
        (v, Err(EIO))
    } else {
        (
            FsView {
                nodes: v.nodes.remove(ino),
                free_inodes: if ino >= 2 {
                    v.free_inodes.push(ino)
                } else {
                    v.free_inodes
                },
                ..v
            },
            Ok(()),
        )
    }
}

/// Number of open handles of inode `ino`.
pub open spec fn opens_of(v: FsView, ino: u64) -> u32 {
    if v.opens.contains_key(ino) {
        v.opens[ino]
    } else {
        0
    }
}

/// One more open handle.
pub open spec fn inc_open_op(v: FsView, ino: u64) -> (FsView, Outcome<()>) {
    if opens_of(v, ino) == u32::MAX {
        (v, Err(ENFILE))
    } else {
        (FsView { opens: v.opens.insert(ino, (opens_of(v, ino) + 1) as u32), ..v }, Ok(()))
    }
}

/// One open handle less. The last one of a file without a name removes the file.
pub open spec fn dec_open_op(v: FsView, ino: u64) -> (FsView, Outcome<()>) {
    if !v.opens.contains_key(ino) {
        (v, Ok(()))
    } else if opens_of(v, ino) > 1 {
        (FsView { opens: v.opens.insert(ino, (opens_of(v, ino) - 1) as u32), ..v }, Ok(()))
    } else {
        let u = FsView { opens: v.opens.remove(ino), ..v };
        if !v.orphans.contains(ino) {
            (u, Ok(()))
        } else {
            let w = FsView { orphans: v.orphans.remove(ino), ..u };
            if w.nodes.contains_key(ino) && w.nodes[ino].meta.nlink != 0 {
                (w, Ok(()))
            } else {
                drop_inode_op(w, ino)
            }
        }
    }
}

/// Position of the attribute `name`.
pub open spec fn attr_position(x: XattrView, name: Seq<u8>) -> Option<int>
    decreases x.len(),
{
    if x.len() == 0 {
        None
    } else {
        match attr_position(x.drop_last(), name) {
            Some(k) => Some(k),
            None => if x.last().0 == name {
                Some(x.len() - 1)
            } else {
                None
            },
        }
    }
}

/// The attributes but for those called `name`.
pub open spec fn attrs_without(x: XattrView, name: Seq<u8>) -> XattrView
    decreases x.len(),
{
    if x.len() == 0 {
        x
    } else if x.last().0 == name {
        attrs_without(x.drop_last(), name)
    } else {
        attrs_without(x.drop_last(), name).push(x.last())
    }
}

/// The file system with other attributes for file `ino`.
pub open spec fn with_attrs(v: FsView, ino: u64, x: XattrView) -> FsView {
    let n = v.nodes[ino];
    v.with(ino, Node { meta: changed_at(n.meta, v.clock), xattr: x, ..n })
}

/// Reading an extended attribute.
pub open spec fn getxattr_op(v: FsView, ino: u64, name: Seq<u8>) -> Outcome<Seq<u8>> {
    if !v.nodes.contains_key(ino) {
        Err(EIO)
    } else {
        match attr_position(v.nodes[ino].xattr, name) {
            Some(k) => Ok(v.nodes[ino].xattr[k].1),
            None => Err(ENODATA),
        }
    }
}

/// The names of the extended attributes.
pub open spec fn listxattr_op(v: FsView, ino: u64) -> Outcome<Seq<Seq<u8>>> {
    if !v.nodes.contains_key(ino) {
        Err(EIO)
    } else {
        let x = v.nodes[ino].xattr;
        Ok(Seq::new(x.len(), |k: int| x[k].0))
    }
}

/// Setting an extended attribute.
pub open spec fn setxattr_op(
    v: FsView,
    ino: u64,
    name: Seq<u8>,
    value: Seq<u8>,
    flags: u32,
) -> (FsView, Outcome<()>) {
    let x = v.nodes[ino].xattr;
    let at = attr_position(x, name);
    if !v.writable {
        (v, Err(EROFS))
    } else if name.len() == 0 || name.len() > 255 {
        (v, Err(EINVAL))
    } else if !v.nodes.contains_key(ino) {
        (v, Err(EIO))
    } else if flags & XATTR_CREATE != 0 && at is Some {
        (v, Err(EEXIST))
    } else if flags & XATTR_REPLACE != 0 && at is None {
        (v, Err(ENODATA))
    } else {
        match at {
            Some(k) => (with_attrs(v, ino, x.update(k, (name, value))), Ok(())),
            None => (with_attrs(v, ino, x.push((name, value))), Ok(())),
        }
    }
}

/// Removing an extended attribute.
pub open spec fn removexattr_op(v: FsView, ino: u64, name: Seq<u8>) -> (FsView, Outcome<()>) {
    let x = v.nodes[ino].xattr;
    if !v.writable {
        (v, Err(EROFS))
    } else if !v.nodes.contains_key(ino) {
        (v, Err(EIO))
    } else if attr_position(x, name) is None {
        (v, Err(ENODATA))
    } else {
        (with_attrs(v, ino, attrs_without(x, name)), Ok(()))
    }
}

/// The contents of file `ino` as one piece, where memory can hold them.
pub open spec fn whole(v: FsView, ino: u64) -> Outcome<Seq<u8>> {
    if !v.nodes.contains_key(ino) {
        Err(EIO)
    } else if v.nodes[ino].data.len() > usize::MAX {
        Err(EOVERFLOW)
    } else {
        Ok(v.nodes[ino].data)
    }
}

/// The type of file `ino`.
pub open spec fn type_at(v: FsView, ino: u64) -> FileType {
    type_of_mode(v.nodes[ino].meta.mode)
}

/// The entries of directory `ino`.
pub open spec fn dir_items(v: FsView, ino: u64) -> Outcome<Seq<DirItem>> {
    if !v.nodes.contains_key(ino) {
        Err(EIO)
    } else if !(type_at(v, ino) is Directory) {
        Err(ENOTDIR)
    } else if v.nodes[ino].data.len() > usize::MAX {
        Err(EOVERFLOW)
    } else {
        match parsed_dir(v.nodes[ino].data) {
            Some(es) => Ok(es),
            None => Err(EIO),
        }
    }
}

/// Position of the first entry called `name`.
pub open spec fn position_of(es: Seq<DirItem>, name: Seq<u8>) -> Option<int>
    decreases es.len(),
{
    if es.len() == 0 {
        None
    } else {
        match position_of(es.drop_last(), name) {
            Some(k) => Some(k),
            None => if es.last().name == name {
                Some(es.len() - 1)
            } else {
                None
            },
        }
    }
}

/// The inode and the type that directory `dir` has under `name`.
pub open spec fn lookup_name(v: FsView, dir: u64, name: Seq<u8>) -> Outcome<Option<(u64, FileType)>> {
    match dir_items(v, dir) {
        Err(e) => Err(e),
        Ok(es) => match position_of(es, name) {
            None => Ok(None),
            Some(k) => Ok(Some((es[k].ino, es[k].file_type))),
        },
    }
}

/// A directory can hold these entries.
pub open spec fn dir_fits(es: Seq<DirItem>) -> bool {
    es.len() <= u32::MAX && dir_bytes(es).len() <= MAX_FILE_SIZE
}

/// The file system with other entries for directory `ino`.
pub open spec fn with_items(v: FsView, ino: u64, es: Seq<DirItem>) -> FsView {
    let n = v.nodes[ino];
    v.with(
        ino,
        Node { meta: modified_at(n.meta, v.clock), data: dir_bytes(es), xattr: n.xattr },
    )
}

/// Giving directory `ino` other entries.
pub open spec fn write_dir_op(v: FsView, ino: u64, es: Seq<DirItem>) -> (FsView, Outcome<()>) {
    if !v.writable {
        (v, Err(EROFS))
    } else if !dir_fits(es) {
        (v, Err(EFBIG))
    } else if !v.nodes.contains_key(ino) {
        (v, Err(EIO))
    } else {
        (with_items(v, ino, es), Ok(()))
    }
}

/// Adding an entry to a directory.
pub open spec fn dir_insert_op(
    v: FsView,
    dir: u64,
    name: Seq<u8>,
    child: u64,
    file_type: FileType,
) -> (FsView, Outcome<()>) {
    match name_error(name) {
        Some(e) => (v, Err(e)),
        None => match dir_items(v, dir) {
            Err(e) => (v, Err(e)),
            Ok(es) => if position_of(es, name) is Some {
                (v, Err(EEXIST))
            } else {
                write_dir_op(v, dir, es.push(DirItem { ino: child, file_type, name }))
            },
        },
    }
}

/// Removing an entry from a directory.
pub open spec fn dir_remove_op(v: FsView, dir: u64, name: Seq<u8>) -> (FsView, Outcome<
    (u64, FileType),
>) {
    match dir_items(v, dir) {
        Err(e) => (v, Err(e)),
        Ok(es) => match position_of(es, name) {
            None => (v, Err(ENOENT)),
            Some(k) => {
                let (w, r) = write_dir_op(v, dir, es.remove(k));
                match r {
                    Ok(_) => (w, Ok((es[k].ino, es[k].file_type))),
                    Err(e) => (w, Err(e)),
                }
            },
        },
    }
}

/// Whether permissions allow an access to file `ino`.
pub open spec fn allowed(v: FsView, ino: u64, creds: CredsView, access: Access) -> bool {
    let m = v.nodes[ino].meta;
    !v.check_perm || may_access(m.mode, m.uid, m.gid, creds, access)
}

/// A directory without entries but for itself and its parent.
pub open spec fn only_dots(es: Seq<DirItem>) -> bool {
    forall|k: int|
        0 <= k < es.len() ==> (#[trigger] es[k]).name == dot() || es[k].name == dot_dot()
}

/// The entries of a new directory.
pub open spec fn dot_items(ino: u64, parent: u64) -> Seq<DirItem> {
    seq![
        DirItem { ino, file_type: FileType::Directory, name: dot() },
        DirItem { ino: parent, file_type: FileType::Directory, name: dot_dot() },
    ]
}

/// One link more.
pub open spec fn plus_one(n: u32) -> u32 {
    if n == u32::MAX {
        n
    } else {
        (n + 1) as u32
    }
}

/// One link less.
pub open spec fn minus_one(n: u32) -> u32 {
    if n == 0 {
        n
    } else {
        (n - 1) as u32
    }
}

/// A new file of number `ino` with a name in directory `parent`, whose entries are `es` from now
/// on.
pub open spec fn created(
    v: FsView,
    ino: u64,
    parent: u64,
    mode: u16,
    uid: u32,
    gid: u32,
    rdev: u64,
    es: Seq<DirItem>,
) -> FsView {
    let w = alloc_inode_op(v, mode, uid, gid).0;
    let m = w.nodes[ino].meta;
    if type_of_mode(mode) is Directory {
        let w = with_meta(w, ino, Meta { rdev, nlink: 2, ..m });
        let w = with_items(w, ino, dot_items(ino, parent));
        let p = w.nodes[parent].meta;
        let w = with_meta(
            w,
            parent,
            Meta { nlink: plus_one(p.nlink), ..modified_at(p, v.clock) },
        );
        with_items(w, parent, es)
    } else {
        with_items(with_meta(w, ino, Meta { rdev, ..m }), parent, es)
    }
}

/// Creating a file of any type.
pub open spec fn create_child_op(
    v: FsView,
    parent: u64,
    name: Seq<u8>,
    mode: u16,
    uid: u32,
    gid: u32,
    rdev: u64,
    creds: CredsView,
) -> (FsView, Outcome<u64>) {
    let ft = type_of_mode(mode);
    let ino = next_ino(v);
    if !v.writable {
        (v, Err(EROFS))
    } else if name_error(name) is Some {
        (v, Err(name_error(name)->0))
    } else if !v.nodes.contains_key(parent) {
        (v, Err(EIO))
    } else if !(type_at(v, parent) is Directory) {
        (v, Err(ENOTDIR))
    } else if !allowed(v, parent, creds, Access::Write) {
        (v, Err(EACCES))
    } else {
        match dir_items(v, parent) {
            Err(e) => (v, Err(e)),
            Ok(es) => {
                let all = es.push(DirItem { ino, file_type: ft, name });
                if position_of(es, name) is Some {
                    (v, Err(EEXIST))
                } else if ft is Directory && v.nodes[parent].meta.nlink == u32::MAX {
                    (v, Err(EMLINK))
                } else if out_of_inodes(v) {
                    (v, Err(ENOSPC))
                } else if !dir_fits(all) {
                    (v, Err(EFBIG))
                } else {
                    (created(v, ino, parent, mode, uid, gid, rdev, all), Ok(ino))
                }
            },
        }
    }
}

/// Whether the sticky bit of a directory keeps `creds` from removing `name`.
pub open spec fn sticky_op(v: FsView, parent: u64, name: Seq<u8>, creds: CredsView) -> Outcome<()> {
    let dir = v.nodes[parent].meta;
    if v.check_perm && dir.mode & S_ISVTX != 0 && creds.fsuid != 0 {
        match lookup_name(v, parent, name) {
            Err(e) => Err(e),
            Ok(None) => Err(ENOENT),
            Ok(Some((ino, _))) => if !v.nodes.contains_key(ino) {
                Err(EIO)
            } else if creds.fsuid != dir.uid && creds.fsuid != v.nodes[ino].meta.uid {
                Err(EACCES)
            } else {
                Ok(())
            },
        }
    } else {
        Ok(())
    }
}

/// Whether an entry may be removed, as a directory (`rmdir`) or as any other file.
pub open spec fn removable(v: FsView, ino: u64, ft: FileType, rmdir: bool) -> Outcome<()> {
    if rmdir {
        if !(ft is Directory) {
            Err(ENOTDIR)
        } else {
            match dir_items(v, ino) {
                Err(e) => Err(e),
                Ok(es) => if only_dots(es) {
                    Ok(())
                } else {
                    Err(ENOTEMPTY)
                },
            }
        }
    } else if ft is Directory {
        Err(EISDIR)
    } else {
        Ok(())
    }
}

/// The names that are left of a file with metadata `m` when it loses one. A directory has one.
pub open spec fn links_left(m: Meta) -> u32 {
    if type_of_mode(m.mode) is Directory {
        0
    } else {
        minus_one(m.nlink)
    }
}

/// A file loses one of its names. It goes with its last name, unless it is open.
pub open spec fn unlinked(v: FsView, ino: u64) -> (FsView, Outcome<()>) {
    if !v.nodes.contains_key(ino) {
        (v, Err(EIO))
    } else {
        let m = v.nodes[ino].meta;
        let w = with_meta(v, ino, Meta { nlink: links_left(m), ..changed_at(m, v.clock) });
        if links_left(m) != 0 {
            (w, Ok(()))
        } else if opens_of(v, ino) == 0 {
            drop_inode_op(w, ino)
        } else {
            (FsView { orphans: w.orphans.insert(ino), ..w }, Ok(()))
        }
    }
}

/// Removing a name.
pub open spec fn unlink_op(
    v: FsView,
    parent: u64,
    name: Seq<u8>,
    rmdir: bool,
    creds: CredsView,
) -> (FsView, Outcome<()>) {
    if !v.writable {
        (v, Err(EROFS))
    } else if name_error(name) is Some {
        (v, Err(name_error(name)->0))
    } else if !v.nodes.contains_key(parent) {
        (v, Err(EIO))
    } else if !allowed(v, parent, creds, Access::Write) {
        (v, Err(EACCES))
    } else if sticky_op(v, parent, name, creds) is Err {
        (v, Err(sticky_op(v, parent, name, creds)->Err_0))
    } else {
        match lookup_name(v, parent, name) {
            Err(e) => (v, Err(e)),
            Ok(None) => (v, Err(ENOENT)),
            Ok(Some((ino, ft))) => match removable(v, ino, ft, rmdir) {
                Err(e) => (v, Err(e)),
                Ok(_) => {
                    let (w, r) = dir_remove_op(v, parent, name);
                    match r {
                        Err(e) => (w, Err(e)),
                        Ok(_) => if ft is Directory {
                            let p = w.nodes[parent].meta;
                            unlinked(
                                with_meta(w, parent, Meta { nlink: minus_one(p.nlink), ..p }),
                                ino,
                            )
                        } else {
                            unlinked(w, ino)
                        },
                    }
                },
            },
        }
    }
}

/// Giving file `target` one more name.
pub open spec fn link_op(
    v: FsView,
    target: u64,
    parent: u64,
    name: Seq<u8>,
    creds: CredsView,
) -> (FsView, Outcome<()>) {
    if !v.writable {
        (v, Err(EROFS))
    } else if name_error(name) is Some {
        (v, Err(name_error(name)->0))
    } else if !v.nodes.contains_key(target) {
        (v, Err(EIO))
    } else if type_at(v, target) is Directory {
        (v, Err(EPERM))
    } else if !v.nodes.contains_key(parent) {
        (v, Err(EIO))
    } else if !allowed(v, parent, creds, Access::Write) {
        (v, Err(EACCES))
    } else {
        match lookup_name(v, parent, name) {
            Err(e) => (v, Err(e)),
            Ok(Some(_)) => (v, Err(EEXIST)),
            Ok(None) => if v.nodes[target].meta.nlink == u32::MAX {
                (v, Err(EMLINK))
            } else {
                let (w, r) = dir_insert_op(v, parent, name, target, type_at(v, target));
                match r {
                    Err(e) => (w, Err(e)),
                    Ok(_) => {
                        let m = w.nodes[target].meta;
                        (
                            with_meta(
                                w,
                                target,
                                Meta { nlink: plus_one(m.nlink), ..changed_at(m, v.clock) },
                            ),
                            Ok(()),
                        )
                    },
                }
            },
        }
    }
}

/// Whether directory `dir` is `child`, or lies above it within `n` steps.
pub open spec fn is_above(v: FsView, dir: u64, child: u64, n: nat) -> Outcome<bool>
    decreases n,
{
    if child == ROOT_INO || n == 0 || child == dir {
        Ok(child == dir)
    } else {
        match lookup_name(v, child, dot_dot()) {
            Err(e) => Err(e),
            Ok(None) => Ok(false),
            Ok(Some((p, _))) => is_above(v, dir, p, (n - 1) as nat),
        }
    }
}

/// The entries of a directory that moved into directory `parent`.
pub open spec fn reparented(es: Seq<DirItem>, parent: u64) -> Seq<DirItem> {
    Seq::new(
        es.len(),
        |k: int|
            if es[k].name == dot_dot() {
                DirItem { ino: parent, ..es[k] }
            } else {
                es[k]
            },
    )
}

/// What a rename checks before it changes anything: whether there is anything to do.
pub open spec fn rename_check(
    v: FsView,
    old_parent: u64,
    old_name: Seq<u8>,
    new_parent: u64,
    new_name: Seq<u8>,
    creds: CredsView,
) -> Outcome<bool> {
    if !v.writable {
        Err(EROFS)
    } else if name_error(old_name) is Some {
        Err(name_error(old_name)->0)
    } else if name_error(new_name) is Some {
        Err(name_error(new_name)->0)
    } else if !v.nodes.contains_key(old_parent) || !v.nodes.contains_key(new_parent) {
        Err(EIO)
    } else if !allowed(v, old_parent, creds, Access::Write) || !allowed(
        v,
        new_parent,
        creds,
        Access::Write,
    ) {
        Err(EACCES)
    } else {
        match lookup_name(v, old_parent, old_name) {
            Err(e) => Err(e),
            Ok(None) => Err(ENOENT),
            Ok(Some((src, src_ft))) => if old_parent == new_parent && old_name == new_name {
                Ok(false)
            } else {
                match if src_ft is Directory {
                    is_above(v, src, new_parent, 4096)
                } else {
                    Ok(false)
                } {
                    Err(e) => Err(e),
                    Ok(true) => Err(EINVAL),
                    Ok(false) => match lookup_name(v, new_parent, new_name) {
                        Err(e) => Err(e),
                        Ok(None) => if src_ft is Directory && old_parent != new_parent
                            && v.nodes[new_parent].meta.nlink == u32::MAX {
                            Err(EMLINK)
                        } else {
                            Ok(true)
                        },
                        Ok(Some((dst, dst_ft))) => if src == dst {
                            Ok(false)
                        } else if src_ft is Directory && !(dst_ft is Directory) {
                            Err(ENOTDIR)
                        } else if !(src_ft is Directory) && dst_ft is Directory {
                            Err(EISDIR)
                        } else if dst_ft is Directory {
                            match dir_items(v, dst) {
                                Err(e) => Err(e),
                                Ok(es) => if only_dots(es) {
                                    Ok(true)
                                } else {
                                    Err(ENOTEMPTY)
                                },
                            }
                        } else {
                            Ok(true)
                        },
                    },
                }
            },
        }
    }
}

/// A directory moved from one parent to another.
pub open spec fn moved_dir(v: FsView, src: u64, old_parent: u64, new_parent: u64) -> (
    FsView,
    Outcome<()>,
) {
    match dir_items(v, src) {
        Err(e) => (v, Err(e)),
        Ok(es) => {
            let (w, r) = write_dir_op(v, src, reparented(es, new_parent));
            if r is Err {
                (w, r)
            } else if !w.nodes.contains_key(old_parent) {
                (w, Err(EIO))
            } else {
                let p = w.nodes[old_parent].meta;
                let w = with_meta(w, old_parent, Meta { nlink: minus_one(p.nlink), ..p });
                if !w.nodes.contains_key(new_parent) {
                    (w, Err(EIO))
                } else {
                    let p = w.nodes[new_parent].meta;
                    (with_meta(w, new_parent, Meta { nlink: plus_one(p.nlink), ..p }), Ok(()))
                }
            }
        },
    }
}

/// A name moves.
pub open spec fn moved_name(
    v: FsView,
    src: u64,
    src_ft: FileType,
    old_parent: u64,
    old_name: Seq<u8>,
    new_parent: u64,
    new_name: Seq<u8>,
) -> (FsView, Outcome<()>) {
    let (w, r) = dir_remove_op(v, old_parent, old_name);
    match r {
        Err(e) => (w, Err(e)),
        Ok(_) => {
            let (w, r) = dir_insert_op(w, new_parent, new_name, src, src_ft);
            match r {
                Err(e) => (w, Err(e)),
                Ok(_) => if src_ft is Directory && old_parent != new_parent {
                    moved_dir(w, src, old_parent, new_parent)
                } else {
                    (w, Ok(()))
                },
            }
        },
    }
}

/// Renaming.
pub open spec fn rename_op(
    v: FsView,
    old_parent: u64,
    old_name: Seq<u8>,
    new_parent: u64,
    new_name: Seq<u8>,
    creds: CredsView,
) -> (FsView, Outcome<()>) {
    match rename_check(v, old_parent, old_name, new_parent, new_name, creds) {
        Err(e) => (v, Err(e)),
        Ok(false) => (v, Ok(())),
        Ok(true) => {
            let (src, src_ft) = (lookup_name(v, old_parent, old_name)->Ok_0)->0;
            match lookup_name(v, new_parent, new_name)->Ok_0 {
                None => moved_name(
                    v,
                    src,
                    src_ft,
                    old_parent,
                    old_name,
                    new_parent,
                    new_name,
                ),
                Some((_, dst_ft)) => {
                    let (w, r) = unlink_op(v, new_parent, new_name, dst_ft is Directory, creds);
                    match r {
                        Err(e) => (w, Err(e)),
                        Ok(_) => moved_name(
                            w,
                            src,
                            src_ft,
                            old_parent,
                            old_name,
                            new_parent,
                            new_name,
                        ),
                    }
                },
            }
        },
    }
}

/// Where a path leads: the directory that has its last name, that name, and the inode under it.
pub ghost struct Found {
    pub parent: u64,
    pub name: Seq<u8>,
    pub ino: Option<u64>,
}

/// Blocks that a write of `n` bytes takes at most.
pub open spec fn room(n: int) -> int {
    64 * (n / 8192 + 20)
}

/// Blocks that setting the length of a file takes at most.
pub open spec fn cut_room() -> int {
    66
}

/// Blocks that growing the inode table takes at most.
pub open spec fn table_room() -> int {
    4096
}

/// Blocks that it takes at most to give a directory the entries `es`.
pub open spec fn list_room(es: Seq<DirItem>) -> int {
    cut_room() + room(dir_bytes(es).len() as int)
}

/// Blocks that adding an entry takes at most.
pub open spec fn dir_insert_room(
    v: FsView,
    dir: u64,
    name: Seq<u8>,
    child: u64,
    file_type: FileType,
) -> int {
    match dir_items(v, dir) {
        Err(_) => 0,
        Ok(es) => list_room(es.push(DirItem { ino: child, file_type, name })),
    }
}

/// Blocks that removing an entry takes at most.
pub open spec fn dir_remove_room(v: FsView, dir: u64, name: Seq<u8>) -> int {
    match dir_items(v, dir) {
        Err(_) => 0,
        Ok(es) => match position_of(es, name) {
            None => 0,
            Some(k) => list_room(es.remove(k)),
        },
    }
}

/// Blocks that creating a file takes at most: for the inode table, for the entries of a new
/// directory, and for those of its parent.
pub open spec fn create_room(v: FsView, parent: u64, name: Seq<u8>, mode: u16) -> int {
    match dir_items(v, parent) {
        Err(_) => 0,
        Ok(es) => table_room() + list_room(dot_items(next_ino(v), parent)) + list_room(
            es.push(DirItem { ino: next_ino(v), file_type: type_of_mode(mode), name }),
        ),
    }
}

/// Blocks that it takes at most to give a directory another parent.
pub open spec fn move_dir_room(v: FsView, src: u64, new_parent: u64) -> int {
    match dir_items(v, src) {
        Err(_) => 0,
        Ok(es) => list_room(reparented(es, new_parent)),
    }
}

/// Blocks that moving a name takes at most.
pub open spec fn move_room(
    v: FsView,
    src: u64,
    src_ft: FileType,
    old_parent: u64,
    old_name: Seq<u8>,
    new_parent: u64,
    new_name: Seq<u8>,
) -> int {
    let w = dir_remove_op(v, old_parent, old_name).0;
    let x = dir_insert_op(w, new_parent, new_name, src, src_ft).0;
    dir_remove_room(v, old_parent, old_name) + dir_insert_room(w, new_parent, new_name, src, src_ft)
        + move_dir_room(x, src, new_parent)
}

/// Blocks that a rename takes at most.
pub open spec fn rename_room(
    v: FsView,
    old_parent: u64,
    old_name: Seq<u8>,
    new_parent: u64,
    new_name: Seq<u8>,
    creds: CredsView,
) -> int {
    match lookup_name(v, old_parent, old_name) {
        Ok(Some((src, ft))) => match lookup_name(v, new_parent, new_name) {
            Ok(Some((_, dst_ft))) => {
                let w = unlink_op(v, new_parent, new_name, dst_ft is Directory, creds).0;
                dir_remove_room(v, new_parent, new_name) + move_room(
                    w,
                    src,
                    ft,
                    old_parent,
                    old_name,
                    new_parent,
                    new_name,
                )
            },
            _ => move_room(v, src, ft, old_parent, old_name, new_parent, new_name),
        },
        _ => 0,
    }
}

/// Nothing but the files in `t` changed, came or went.
pub open spec fn spared(v0: FsView, v1: FsView, t: Set<u64>) -> bool {
    &&& v1.clock == v0.clock
    &&& v1.writable == v0.writable
    &&& v1.check_perm == v0.check_perm
    &&& v1.default_compression == v0.default_compression
    &&& same_outside(v0.nodes, v1.nodes, t)
}

/// The files that are not in `t` are the same.
#[verifier::opaque]
pub open spec fn same_outside(m0: Map<u64, Node>, m1: Map<u64, Node>, t: Set<u64>) -> bool {
    forall|x: u64|
        #![trigger m1.contains_key(x)]
        #![trigger m1[x]]
        !t.contains(x) ==> (m1.contains_key(x) <==> m0.contains_key(x)) && (m0.contains_key(x)
            ==> m1[x] == m0[x])
}

/// Where nothing changes, every file is spared.
pub proof fn lemma_spared_same(v: FsView, t: Set<u64>)
    ensures
        spared(v, v, t),
{
    reveal(same_outside);
}

/// Changes to files in `t` follow on each other.
pub proof fn lemma_spared_on(v0: FsView, v1: FsView, v2: FsView, t1: Set<u64>, t: Set<u64>)
    requires
        spared(v0, v1, t),
        spared(v1, v2, t1),
        t1.subset_of(t),
    ensures
        spared(v0, v2, t),
{
    reveal(same_outside);
}

/// The directories, and the numbers that no file has.
pub open spec fn directories(v: FsView) -> Set<u64> {
    Set::new(|x: u64| !v.nodes.contains_key(x) || type_at(v, x) is Directory)
}

/// Where only directories changed or came, no other file became one.
pub proof fn lemma_directories(v0: FsView, v1: FsView)
    requires
        spared(v0, v1, directories(v0)),
    ensures
        directories(v1).subset_of(directories(v0)),
{
    reveal(same_outside);
}

/// Creating a file changes its directory and no other file.
pub proof fn lemma_child_spares(
    v: FsView,
    parent: u64,
    name: Seq<u8>,
    mode: u16,
    uid: u32,
    gid: u32,
    rdev: u64,
    creds: CredsView,
)
    requires
        !v.nodes.contains_key(next_ino(v)),
    ensures
        spared(
            v,
            create_child_op(v, parent, name, mode, uid, gid, rdev, creds).0,
            directories(v),
        ),
{
    reveal(same_outside);
}

/// No file came. What is left has its type, and its contents unless it is a directory.
pub open spec fn left_over(v0: FsView, v1: FsView) -> bool {
    &&& v1.clock == v0.clock
    &&& nodes_left(v0.nodes, v1.nodes)
}

/// The files of `m1` were there before, with the same type and, but for directories, the same
/// contents.
#[verifier::opaque]
pub open spec fn nodes_left(m0: Map<u64, Node>, m1: Map<u64, Node>) -> bool {
    forall|x: u64| #[trigger]
        m1.contains_key(x) ==> m0.contains_key(x) && type_of_mode(m1[x].meta.mode) == type_of_mode(
            m0[x].meta.mode,
        ) && (type_of_mode(m0[x].meta.mode) is Directory || m1[x].data == m0[x].data && m1[x].xattr
            == m0[x].xattr)
}

/// Removals follow on each other.
pub proof fn lemma_left_on(v0: FsView, v1: FsView, v2: FsView)
    requires
        left_over(v0, v1),
        left_over(v1, v2),
    ensures
        left_over(v0, v2),
{
    reveal(nodes_left);
}

/// Where nothing changes, everything is left.
pub proof fn lemma_left_same(v: FsView)
    ensures
        left_over(v, v),
{
    reveal(nodes_left);
}

/// Directory `dir`, and the file that it has under `name`.
pub open spec fn under_name(v: FsView, dir: u64, name: Seq<u8>) -> Set<u64> {
    match lookup_name(v, dir, name) {
        Ok(Some((ino, _))) => set![dir, ino],
        _ => set![dir],
    }
}

/// What is left of a path behind a symbolic link to `target`.
pub open spec fn behind_link(target: Seq<u8>, rest: Seq<Part>) -> Seq<u8>
    decreases rest.len(),
{
    if rest.len() == 0 {
        target
    } else {
        let base = behind_link(target, rest.drop_last());
        match rest.last() {
            Part::RootDir => root_path(),
            Part::CurDir => base,
            Part::ParentDir => joined(base, dot_dot()),
            Part::Normal(n) => joined(base, n),
        }
    }
}

/// The walk along a path. Relative paths start at `cwd`, absolute ones at `root`; no path leads
/// above `root`. `hops` symbolic links were followed already.
pub open spec fn walk_path(
    v: FsView,
    root: u64,
    cwd: u64,
    path: Seq<u8>,
    follow: bool,
    creds: CredsView,
    hops: nat,
) -> Outcome<Found>
    decreases SYMLOOP_MAX - hops, 1int, 0int,
{
    let dir = if absolute(path) {
        root
    } else {
        cwd
    };
    let comps = path_parts(path);
    if path.len() == 0 {
        Err(EINVAL)
    } else if comps.len() == 0 {
        Ok(Found { parent: root, name: Seq::empty(), ino: Some(dir) })
    } else {
        walk_parts(v, root, dir, comps, follow, creds, hops)
    }
}

/// The walk along the components of a path, from directory `dir` on.
pub open spec fn walk_parts(
    v: FsView,
    root: u64,
    dir: u64,
    comps: Seq<Part>,
    follow: bool,
    creds: CredsView,
    hops: nat,
) -> Outcome<Found>
    decreases SYMLOOP_MAX - hops, 0int, comps.len(),
{
    if comps.len() == 0 {
        Ok(Found { parent: dir, name: Seq::empty(), ino: Some(dir) })
    } else {
        let last = comps.len() == 1;
        let rest = comps.drop_first();
        match comps[0] {
            Part::RootDir => walk_parts(v, root, root, rest, follow, creds, hops),
            Part::CurDir => walk_parts(v, root, dir, rest, follow, creds, hops),
            Part::ParentDir => if !v.nodes.contains_key(dir) {
                Err(EIO)
            } else if !allowed(v, dir, creds, Access::Exec) {
                Err(EACCES)
            } else {
                match if dir == root {
                    Ok(None)
                } else {
                    lookup_name(v, dir, dot_dot())
                } {
                    Err(e) => Err(e),
                    Ok(up) => {
                        let dir = match up {
                            Some((p, _)) => p,
                            None => dir,
                        };
                        if last {
                            Ok(Found { parent: dir, name: dot_dot(), ino: Some(dir) })
                        } else {
                            walk_parts(v, root, dir, rest, follow, creds, hops)
                        }
                    },
                }
            },
            Part::Normal(name) => if !v.nodes.contains_key(dir) {
                Err(EIO)
            } else if !(type_at(v, dir) is Directory) {
                Err(ENOTDIR)
            } else if !allowed(v, dir, creds, Access::Exec) {
                Err(EACCES)
            } else {
                match lookup_name(v, dir, name) {
                    Err(e) => Err(e),
                    Ok(None) => if last {
                        Ok(Found { parent: dir, name, ino: None })
                    } else {
                        Err(ENOENT)
                    },
                    Ok(Some((ino, _))) => if !v.nodes.contains_key(ino) {
                        Err(EIO)
                    } else if type_at(v, ino) is Symlink && (!last || follow) {
                        if hops >= SYMLOOP_MAX {
                            Err(ELOOP)
                        } else {
                            match whole(v, ino) {
                                Err(e) => Err(e),
                                Ok(target) => walk_path(
                                    v,
                                    root,
                                    dir,
                                    behind_link(target, rest),
                                    follow,
                                    creds,
                                    hops + 1,
                                ),
                            }
                        }
                    } else if last {
                        Ok(Found { parent: dir, name, ino: Some(ino) })
                    } else {
                        walk_parts(v, root, ino, rest, follow, creds, hops)
                    },
                }
            },
        }
    }
}

} // verus!
