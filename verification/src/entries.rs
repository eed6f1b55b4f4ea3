//! What creating, linking, renaming and removing names does to the files that have them.

use vstd::prelude::*;

use crate::dir::{dir_bytes, DirItem};
use crate::error::{
    EACCES, EEXIST, EFBIG, EINVAL, EIO, EISDIR, EMLINK, ENOENT, ENOSPC, ENOTDIR, ENOTEMPTY, EPERM,
    EROFS,
};
use crate::laws::{lemma_position_in, tidy};
use crate::metadata::same_owners;
use crate::model::{FsView, Meta};
use crate::naming::{inode_of, lemma_no_position};
use crate::ops::{
    alloc_inode_op, allowed, create_child_op, dec_open_op, dir_items, dir_remove_op, drop_inode_op,
    inc_open_op, is_above, link_op, lookup_name, next_ino, opens_of, position_of, rename_check,
    rename_op, sticky_op, type_at, unlink_op,
};
use crate::path::name_error;
use crate::types::{type_of_mode, Access, CredsView, FileType};

verus! {

/// Entries that a directory can hold.
pub open spec fn fits(es: Seq<DirItem>) -> bool {
    es.len() <= 0xffff_ffff && dir_bytes(es).len() <= 0x1000_0000_0000
}

/// Metadata that differs in nothing but the number of names and the time of the last change.
pub open spec fn same_but_links(a: Meta, b: Meta) -> bool {
    &&& same_owners(a, b)
    &&& (a.mode, a.rdev, a.compression) == (b.mode, b.rdev, b.compression)
    &&& (a.atime, a.mtime, a.btime) == (b.atime, b.mtime, b.btime)
}

/// Metadata of a directory whose entries changed at `clock`.
pub open spec fn entries_changed(a: Meta, b: Meta, clock: crate::types::Timespec) -> bool {
    &&& same_owners(a, b)
    &&& (a.mode, a.rdev, a.compression) == (b.mode, b.rdev, b.compression)
    &&& (a.atime, a.btime) == (b.atime, b.btime)
    &&& b.mtime == clock
    &&& b.ctime == clock
}

/// The files but two are what they were.
pub open spec fn others_kept(v: FsView, w: FsView, a: u64, b: u64) -> bool {
    forall|x: u64|
        x != a && x != b ==> (#[trigger] w.nodes.contains_key(x) <==> v.nodes.contains_key(x)) && (
        v.nodes.contains_key(x) ==> w.nodes[x] == v.nodes[x])
}

/// The switches of a file system.
pub open spec fn same_switches(v: FsView, w: FsView) -> bool {
    &&& w.writable == v.writable
    &&& w.check_perm == v.check_perm
    &&& w.clock == v.clock
    &&& w.default_compression == v.default_compression
}

/// A name is found where the directory has an entry for it, and stands for the first of them.
pub proof fn lookup_finds_entries(v: FsView, dir: u64, name: Seq<u8>)
    ensures
        !v.nodes.contains_key(dir) ==> lookup_name(v, dir, name) == Err::<
            Option<(u64, FileType)>,
            i32,
        >(EIO),
        v.nodes.contains_key(dir) && !(type_at(v, dir) is Directory) ==> lookup_name(v, dir, name)
            == Err::<Option<(u64, FileType)>, i32>(ENOTDIR),
        lookup_name(v, dir, name) is Ok <==> dir_items(v, dir) is Ok,
        dir_items(v, dir) matches Ok(es) ==> {
            &&& lookup_name(v, dir, name) == Ok::<Option<(u64, FileType)>, i32>(None) <==> forall|
                k: int,
            |
                0 <= k < es.len() ==> (#[trigger] es[k]).name != name
            &&& lookup_name(v, dir, name) matches Ok(Some((ino, ft))) ==> exists|k: int|
                {
                    &&& 0 <= k < es.len()
                    &&& (#[trigger] es[k]).name == name
                    &&& es[k].ino == ino
                    &&& es[k].file_type == ft
                    &&& forall|j: int| 0 <= j < k ==> (#[trigger] es[j]).name != name
                }
        },
{
    if let Ok(es) = dir_items(v, dir) {
        lemma_no_position(es, name);
        lemma_first_position(es, name);
    }
}

/// A position is that of the first entry with the name.
proof fn lemma_first_position(es: Seq<DirItem>, name: Seq<u8>)
    ensures
        position_of(es, name) matches Some(k) ==> 0 <= k < es.len() && es[k].name == name && forall|
            j: int,
        |
            0 <= j < k ==> (#[trigger] es[j]).name != name,
    decreases es.len(),
{
    if es.len() > 0 {
        let front = es.drop_last();
        lemma_first_position(front, name);
        lemma_no_position(front, name);
        if let Some(k) = position_of(es, name) {
            assert forall|j: int| 0 <= j < k implies (#[trigger] es[j]).name != name by {
                assert(front[j] == es[j]);
            }
        }
    }
}

/// The number of a new file is that which was freed last, or else one that was never used; it is
/// taken from then on.
pub proof fn numbers_are_handed_out(v: FsView, mode: u16, uid: u32, gid: u32)
    ensures
        ({
            let (w, r) = alloc_inode_op(v, mode, uid, gid);
            &&& r is Ok <==> v.writable && (v.free_inodes.len() > 0 || v.next_inode <= 0xf_ffff_0000)
            &&& !v.writable ==> r == Err::<u64, i32>(EROFS)
            &&& v.writable && r is Err ==> r == Err::<u64, i32>(ENOSPC)
            &&& r is Err ==> w == v
            &&& r matches Ok(ino) ==> {
                &&& v.free_inodes.len() > 0 ==> ino == v.free_inodes.last() && w.free_inodes.push(
                    ino,
                ) == v.free_inodes && w.next_inode == v.next_inode
                &&& v.free_inodes.len() == 0 ==> ino == v.next_inode && w.next_inode == ino + 1
                    && w.free_inodes == v.free_inodes
                &&& w.nodes.contains_key(ino)
                &&& others_kept(v, w, ino, ino)
                &&& (w.opens, w.orphans) == (v.opens, v.orphans)
                &&& same_switches(v, w)
            }
        }),
{
    let (w, r) = alloc_inode_op(v, mode, uid, gid);
    if v.free_inodes.len() > 0 {
        assert(v.free_inodes.drop_last().push(v.free_inodes.last()) =~= v.free_inodes);
    }
}

/// A file that is removed is gone, and its number is the next one to be handed out.
pub proof fn removed_numbers_come_back(v: FsView, ino: u64)
    ensures
        ({
            let (w, r) = drop_inode_op(v, ino);
            &&& r is Ok <==> v.writable && v.nodes.contains_key(ino)
            &&& r is Err ==> w == v
            &&& r is Ok ==> {
                &&& !w.nodes.contains_key(ino)
                &&& others_kept(v, w, ino, ino)
                &&& ino >= 2 ==> next_ino(w) == ino && w.free_inodes.drop_last() == v.free_inodes
                &&& ino < 2 ==> w.free_inodes == v.free_inodes
                &&& w.next_inode == v.next_inode
                &&& (w.opens, w.orphans) == (v.opens, v.orphans)
                &&& same_switches(v, w)
            }
        }),
{
    if ino >= 2 {
        assert(v.free_inodes.push(ino).drop_last() =~= v.free_inodes);
    }
}

/// Handles are counted one by one, file by file.
pub proof fn handles_are_counted(v: FsView, ino: u64, x: u64)
    ensures
        ({
            let (w, r) = inc_open_op(v, ino);
            &&& r is Ok <==> opens_of(v, ino) < 0xffff_ffff
            &&& r is Err ==> r == Err::<(), i32>(crate::error::ENFILE) && w == v
            &&& r is Ok ==> opens_of(w, ino) == opens_of(v, ino) + 1
            &&& x != ino ==> opens_of(w, x) == opens_of(v, x)
            &&& (w.nodes, w.orphans, w.free_inodes, w.next_inode) == (
                v.nodes,
                v.orphans,
                v.free_inodes,
                v.next_inode,
            )
            &&& same_switches(v, w)
        }),
        ({
            let (w, r) = dec_open_op(v, ino);
            &&& opens_of(v, ino) > 0 ==> opens_of(w, ino) == opens_of(v, ino) - 1
            &&& x != ino ==> opens_of(w, x) == opens_of(v, x)
            &&& x != ino ==> (w.nodes.contains_key(x) <==> v.nodes.contains_key(x))
            &&& x != ino && v.nodes.contains_key(x) ==> w.nodes[x] == v.nodes[x]
            &&& opens_of(v, ino) > 1 || !v.orphans.contains(ino) ==> w.nodes == v.nodes && w.orphans
                == v.orphans && r is Ok
            &&& v.nodes.contains_key(ino) && v.nodes[ino].meta.nlink != 0 ==> w.nodes == v.nodes
            &&& same_switches(v, w)
        }),
{
}

/// Where the sticky bit of a directory matters: for everybody but the superuser, the owner of the
/// directory and the owner of the file.
pub proof fn sticky_bit_protects(v: FsView, parent: u64, name: Seq<u8>, creds: CredsView)
    requires
        lookup_name(v, parent, name) matches Ok(Some((ino, _))) && v.nodes.contains_key(ino),
    ensures
        ({
            let dir = v.nodes[parent].meta;
            let ino = ((lookup_name(v, parent, name)->Ok_0)->0).0;
            &&& sticky_op(v, parent, name, creds) is Err <==> v.check_perm && dir.mode & 0o1000 != 0
                && creds.fsuid != 0 && creds.fsuid != dir.uid && creds.fsuid
                != v.nodes[ino].meta.uid
            &&& sticky_op(v, parent, name, creds) is Err ==> sticky_op(v, parent, name, creds)
                == Err::<(), i32>(EACCES)
        }),
{
}

/// When a file can be created, and what it is then: a new number, the metadata that was asked for, no
/// contents but `.` and `..` in a directory, and one entry more at the end of its directory. Nothing
/// else changes.
#[verifier::spinoff_prover]
#[verifier::rlimit(40)]
pub proof fn create_child_means(
    v: FsView,
    parent: u64,
    name: Seq<u8>,
    mode: u16,
    uid: u32,
    gid: u32,
    rdev: u64,
    creds: CredsView,
)
    requires
        tidy(v),
        mode != 0,
    ensures
        ({
            let (w, r) = create_child_op(v, parent, name, mode, uid, gid, rdev, creds);
            let es = dir_items(v, parent)->Ok_0;
            let dir = type_of_mode(mode) is Directory;
            let new = DirItem { ino: next_ino(v), file_type: type_of_mode(mode), name };
            let open = v.writable && name_error(name) is None && v.nodes.contains_key(parent)
                && type_at(v, parent) is Directory;
            let may = open && allowed(v, parent, creds, Access::Write) && dir_items(v, parent) is Ok;
            let free = may && lookup_name(v, parent, name) == Ok::<Option<(u64, FileType)>, i32>(
                None,
            );
            let counts = free && (dir ==> v.nodes[parent].meta.nlink < 0xffff_ffff);
            let room = counts && (v.free_inodes.len() > 0 || v.next_inode <= 0xf_ffff_0000);
            &&& r is Ok <==> room && fits(es.push(new))
            &&& r is Err ==> w == v
            &&& !v.writable ==> r == Err::<u64, i32>(EROFS)
            &&& v.writable && name_error(name) is Some ==> r == Err::<u64, i32>(name_error(name)->0)
            &&& v.writable && name_error(name) is None && v.nodes.contains_key(parent) && !(type_at(
                v,
                parent,
            ) is Directory) ==> r == Err::<u64, i32>(ENOTDIR)
            &&& open && !allowed(v, parent, creds, Access::Write) ==> r == Err::<u64, i32>(EACCES)
            &&& may && !free ==> r == Err::<u64, i32>(EEXIST)
            &&& free && !counts ==> r == Err::<u64, i32>(EMLINK)
            &&& counts && !room ==> r == Err::<u64, i32>(ENOSPC)
            &&& room && !fits(es.push(new)) ==> r == Err::<u64, i32>(EFBIG)
            &&& r matches Ok(ino) ==> {
                let m = w.nodes[ino].meta;
                &&& ino == next_ino(v)
                &&& !v.nodes.contains_key(ino)
                &&& w.nodes.contains_key(ino)
                &&& w.nodes.contains_key(parent)
                &&& others_kept(v, w, ino, parent)
                &&& (m.mode, m.uid, m.gid, m.rdev) == (mode, uid, gid, rdev)
                &&& m.compression == v.default_compression
                &&& m.nlink == if dir {
                    2u32
                } else {
                    1
                }
                &&& (m.atime, m.mtime, m.ctime, m.btime) == (v.clock, v.clock, v.clock, v.clock)
                &&& w.nodes[ino].xattr.len() == 0
                &&& !dir ==> w.nodes[ino].data.len() == 0
                &&& dir ==> w.nodes[ino].data == dir_bytes(
                    seq![
                        DirItem { ino, file_type: FileType::Directory, name: seq![46u8] },
                        DirItem { ino: parent, file_type: FileType::Directory, name: seq![46u8, 46u8] },
                    ],
                )
                &&& w.nodes[parent].data == dir_bytes(es.push(new))
                &&& w.nodes[parent].xattr == v.nodes[parent].xattr
                &&& entries_changed(v.nodes[parent].meta, w.nodes[parent].meta, v.clock)
                &&& w.nodes[parent].meta.nlink == v.nodes[parent].meta.nlink + if dir {
                    1int
                } else {
                    0
                }
                &&& (w.opens, w.orphans) == (v.opens, v.orphans)
                &&& same_switches(v, w)
            }
        }),
{
    if let Ok(es) = dir_items(v, parent) {
        lemma_position_in(es, name);
    }
    assert(crate::path::dot() =~= seq![46u8]);
    assert(crate::path::dot_dot() =~= seq![46u8, 46u8]);
}

/// Whether an entry may go: a directory by `rmdir` alone, and only an empty one; all else by
/// `unlink` alone.
pub open spec fn may_go(v: FsView, ino: u64, ft: FileType, rmdir: bool) -> bool {
    if rmdir {
        &&& ft is Directory
        &&& dir_items(v, ino) matches Ok(es) && forall|k: int|
            0 <= k < es.len() ==> (#[trigger] es[k]).name == seq![46u8] || es[k].name == seq![
                46u8,
                46u8,
            ]
    } else {
        !(ft is Directory)
    }
}

/// When a name can be removed, and what becomes of the file that it stood for: the name goes, the
/// directory counts one directory less where it was one, and the file goes with its last name unless
/// it is open. Nothing else changes.
#[verifier::spinoff_prover]
#[verifier::rlimit(40)]
pub proof fn unlink_means(v: FsView, parent: u64, name: Seq<u8>, rmdir: bool, creds: CredsView)
    requires
        lookup_name(v, parent, name) matches Ok(Some((ino, _))) && v.nodes.contains_key(ino) && ino
            != parent,
    ensures
        ({
            let (w, r) = unlink_op(v, parent, name, rmdir, creds);
            let (ino, ft) = (lookup_name(v, parent, name)->Ok_0)->0;
            let es = dir_items(v, parent)->Ok_0;
            let k = position_of(es, name)->0;
            let open = v.writable && name_error(name) is None;
            let may = open && allowed(v, parent, creds, Access::Write) && sticky_op(
                v,
                parent,
                name,
                creds,
            ) is Ok;
            &&& r is Ok <==> may && may_go(v, ino, ft, rmdir) && fits(es.remove(k))
            &&& r is Err ==> w == v
            &&& !v.writable ==> r == Err::<(), i32>(EROFS)
            &&& v.writable && name_error(name) is Some ==> r == Err::<(), i32>(name_error(name)->0)
            &&& open && !may ==> r == Err::<(), i32>(EACCES)
            &&& may && rmdir && !(ft is Directory) ==> r == Err::<(), i32>(ENOTDIR)
            &&& may && !rmdir && ft is Directory ==> r == Err::<(), i32>(EISDIR)
            &&& may && rmdir && ft is Directory && dir_items(v, ino) is Ok && !may_go(
                v,
                ino,
                ft,
                rmdir,
            ) ==> r == Err::<(), i32>(ENOTEMPTY)
            &&& r is Ok ==> {
                let m = v.nodes[ino].meta;
                let p = v.nodes[parent].meta;
                let left: u32 = if type_at(v, ino) is Directory || m.nlink == 0 {
                    0
                } else {
                    (m.nlink - 1) as u32
                };
                let gone = left == 0 && opens_of(v, ino) == 0;
                &&& others_kept(v, w, ino, parent)
                &&& w.nodes.contains_key(parent)
                &&& w.nodes[parent].data == dir_bytes(es.remove(k))
                &&& w.nodes[parent].xattr == v.nodes[parent].xattr
                &&& entries_changed(p, w.nodes[parent].meta, v.clock)
                &&& !(ft is Directory) ==> w.nodes[parent].meta.nlink == p.nlink
                &&& ft is Directory && p.nlink > 0 ==> w.nodes[parent].meta.nlink == p.nlink - 1
                &&& gone <==> !w.nodes.contains_key(ino)
                &&& gone && ino >= 2 ==> next_ino(w) == ino
                &&& !gone ==> {
                    &&& w.nodes[ino].meta.nlink == left
                    &&& w.nodes[ino].meta.ctime == v.clock
                    &&& same_but_links(m, w.nodes[ino].meta)
                    &&& w.nodes[ino].data == v.nodes[ino].data
                    &&& w.nodes[ino].xattr == v.nodes[ino].xattr
                    &&& w.free_inodes == v.free_inodes
                }
                &&& w.orphans == if left == 0 && opens_of(v, ino) > 0 {
                    v.orphans.insert(ino)
                } else {
                    v.orphans
                }
                &&& w.opens == v.opens
                &&& w.next_inode == v.next_inode
                &&& same_switches(v, w)
            }
        }),
{
    sticky_bit_protects(v, parent, name, creds);
    let es = dir_items(v, parent)->Ok_0;
    lemma_position_in(es, name);
    assert(crate::path::dot() =~= seq![46u8]);
    assert(crate::path::dot_dot() =~= seq![46u8, 46u8]);
}

/// A name that is not there cannot be removed.
pub proof fn unlink_needs_the_name(v: FsView, parent: u64, name: Seq<u8>, rmdir: bool, creds: CredsView)
    requires
        lookup_name(v, parent, name) == Ok::<Option<(u64, FileType)>, i32>(None),
    ensures
        unlink_op(v, parent, name, rmdir, creds).0 == v,
        unlink_op(v, parent, name, rmdir, creds).1 is Err,
        v.writable && name_error(name) is None && allowed(v, parent, creds, Access::Write)
            ==> unlink_op(v, parent, name, rmdir, creds).1 == Err::<(), i32>(ENOENT),
{
}

/// When a file can get one more name, and what that changes: the entry at the end of the directory,
/// and the count of names.
#[verifier::spinoff_prover]
#[verifier::rlimit(40)]
pub proof fn link_means(v: FsView, target: u64, parent: u64, name: Seq<u8>, creds: CredsView)
    requires
        v.nodes.contains_key(target),
        dir_items(v, parent) is Ok,
    ensures
        ({
            let (w, r) = link_op(v, target, parent, name, creds);
            let es = dir_items(v, parent)->Ok_0;
            let new = DirItem { ino: target, file_type: type_at(v, target), name };
            let open = v.writable && name_error(name) is None;
            let file = open && !(type_at(v, target) is Directory);
            let may = file && allowed(v, parent, creds, Access::Write);
            let free = may && lookup_name(v, parent, name) == Ok::<Option<(u64, FileType)>, i32>(
                None,
            );
            let counts = free && v.nodes[target].meta.nlink < 0xffff_ffff;
            &&& r is Ok <==> counts && fits(es.push(new))
            &&& r is Err ==> w == v
            &&& !v.writable ==> r == Err::<(), i32>(EROFS)
            &&& v.writable && name_error(name) is Some ==> r == Err::<(), i32>(name_error(name)->0)
            &&& open && !file ==> r == Err::<(), i32>(EPERM)
            &&& file && !may ==> r == Err::<(), i32>(EACCES)
            &&& may && !free ==> r == Err::<(), i32>(EEXIST)
            &&& free && !counts ==> r == Err::<(), i32>(EMLINK)
            &&& counts && !fits(es.push(new)) ==> r == Err::<(), i32>(EFBIG)
            &&& r is Ok ==> {
                let m = v.nodes[target].meta;
                &&& others_kept(v, w, target, parent)
                &&& w.nodes.contains_key(target)
                &&& w.nodes.contains_key(parent)
                &&& w.nodes[parent].data == dir_bytes(es.push(new))
                &&& w.nodes[parent].xattr == v.nodes[parent].xattr
                &&& entries_changed(v.nodes[parent].meta, w.nodes[parent].meta, v.clock)
                &&& w.nodes[parent].meta.nlink == v.nodes[parent].meta.nlink
                &&& w.nodes[target].meta.nlink == m.nlink + 1
                &&& w.nodes[target].meta.ctime == v.clock
                &&& same_but_links(m, w.nodes[target].meta)
                &&& w.nodes[target].data == v.nodes[target].data
                &&& w.nodes[target].xattr == v.nodes[target].xattr
                &&& (w.opens, w.orphans, w.free_inodes, w.next_inode) == (
                    v.opens,
                    v.orphans,
                    v.free_inodes,
                    v.next_inode,
                )
                &&& same_switches(v, w)
            }
        }),
{
    lemma_position_in(dir_items(v, parent)->Ok_0, name);
}

/// The entry `..` of directory `dir` is directory `up`.
pub open spec fn has_parent(v: FsView, dir: u64, up: u64) -> bool {
    lookup_name(v, dir, seq![46u8, 46u8]) matches Ok(Some((p, _))) && p == up
}

/// A way up: each directory has the next one as its `..`.
pub open spec fn climbs(v: FsView, way: Seq<u64>) -> bool {
    forall|i: int|
        0 <= i < way.len() - 1 ==> has_parent(v, #[trigger] way[i], way[i + 1])
}

/// A directory lies above another one exactly where the way up from there comes by it before the
/// root.
pub proof fn above_is_on_the_way_up(v: FsView, dir: u64, way: Seq<u64>, n: nat)
    requires
        1 <= way.len() <= n + 1,
        climbs(v, way),
        forall|i: int| 0 <= i < way.len() - 1 ==> #[trigger] way[i] != 1 && way[i] != dir,
    ensures
        way.last() == dir ==> is_above(v, dir, way[0], n) == Ok::<bool, i32>(true),
        way.last() == 1 && dir != 1 ==> is_above(v, dir, way[0], n) == Ok::<bool, i32>(false),
    decreases way.len(),
{
    if way.len() > 1 {
        let rest = way.drop_first();
        assert forall|i: int| 0 <= i < rest.len() - 1 implies has_parent(
            v,
            #[trigger] rest[i],
            rest[i + 1],
        ) by {
            assert(rest[i] == way[i + 1]);
        }
        assert forall|i: int| 0 <= i < rest.len() - 1 implies #[trigger] rest[i] != 1 && rest[i]
            != dir by {
            assert(rest[i] == way[i + 1]);
        }
        above_is_on_the_way_up(v, dir, rest, (n - 1) as nat);
        assert(way[0] != 1 && way[0] != dir);
        assert(crate::path::dot_dot() =~= seq![46u8, 46u8]);
    }
}

/// A directory cannot be moved into itself, nor to any place below it.
pub proof fn directory_stays_out_of_itself(
    v: FsView,
    old_parent: u64,
    old_name: Seq<u8>,
    new_parent: u64,
    new_name: Seq<u8>,
    creds: CredsView,
    way: Seq<u64>,
)
    requires
        lookup_name(v, old_parent, old_name) matches Ok(Some((src, ft))) && ft is Directory
            && way.last() == src,
        old_parent != new_parent || old_name != new_name,
        1 <= way.len() <= 4097,
        way[0] == new_parent,
        climbs(v, way),
        forall|i: int| 0 <= i < way.len() - 1 ==> #[trigger] way[i] != 1 && way[i] != way.last(),
    ensures
        rename_op(v, old_parent, old_name, new_parent, new_name, creds).0 == v,
        rename_op(v, old_parent, old_name, new_parent, new_name, creds).1 is Err,
        v.writable && name_error(old_name) is None && name_error(new_name) is None
            && v.nodes.contains_key(new_parent) && allowed(v, old_parent, creds, Access::Write)
            && allowed(v, new_parent, creds, Access::Write) ==> rename_op(
            v,
            old_parent,
            old_name,
            new_parent,
            new_name,
            creds,
        ).1 == Err::<(), i32>(EINVAL),
{
    above_is_on_the_way_up(v, way.last(), way, 4096);
}

/// Renaming is refused before anything changes: what is not there, what may not be written, a
/// directory in the place of another file, a file in the place of a directory, and anything in the
/// place of a directory that is not empty.
#[verifier::spinoff_prover]
#[verifier::rlimit(60)]
pub proof fn rename_refuses(
    v: FsView,
    old_parent: u64,
    old_name: Seq<u8>,
    new_parent: u64,
    new_name: Seq<u8>,
    creds: CredsView,
)
    ensures
        ({
            let (w, r) = rename_op(v, old_parent, old_name, new_parent, new_name, creds);
            let open = v.writable && name_error(old_name) is None && name_error(new_name) is None
                && v.nodes.contains_key(old_parent) && v.nodes.contains_key(new_parent);
            let may = open && allowed(v, old_parent, creds, Access::Write) && allowed(
                v,
                new_parent,
                creds,
                Access::Write,
            );
            let there = lookup_name(v, old_parent, old_name) matches Ok(Some(_));
            let (src, sft) = (lookup_name(v, old_parent, old_name)->Ok_0)->0;
            let over = lookup_name(v, new_parent, new_name) matches Ok(Some(_));
            let (dst, dft) = (lookup_name(v, new_parent, new_name)->Ok_0)->0;
            &&& !v.writable ==> r == Err::<(), i32>(EROFS)
            &&& v.writable && name_error(old_name) is Some ==> r == Err::<(), i32>(
                name_error(old_name)->0,
            )
            &&& v.writable && name_error(old_name) is None && name_error(new_name) is Some ==> r
                == Err::<(), i32>(name_error(new_name)->0)
            &&& open && !may ==> r == Err::<(), i32>(EACCES)
            &&& may && lookup_name(v, old_parent, old_name) == Ok::<Option<(u64, FileType)>, i32>(
                None,
            ) ==> r == Err::<(), i32>(ENOENT)
            &&& !may || !there ==> r is Err && w == v
            &&& may && there && old_parent == new_parent && old_name == new_name ==> r is Ok && w
                == v
            &&& may && there && over && src == dst && !(sft is Directory) ==> r is Ok && w == v
            &&& may && there && over && src != dst && !(sft is Directory) && dft is Directory ==> r
                == Err::<(), i32>(EISDIR) && w == v
            &&& may && there && over && src != dst && sft is Directory && !(dft is Directory) ==> r
                is Err && w == v
            &&& may && there && over && src != dst && sft is Directory && !(dft is Directory)
                && is_above(v, src, new_parent, 4096) == Ok::<bool, i32>(false) ==> r == Err::<
                (),
                i32,
            >(ENOTDIR)
            &&& may && there && over && src != dst && sft is Directory && dft is Directory
                && is_above(v, src, new_parent, 4096) == Ok::<bool, i32>(false) && dir_items(v, dst)
                is Ok && !may_go(v, dst, dft, true) ==> r == Err::<(), i32>(ENOTEMPTY) && w == v
        }),
{
    assert(crate::path::dot() =~= seq![46u8]);
    assert(crate::path::dot_dot() =~= seq![46u8, 46u8]);
}

/// What a rename to a new name changes: the old directory loses the entry and the new one gets it at
/// its end. A directory that moves to another directory has that one as its `..`, and the two count
/// it accordingly. Nothing else changes.
#[verifier::spinoff_prover]
#[verifier::rlimit(60)]
pub proof fn rename_moves(
    v: FsView,
    old_parent: u64,
    old_name: Seq<u8>,
    new_parent: u64,
    new_name: Seq<u8>,
    creds: CredsView,
)
    requires
        rename_op(v, old_parent, old_name, new_parent, new_name, creds).1 is Ok,
        lookup_name(v, new_parent, new_name) == Ok::<Option<(u64, FileType)>, i32>(None),
        lookup_name(v, old_parent, old_name) matches Ok(Some((src, ft))) && src != old_parent && src
            != new_parent,
        old_parent != new_parent,
    ensures
        ({
            let w = rename_op(v, old_parent, old_name, new_parent, new_name, creds).0;
            let (src, ft) = (lookup_name(v, old_parent, old_name)->Ok_0)->0;
            let from = dir_items(v, old_parent)->Ok_0;
            let to = dir_items(v, new_parent)->Ok_0;
            let k = position_of(from, old_name)->0;
            let p = v.nodes[old_parent].meta;
            let q = v.nodes[new_parent].meta;
            &&& w.nodes[old_parent].data == dir_bytes(from.remove(k))
            &&& w.nodes[new_parent].data == dir_bytes(
                to.push(DirItem { ino: src, file_type: ft, name: new_name }),
            )
            &&& entries_changed(p, w.nodes[old_parent].meta, v.clock)
            &&& entries_changed(q, w.nodes[new_parent].meta, v.clock)
            &&& !(ft is Directory) ==> {
                &&& w.nodes[old_parent].meta.nlink == p.nlink
                &&& w.nodes[new_parent].meta.nlink == q.nlink
                &&& others_kept(v, w, old_parent, new_parent)
            }
            &&& ft is Directory ==> {
                let es = dir_items(v, src)->Ok_0;
                &&& p.nlink > 0 ==> w.nodes[old_parent].meta.nlink == p.nlink - 1
                &&& w.nodes[new_parent].meta.nlink == q.nlink + 1
                &&& dir_items(v, src) is Ok
                &&& exists|fs: Seq<DirItem>|
                    {
                        &&& w.nodes[src].data == #[trigger] dir_bytes(fs)
                        &&& fs.len() == es.len()
                        &&& forall|i: int|
                            0 <= i < fs.len() ==> (#[trigger] fs[i]).name == es[i].name
                                && fs[i].file_type == es[i].file_type && fs[i].ino == if es[i].name
                                == seq![46u8, 46u8] {
                                new_parent
                            } else {
                                es[i].ino
                            }
                    }
                &&& forall|x: u64|
                    x != old_parent && x != new_parent && x != src ==> (
                    #[trigger] w.nodes.contains_key(x) <==> v.nodes.contains_key(x)) && (
                    v.nodes.contains_key(x) ==> w.nodes[x] == v.nodes[x])
            }
            &&& (w.opens, w.orphans, w.free_inodes, w.next_inode) == (
                v.opens,
                v.orphans,
                v.free_inodes,
                v.next_inode,
            )
            &&& same_switches(v, w)
        }),
{
    let (src, ft) = (lookup_name(v, old_parent, old_name)->Ok_0)->0;
    let w = rename_op(v, old_parent, old_name, new_parent, new_name, creds).0;
    let x = dir_remove_op(v, old_parent, old_name).0;
    lemma_position_in(dir_items(v, old_parent)->Ok_0, old_name);
    assert(x.nodes[new_parent] == v.nodes[new_parent]);
    assert(dir_items(x, new_parent) == dir_items(v, new_parent));
    assert(crate::path::dot_dot() =~= seq![46u8, 46u8]);
    if ft is Directory {
        let y = crate::ops::dir_insert_op(x, new_parent, new_name, src, ft).0;
        assert(y.nodes.contains_key(src) ==> y.nodes[src] == v.nodes[src]);
        assert(dir_items(y, src) == dir_items(v, src));
        let fs = crate::ops::reparented(dir_items(v, src)->Ok_0, new_parent);
        assert(w.nodes[src].data == dir_bytes(fs));
    }
}

/// What a rename over another file does to that file: it loses the name, and goes with its last one
/// unless it is open.
#[verifier::spinoff_prover]
#[verifier::rlimit(60)]
pub proof fn rename_drops_the_other(
    v: FsView,
    old_parent: u64,
    old_name: Seq<u8>,
    new_parent: u64,
    new_name: Seq<u8>,
    creds: CredsView,
)
    requires
        rename_op(v, old_parent, old_name, new_parent, new_name, creds).1 is Ok,
        lookup_name(v, new_parent, new_name) matches Ok(Some((dst, ft))) && v.nodes.contains_key(dst)
            && dst != old_parent && dst != new_parent && Some(dst) != inode_of(
            lookup_name(v, old_parent, old_name),
        ),
        !(((lookup_name(v, old_parent, old_name)->Ok_0)->0).1 is Directory),
    ensures
        ({
            let w = rename_op(v, old_parent, old_name, new_parent, new_name, creds).0;
            let dst = ((lookup_name(v, new_parent, new_name)->Ok_0)->0).0;
            let m = v.nodes[dst].meta;
            let left: u32 = if type_at(v, dst) is Directory || m.nlink == 0 {
                0
            } else {
                (m.nlink - 1) as u32
            };
            &&& left == 0 && opens_of(v, dst) == 0 <==> !w.nodes.contains_key(dst)
            &&& w.nodes.contains_key(dst) ==> w.nodes[dst].meta.nlink == left && w.nodes[dst].data
                == v.nodes[dst].data && same_but_links(m, w.nodes[dst].meta)
            &&& left == 0 && opens_of(v, dst) > 0 ==> w.orphans.contains(dst)
            &&& forall|x: u64|
                x != old_parent && x != new_parent && x != dst ==> (#[trigger] w.nodes.contains_key(
                    x,
                ) <==> v.nodes.contains_key(x)) && (v.nodes.contains_key(x) ==> w.nodes[x]
                    == v.nodes[x])
            &&& w.opens == v.opens
            &&& same_switches(v, w)
        }),
{
    assert(rename_check(v, old_parent, old_name, new_parent, new_name, creds) == Ok::<bool, i32>(
        true,
    ));
    let (dst, dft) = (lookup_name(v, new_parent, new_name)->Ok_0)->0;
    unlink_means(v, new_parent, new_name, dft is Directory, creds);
}

} // verus!
