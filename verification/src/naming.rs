//! What holds across calls that create, move and remove names.

use vstd::prelude::*;

use crate::calls::{
    chmod_at, copy_at, create_at, find, find_file, link_at, mkdir_all, mkdir_at, open_at,
    read_at_path, read_dir_at, read_link_at, reading, remove_all, remove_items, removexattr_at,
    rename_at, setxattr_at, stat_at, symlink_at, top, truncate_at, unlink_at, write_at_path, Place,
};
use crate::context::{openat_op, ContextView};
use crate::dir::{dir_bytes, dir_roundtrip, lemma_parsed_names, DirItem};
use crate::error::{Error, ELOOP};
use crate::file::options_of;
use crate::laws::{
    entry_is_found, in_memory, lemma_created, lemma_meta_changed, lemma_position_in,
    lemma_position_push, lemma_read_found, lemma_write_leaves, one_more, orphans_open, rooted,
    same_step, same_tree, tidy, walks_agree,
};
use crate::model::FsView;
use crate::ops::{
    allowed, behind_link, create_child_op, dec_open_op, dir_items, dir_remove_op, dot_items,
    inc_open_op, links_left, lookup_name, next_ino, opens_of, position_of, rename_check, rename_op,
    reparented, type_at, unlink_op, walk_parts, walk_path, whole, Found, Outcome,
};
use crate::path::{
    absolute, dot, dot_dot, lemma_name_len, lemma_name_len_is, name_len, parts, path_parts, Part,
    DOT, SLASH, SYMLOOP_MAX,
};
use crate::types::{
    lemma_some_mode, masked_mode, type_of_mode, Access, CredsView, FileType, MODE_PERM, S_IFDIR,
    S_IFLNK, S_IFMT, S_IFREG,
};
use crate::inner::Inner;
use crate::data::done;

verus! {

/// A new directory is found under its path, and holds nothing but `.` and `..`.
pub proof fn new_directory_is_empty(v: FsView, at: Place, path: Seq<u8>, mode: u16, umask: u16)
    requires
        tidy(v),
        mkdir_at(v, at, path, mode, umask).1 is Ok,
        in_memory(mkdir_at(v, at, path, mode, umask).0),
    ensures
        ({
            let w = mkdir_at(v, at, path, mode, umask).0;
            let ino = next_ino(v);
            &&& find_file(w, at, path, true) == Ok::<u64, i32>(ino)
            &&& w.nodes.contains_key(ino)
            &&& type_at(w, ino) is Directory
            &&& read_dir_at(w, at, path) == Ok::<Seq<DirItem>, i32>(
                dot_items(ino, (find(v, at, path, true)->Ok_0).parent),
            )
        }),
{
    let full = S_IFDIR | masked_mode(mode, umask);
    lemma_dir_mode(mode, umask);
    let f = find(v, at, path, true)->Ok_0;
    lemma_created(v, at, f, full, at.creds.fsuid, at.creds.fsgid, 0);
    let w = mkdir_at(v, at, path, mode, umask).0;
    let e = DirItem { ino: next_ino(v), file_type: type_of_mode(full), name: f.name };
    entry_is_found(v, w, f.parent, e, at.root, at.cwd, path, true, at.creds, 0);
}

proof fn lemma_dir_mode(mode: u16, umask: u16)
    ensures
        type_of_mode(S_IFDIR | masked_mode(mode, umask)) is Directory,
        type_of_mode(S_IFREG | masked_mode(mode, umask)) is File,
        type_of_mode(S_IFLNK | 0o777) is Symlink,
{
    assert((0o040000u16 | ((mode & 0o7777u16) & !umask)) & 0o170000u16 == 0o040000u16)
        by (bit_vector);
    assert((0o100000u16 | ((mode & 0o7777u16) & !umask)) & 0o170000u16 == 0o100000u16)
        by (bit_vector);
    assert((0o120000u16 | 0o777u16) & 0o170000u16 == 0o120000u16) by (bit_vector);
}

proof fn lemma_symlink_found(v: FsView, at: Place, target: Seq<u8>, path: Seq<u8>)
    requires
        tidy(v),
        symlink_at(v, at, target, path).1 is Ok,
        in_memory(symlink_at(v, at, target, path).0),
    ensures
        ({
            let w = symlink_at(v, at, target, path).0;
            let f = find(v, at, path, false)->Ok_0;
            let ino = next_ino(v);
            &&& find(w, at, path, false) == Ok::<Found, i32>(
                Found { parent: f.parent, name: f.name, ino: Some(ino) },
            )
            &&& f.name.len() > 0
            &&& f.name != dot_dot()
            &&& w.nodes.contains_key(ino)
            &&& type_at(w, ino) is Symlink
            &&& whole(w, ino) == Ok::<Seq<u8>, i32>(target)
        }),
{
    lemma_dir_mode(0, 0);
    let mode = S_IFLNK | 0o777;
    let f = find(v, at, path, false)->Ok_0;
    let (w0, r0) = create_at(v, at, path, false, mode, 0);
    let w = symlink_at(v, at, target, path).0;
    let ino = next_ino(v);
    assert(in_memory(w0)) by {
        assert forall|x: u64| #[trigger] w0.nodes.contains_key(x) implies w0.nodes[x].data.len()
            <= usize::MAX by {
            assert(w.nodes.contains_key(x));
        }
    }
    lemma_created(v, at, f, mode, at.creds.fsuid, at.creds.fsgid, 0);
    let e = DirItem { ino, file_type: type_of_mode(mode), name: f.name };
    assert(w.nodes[ino].data =~= target);
    assert(one_more(v, w, f.parent, e, at.creds)) by {
        assert forall|x: u64| #[trigger] v.nodes.contains_key(x) implies w.nodes.contains_key(x) && (
        x == f.parent ==> type_at(w, x) == type_at(v, x) && allowed(w, x, at.creds, Access::Exec)
            == allowed(v, x, at.creds, Access::Exec)) && (x != f.parent ==> same_step(
            v,
            w,
            x,
            at.creds,
        )) by {
            assert(w0.nodes.contains_key(x));
            assert(w.nodes[x] == w0.nodes[x]);
            if x != f.parent {
                assert(same_step(v, w0, x, at.creds));
            }
        }
    }
    entry_is_found(v, w, f.parent, e, at.root, at.cwd, path, false, at.creds, 0);
}

/// A symbolic link reads as the target that it was created with.
pub proof fn read_link_after_symlink(v: FsView, at: Place, target: Seq<u8>, path: Seq<u8>)
    requires
        tidy(v),
        symlink_at(v, at, target, path).1 is Ok,
        in_memory(symlink_at(v, at, target, path).0),
    ensures
        read_link_at(symlink_at(v, at, target, path).0, at, path) == Ok::<Seq<u8>, i32>(target),
{
    lemma_symlink_found(v, at, target, path);
}

/// What following a link with the given target, found in directory `dir`, leads to; `hops` links
/// were followed already.
pub open spec fn through_link(
    v: FsView,
    root: u64,
    dir: u64,
    target: Seq<u8>,
    creds: CredsView,
    hops: nat,
) -> Outcome<Found> {
    if hops >= SYMLOOP_MAX {
        Err(ELOOP)
    } else {
        walk_path(v, root, dir, target, true, creds, hops + 1)
    }
}

/// Where a path ends at the name of a symbolic link, following it leads where the target of the
/// link leads from the directory that the link is in. `n` links were followed by then.
pub proof fn link_is_followed(
    v: FsView,
    root: u64,
    cwd: u64,
    path: Seq<u8>,
    creds: CredsView,
    hops: nat,
) -> (n: nat)
    requires
        walk_path(v, root, cwd, path, false, creds, hops) matches Ok(f) && f.name.len() > 0
            && f.name != dot_dot() && f.ino is Some && type_at(v, f.ino->0) is Symlink && whole(
            v,
            f.ino->0,
        ) is Ok,
    ensures
        hops <= n,
        ({
            let f = walk_path(v, root, cwd, path, false, creds, hops)->Ok_0;
            walk_path(v, root, cwd, path, true, creds, hops) == through_link(
                v,
                root,
                f.parent,
                whole(v, f.ino->0)->Ok_0,
                creds,
                n,
            )
        }),
    decreases SYMLOOP_MAX - hops, 1int, 0int,
{
    let dir = if absolute(path) {
        root
    } else {
        cwd
    };
    lemma_link_at_end(v, root, dir, path_parts(path), creds, hops)
}

proof fn lemma_link_at_end(
    v: FsView,
    root: u64,
    dir: u64,
    comps: Seq<Part>,
    creds: CredsView,
    hops: nat,
) -> (n: nat)
    requires
        walk_parts(v, root, dir, comps, false, creds, hops) matches Ok(f) && f.name.len() > 0
            && f.name != dot_dot() && f.ino is Some && type_at(v, f.ino->0) is Symlink && whole(
            v,
            f.ino->0,
        ) is Ok,
    ensures
        hops <= n,
        ({
            let f = walk_parts(v, root, dir, comps, false, creds, hops)->Ok_0;
            walk_parts(v, root, dir, comps, true, creds, hops) == through_link(
                v,
                root,
                f.parent,
                whole(v, f.ino->0)->Ok_0,
                creds,
                n,
            )
        }),
    decreases SYMLOOP_MAX - hops, 0int, comps.len(),
{
    let last = comps.len() == 1;
    let rest = comps.drop_first();
    match comps[0] {
        Part::RootDir => lemma_link_at_end(v, root, root, rest, creds, hops),
        Part::CurDir => lemma_link_at_end(v, root, dir, rest, creds, hops),
        Part::ParentDir => {
            let up = if dir == root {
                Ok(None)
            } else {
                lookup_name(v, dir, dot_dot())
            };
            let d = match up->Ok_0 {
                Some((p, _)) => p,
                None => dir,
            };
            lemma_link_at_end(v, root, d, rest, creds, hops)
        },
        Part::Normal(name) => {
            let ino = (lookup_name(v, dir, name)->Ok_0->0).0;
            if last {
                hops
            } else if type_at(v, ino) is Symlink {
                let target = whole(v, ino)->Ok_0;
                link_is_followed(v, root, dir, behind_link(target, rest), creds, hops + 1)
            } else {
                lemma_link_at_end(v, root, ino, rest, creds, hops)
            }
        },
    }
}

/// A new symbolic link leads where its target leads from the directory that the link is in; `n`
/// links are followed on the way to it.
pub proof fn symlink_leads_to_target(v: FsView, at: Place, target: Seq<u8>, path: Seq<u8>) -> (n:
    nat)
    requires
        tidy(v),
        symlink_at(v, at, target, path).1 is Ok,
        in_memory(symlink_at(v, at, target, path).0),
    ensures
        ({
            let w = symlink_at(v, at, target, path).0;
            let dir = find(v, at, path, false)->Ok_0.parent;
            find(w, at, path, true) == through_link(w, at.root, dir, target, at.creds, n)
        }),
{
    lemma_symlink_found(v, at, target, path);
    link_is_followed(symlink_at(v, at, target, path).0, at.root, at.cwd, path, at.creds, 0)
}

/// A hard link is one more path to the same file, which counts one more name.
pub proof fn hard_link_is_same_file(v: FsView, at: Place, from: Seq<u8>, to: Seq<u8>)
    requires
        link_at(v, at, from, to).1 is Ok,
        in_memory(link_at(v, at, from, to).0),
    ensures
        ({
            let w = link_at(v, at, from, to).0;
            let ino = find_file(v, at, from, true)->Ok_0;
            &&& find_file(w, at, to, false) == Ok::<u64, i32>(ino)
            &&& !(type_at(v, ino) is Symlink) ==> find_file(w, at, from, true) == Ok::<u64, i32>(
                ino,
            )
            &&& w.nodes[ino].data == v.nodes[ino].data
            &&& w.nodes[ino].meta.nlink == v.nodes[ino].meta.nlink + 1
        }),
{
    let w = link_at(v, at, from, to).0;
    let ino = find_file(v, at, from, true)->Ok_0;
    let f = find(v, at, to, false)->Ok_0;
    let es = dir_items(v, f.parent)->Ok_0;
    let e = DirItem { ino, file_type: type_at(v, ino), name: f.name };
    let all = es.push(e);
    lemma_parsed_names(v.nodes[f.parent].data);
    assert forall|i: int| 0 <= i < all.len() implies (#[trigger] all[i]).name.len() <= 0xffff by {
        if i < es.len() {
            assert(all[i] == es[i]);
        }
    }
    dir_roundtrip(all);
    assert(ino != f.parent);
    assert(w.nodes.contains_key(f.parent));
    assert(w.nodes[f.parent].data == dir_bytes(all));
    assert(dir_items(w, f.parent) == Ok::<Seq<DirItem>, i32>(all));
    assert(one_more(v, w, f.parent, e, at.creds)) by {
        assert forall|x: u64| #[trigger] v.nodes.contains_key(x) implies w.nodes.contains_key(x) && (
        x == f.parent ==> type_at(w, x) == type_at(v, x) && allowed(w, x, at.creds, Access::Exec)
            == allowed(v, x, at.creds, Access::Exec)) && (x != f.parent ==> same_step(
            v,
            w,
            x,
            at.creds,
        )) by {}
    }
    entry_is_found(v, w, f.parent, e, at.root, at.cwd, to, false, at.creds, 0);
    if !(type_at(v, ino) is Symlink) {
        entry_is_found(v, w, f.parent, e, at.root, at.cwd, from, true, at.creds, 0);
    }
}

/// No two entries have the same name.
pub open spec fn names_differ(es: Seq<DirItem>) -> bool {
    forall|i: int, j: int|
        0 <= i < es.len() && 0 <= j < es.len() && i != j ==> (#[trigger] es[i]).name != (
        #[trigger] es[j]).name
}

/// Where no entry has a name, it has no position.
pub proof fn lemma_no_position(es: Seq<DirItem>, name: Seq<u8>)
    ensures
        position_of(es, name) is None <==> forall|i: int|
            0 <= i < es.len() ==> (#[trigger] es[i]).name != name,
    decreases es.len(),
{
    if es.len() > 0 {
        lemma_no_position(es.drop_last(), name);
        lemma_position_in(es, name);
        if position_of(es, name) is None {
            assert forall|i: int| 0 <= i < es.len() implies (#[trigger] es[i]).name != name by {
                if i < es.len() - 1 {
                    assert(es.drop_last()[i] == es[i]);
                }
            }
        }
        if forall|i: int| 0 <= i < es.len() ==> (#[trigger] es[i]).name != name {
            assert forall|i: int| 0 <= i < es.drop_last().len() implies (#[trigger] es.drop_last()[i]).name
                != name by {
                assert(es[i].name != name);
            }
        }
    }
}

/// What a directory holds after an entry was removed: all others, and names that differ as before.
proof fn lemma_removed_items(v: FsView, dir: u64, name: Seq<u8>)
    requires
        dir_remove_op(v, dir, name).1 is Ok,
        names_differ(dir_items(v, dir)->Ok_0),
        dir_remove_op(v, dir, name).0.nodes[dir].data.len() <= usize::MAX,
    ensures
        ({
            let w = dir_remove_op(v, dir, name).0;
            let es = dir_items(v, dir)->Ok_0;
            let k = position_of(es, name)->0;
            &&& dir_items(w, dir) == Ok::<Seq<DirItem>, i32>(es.remove(k))
            &&& lookup_name(w, dir, name) == Ok::<Option<(u64, FileType)>, i32>(None)
            &&& names_differ(es.remove(k))
            &&& w.nodes == v.nodes.insert(dir, w.nodes[dir])
            &&& w.nodes[dir].meta.mode == v.nodes[dir].meta.mode
            &&& w.opens == v.opens && w.orphans == v.orphans && w.writable == v.writable
        }),
{
    let w = dir_remove_op(v, dir, name).0;
    let es = dir_items(v, dir)->Ok_0;
    let k = position_of(es, name)->0;
    lemma_position_in(es, name);
    let rest = es.remove(k);
    lemma_parsed_names(v.nodes[dir].data);
    assert forall|i: int| 0 <= i < rest.len() implies (#[trigger] rest[i]).name.len() <= 0xffff
        && rest[i].name != name by {
        let j = if i < k {
            i
        } else {
            i + 1
        };
        assert(rest[i] == es[j]);
        assert(es[j].name != es[k].name);
    }
    assert(names_differ(rest)) by {
        assert forall|i: int, j: int|
            0 <= i < rest.len() && 0 <= j < rest.len() && i != j implies (#[trigger] rest[i]).name
            != (#[trigger] rest[j]).name by {
            let a = if i < k {
                i
            } else {
                i + 1
            };
            let b = if j < k {
                j
            } else {
                j + 1
            };
            assert(rest[i] == es[a]);
            assert(rest[j] == es[b]);
        }
    }
    dir_roundtrip(rest);
    lemma_no_position(rest, name);
    assert(w.nodes[dir].data == dir_bytes(rest));
    assert(w.nodes.contains_key(dir));
    assert(dir_items(w, dir) == Ok::<Seq<DirItem>, i32>(rest));
}

/// A name that was removed is gone from its directory. The file stays, with all that it holds,
/// where it has other names or is open.
pub proof fn removed_name_is_gone(v: FsView, parent: u64, name: Seq<u8>, creds: CredsView)
    requires
        unlink_op(v, parent, name, false, creds).1 is Ok,
        names_differ(dir_items(v, parent)->Ok_0),
        in_memory(dir_remove_op(v, parent, name).0),
        ((lookup_name(v, parent, name)->Ok_0)->0).0 != parent,
    ensures
        ({
            let w = unlink_op(v, parent, name, false, creds).0;
            let ino = ((lookup_name(v, parent, name)->Ok_0)->0).0;
            &&& lookup_name(w, parent, name) == Ok::<Option<(u64, FileType)>, i32>(None)
            &&& links_left(v.nodes[ino].meta) > 0 || opens_of(v, ino) > 0 ==> w.nodes.contains_key(
                ino,
            ) && w.nodes[ino].data == v.nodes[ino].data
            &&& links_left(v.nodes[ino].meta) == 0 && opens_of(v, ino) == 0
                ==> !w.nodes.contains_key(ino)
        }),
{
    let w = unlink_op(v, parent, name, false, creds).0;
    let ino = ((lookup_name(v, parent, name)->Ok_0)->0).0;
    let x = dir_remove_op(v, parent, name).0;
    lemma_removed_items(v, parent, name);
    assert(x.nodes[ino] == v.nodes[ino]);
    assert(w.nodes.contains_key(parent) && w.nodes[parent] == x.nodes[parent]);
    assert(dir_items(w, parent) == dir_items(x, parent));
}

/// A directory that was removed is gone, unless it is open.
pub proof fn removed_directory_is_gone(v: FsView, parent: u64, name: Seq<u8>, creds: CredsView)
    requires
        unlink_op(v, parent, name, true, creds).1 is Ok,
        ((lookup_name(v, parent, name)->Ok_0)->0).0 != parent,
        type_at(v, ((lookup_name(v, parent, name)->Ok_0)->0).0) is Directory,
    ensures
        ({
            let w = unlink_op(v, parent, name, true, creds).0;
            let ino = ((lookup_name(v, parent, name)->Ok_0)->0).0;
            &&& opens_of(v, ino) == 0 ==> !w.nodes.contains_key(ino)
            &&& opens_of(v, ino) > 0 ==> w.orphans.contains(ino)
        }),
{
}

/// A file that lost its last name while it was open goes with its last handle.
pub proof fn last_close_removes(v: FsView, ino: u64)
    requires
        v.writable,
        v.orphans.contains(ino),
        opens_of(v, ino) == 1,
        v.nodes.contains_key(ino),
        v.nodes[ino].meta.nlink == 0,
    ensures
        !dec_open_op(v, ino).0.nodes.contains_key(ino),
        !dec_open_op(v, ino).0.orphans.contains(ino),
{
}

/// The inode that was found under a name.
pub open spec fn inode_of(r: Outcome<Option<(u64, FileType)>>) -> Option<u64> {
    match r {
        Ok(Some((ino, _))) => Some(ino),
        _ => None,
    }
}

/// A file stands under its new name after a rename, and under no old one; it holds what it held, but
/// for the `..` of a directory that moved to another one.
pub proof fn renamed_file_moves(
    v: FsView,
    old_parent: u64,
    old_name: Seq<u8>,
    new_parent: u64,
    new_name: Seq<u8>,
    creds: CredsView,
)
    requires
        rename_op(v, old_parent, old_name, new_parent, new_name, creds).1 is Ok,
        lookup_name(v, new_parent, new_name) == Ok::<Option<(u64, FileType)>, i32>(None),
        lookup_name(v, old_parent, old_name) matches Ok(Some((src, ft))) && src != old_parent && src
            != new_parent,
        names_differ(dir_items(v, old_parent)->Ok_0),
        in_memory(dir_remove_op(v, old_parent, old_name).0),
        in_memory(rename_op(v, old_parent, old_name, new_parent, new_name, creds).0),
    ensures
        ({
            let w = rename_op(v, old_parent, old_name, new_parent, new_name, creds).0;
            let (src, ft) = (lookup_name(v, old_parent, old_name)->Ok_0)->0;
            &&& lookup_name(w, new_parent, new_name) == Ok::<Option<(u64, FileType)>, i32>(
                Some((src, ft)),
            )
            &&& lookup_name(w, old_parent, old_name) == Ok::<Option<(u64, FileType)>, i32>(None)
            &&& v.nodes.contains_key(src) ==> w.nodes.contains_key(src)
            &&& v.nodes.contains_key(src) && (!(ft is Directory) || old_parent == new_parent)
                ==> w.nodes[src] == v.nodes[src]
            &&& v.nodes.contains_key(src) && ft is Directory && old_parent != new_parent
                ==> w.nodes[src].data == dir_bytes(
                reparented(dir_items(v, src)->Ok_0, new_parent),
            )
        }),
{
    let w = rename_op(v, old_parent, old_name, new_parent, new_name, creds).0;
    let (src, ft) = (lookup_name(v, old_parent, old_name)->Ok_0)->0;
    let x = dir_remove_op(v, old_parent, old_name).0;
    lemma_removed_items(v, old_parent, old_name);
    let es = dir_items(x, new_parent)->Ok_0;
    let e = DirItem { ino: src, file_type: ft, name: new_name };
    let all = es.push(e);
    lemma_parsed_names(x.nodes[new_parent].data);
    assert forall|i: int| 0 <= i < all.len() implies (#[trigger] all[i]).name.len() <= 0xffff by {
        if i < es.len() {
            assert(all[i] == es[i]);
        }
    }
    dir_roundtrip(all);
    assert(w.nodes[new_parent].data == dir_bytes(all));
    assert(w.nodes.contains_key(new_parent));
    assert(dir_items(w, new_parent) == Ok::<Seq<DirItem>, i32>(all));
    lemma_position_push(es, e, new_name);
    if old_parent == new_parent {
        lemma_position_push(es, e, old_name);
    } else {
        assert(w.nodes[old_parent].data == x.nodes[old_parent].data);
        assert(dir_items(w, old_parent) == dir_items(x, old_parent));
    }
}

/// A file takes the place of another one under its new name: where the two
/// names stand for different files and the rename succeeds, the new name stands for the file that
/// was renamed, and the old one for nothing.
#[verifier::spinoff_prover]
#[verifier::rlimit(60)]
pub proof fn renamed_file_replaces(
    v: FsView,
    old_parent: u64,
    old_name: Seq<u8>,
    new_parent: u64,
    new_name: Seq<u8>,
    creds: CredsView,
)
    requires
        rename_op(v, old_parent, old_name, new_parent, new_name, creds).1 is Ok,
        lookup_name(v, new_parent, new_name) matches Ok(Some((dst, ft))) && dst != old_parent && dst
            != new_parent && Some(dst) != inode_of(lookup_name(v, old_parent, old_name)),
        lookup_name(v, old_parent, old_name) matches Ok(Some((src, ft))) && src != old_parent && src
            != new_parent,
        names_differ(dir_items(v, old_parent)->Ok_0),
        names_differ(dir_items(v, new_parent)->Ok_0),
        in_memory(dir_remove_op(v, new_parent, new_name).0),
        in_memory(
            dir_remove_op(
                unlink_op(
                    v,
                    new_parent,
                    new_name,
                    ((lookup_name(v, new_parent, new_name)->Ok_0)->0).1 is Directory,
                    creds,
                ).0,
                old_parent,
                old_name,
            ).0,
        ),
        in_memory(rename_op(v, old_parent, old_name, new_parent, new_name, creds).0),
    ensures
        ({
            let w = rename_op(v, old_parent, old_name, new_parent, new_name, creds).0;
            let (src, ft) = (lookup_name(v, old_parent, old_name)->Ok_0)->0;
            &&& lookup_name(w, new_parent, new_name) == Ok::<Option<(u64, FileType)>, i32>(
                Some((src, ft)),
            )
            &&& lookup_name(w, old_parent, old_name) == Ok::<Option<(u64, FileType)>, i32>(None)
            &&& v.nodes.contains_key(src) ==> w.nodes.contains_key(src)
            &&& v.nodes.contains_key(src) && (!(ft is Directory) || old_parent == new_parent)
                ==> w.nodes[src] == v.nodes[src]
        }),
{
    let w = rename_op(v, old_parent, old_name, new_parent, new_name, creds).0;
    let (src, ft) = (lookup_name(v, old_parent, old_name)->Ok_0)->0;
    let (dst, dft) = (lookup_name(v, new_parent, new_name)->Ok_0)->0;
    assert(rename_check(v, old_parent, old_name, new_parent, new_name, creds) == Ok::<bool, i32>(
        true,
    ));
    let y = dir_remove_op(v, new_parent, new_name).0;
    let u = unlink_op(v, new_parent, new_name, dft is Directory, creds).0;
    lemma_removed_items(v, new_parent, new_name);
    assert(u.nodes.contains_key(new_parent) && u.nodes[new_parent].data == y.nodes[new_parent].data);
    assert(u.nodes.contains_key(old_parent) && u.nodes[old_parent].data == y.nodes[old_parent].data);
    assert(dir_items(u, new_parent) == dir_items(y, new_parent));
    assert(dir_items(u, old_parent) == dir_items(y, old_parent));
    assert(v.nodes.contains_key(src) ==> u.nodes.contains_key(src) && u.nodes[src] == v.nodes[src]);
    assert(names_differ(dir_items(u, old_parent)->Ok_0));
    let es0 = dir_items(v, new_parent)->Ok_0;
    lemma_position_in(es0, new_name);
    lemma_position_in(dir_items(v, old_parent)->Ok_0, old_name);
    let k = position_of(es0, new_name)->0;
    assert(lookup_name(u, old_parent, old_name) == Ok::<Option<(u64, FileType)>, i32>(
        Some((src, ft)),
    )) by {
        if old_parent == new_parent {
            let a = position_of(es0, old_name)->0;
            let rest = es0.remove(k);
            let b = if a < k {
                a
            } else {
                a - 1
            };
            assert(rest[b] == es0[a]);
            lemma_only_position(rest, old_name, b);
        }
    }
    let x = dir_remove_op(u, old_parent, old_name).0;
    lemma_removed_items(u, old_parent, old_name);
    let es = dir_items(x, new_parent)->Ok_0;
    let e = DirItem { ino: src, file_type: ft, name: new_name };
    let all = es.push(e);
    lemma_parsed_names(x.nodes[new_parent].data);
    assert forall|i: int| 0 <= i < all.len() implies (#[trigger] all[i]).name.len() <= 0xffff by {
        if i < es.len() {
            assert(all[i] == es[i]);
        }
    }
    dir_roundtrip(all);
    assert(w.nodes[new_parent].data == dir_bytes(all));
    assert(w.nodes.contains_key(new_parent));
    assert(dir_items(w, new_parent) == Ok::<Seq<DirItem>, i32>(all));
    lemma_position_push(es, e, new_name);
    if old_parent == new_parent {
        lemma_position_push(es, e, old_name);
    } else {
        assert(w.nodes[old_parent].data == x.nodes[old_parent].data);
        assert(dir_items(w, old_parent) == dir_items(x, old_parent));
    }
}

/// Where names differ, a name has the position of its only entry.
pub proof fn lemma_only_position(es: Seq<DirItem>, name: Seq<u8>, k: int)
    requires
        names_differ(es),
        0 <= k < es.len(),
        es[k].name == name,
    ensures
        position_of(es, name) == Some(k),
{
    lemma_no_position(es, name);
    lemma_position_in(es, name);
}

/// Nothing changes on a file system that is mounted for reading only.
pub proof fn read_only_stays(
    v: FsView,
    at: Place,
    path: Seq<u8>,
    other: Seq<u8>,
    data: Seq<u8>,
    n: u64,
    mode: u16,
)
    requires
        !v.writable,
    ensures
        write_at_path(v, at, path, data).0 == v,
        truncate_at(v, at, path, n).0 == v,
        create_at(v, at, path, true, mode, n).0 == v,
        create_at(v, at, path, false, mode, n).0 == v,
        symlink_at(v, at, data, path).0 == v,
        unlink_at(v, at, path, true).0 == v,
        unlink_at(v, at, path, false).0 == v,
        rename_at(v, at, path, other).0 == v,
        link_at(v, at, path, other).0 == v,
        chmod_at(v, at, path, mode).0 == v,
        setxattr_at(v, at, path, other, data, 0).0 == v,
        removexattr_at(v, at, path, other).0 == v,
        remove_all(v, at, path).0 == v,
        mkdir_all(v, at, path).0 == v,
{
    lemma_read_only_removes(v, at, path);
    lemma_read_only_mkdirs(v, at, path);
}

proof fn lemma_read_only_mkdirs(v: FsView, at: Place, path: Seq<u8>)
    requires
        !v.writable,
    ensures
        mkdir_all(v, at, path).0 == v,
    decreases path.len(),
{
    if path.len() == 0 || path == crate::path::root_path() {
    } else if let Some(p) = crate::path::parent_of(path) {
        if p.len() > 0 && p != crate::path::root_path() && p.len() < path.len() {
            lemma_read_only_mkdirs(v, at, p);
        }
    }
}

proof fn lemma_read_only_removes(v: FsView, at: Place, path: Seq<u8>)
    requires
        !v.writable,
    ensures
        remove_all(v, at, path).0 == v,
    decreases usize::MAX - path.len(), 1int, 0int,
{
    if let Ok(es) = read_dir_at(v, at, path) {
        lemma_read_only_items(v, at, path, crate::calls::real_items(es), 0);
    }
}

proof fn lemma_read_only_items(v: FsView, at: Place, path: Seq<u8>, es: Seq<DirItem>, k: nat)
    requires
        !v.writable,
    ensures
        remove_items(v, at, path, es, k).0 == v,
    decreases usize::MAX - path.len(), 0int, es.len() - k,
{
    if k < es.len() {
        let child = crate::path::joined(path, es[k as int].name);
        if child.len() > path.len() && child.len() <= usize::MAX {
            if es[k as int].file_type is Directory {
                lemma_read_only_removes(v, at, child);
            }
            lemma_read_only_items(v, at, path, es, k + 1);
        }
    }
}

/// Every count of open handles is of a handle.
pub open spec fn counts_positive(v: FsView) -> bool {
    forall|x: u64| #[trigger] v.opens.contains_key(x) ==> v.opens[x] > 0
}

/// Closing a handle undoes opening it.
pub proof fn close_undoes_open(v: FsView, ino: u64)
    requires
        counts_positive(v),
        orphans_open(v),
        inc_open_op(v, ino).1 is Ok,
    ensures
        dec_open_op(inc_open_op(v, ino).0, ino).0 == v,
{
    let w = inc_open_op(v, ino).0;
    let x = dec_open_op(w, ino).0;
    if v.orphans.contains(ino) {
        assert(opens_of(v, ino) > 0);
    }
    assert(x.opens =~= v.opens);
}

/// Reading a file changes nothing.
pub proof fn read_changes_nothing(v: FsView, path: Seq<u8>)
    requires
        counts_positive(v),
        orphans_open(v),
        read_at_path(v, top(), path).1 is Ok,
    ensures
        read_at_path(v, top(), path).0 == v,
{
    let (w, r) = open_at(v, top(), path, reading(), 0o022, true);
    assert(w == v);
    close_undoes_open(v, r->Ok_0);
}

/// Files without a name stay open until they are removed, and counts stay positive.
pub proof fn orphans_stay_open(
    v: FsView,
    ino: u64,
    parent: u64,
    name: Seq<u8>,
    rmdir: bool,
    creds: CredsView,
)
    requires
        orphans_open(v),
        counts_positive(v),
    ensures
        orphans_open(inc_open_op(v, ino).0),
        counts_positive(inc_open_op(v, ino).0),
        orphans_open(dec_open_op(v, ino).0),
        counts_positive(dec_open_op(v, ino).0),
        orphans_open(unlink_op(v, parent, name, rmdir, creds).0),
        counts_positive(unlink_op(v, parent, name, rmdir, creds).0),
{
    let w = inc_open_op(v, ino).0;
    assert forall|x: u64| #[trigger] w.orphans.contains(x) implies opens_of(w, x) > 0 by {
        assert(v.orphans.contains(x));
        assert(opens_of(v, x) > 0);
    }
    let w = dec_open_op(v, ino).0;
    assert forall|x: u64| #[trigger] w.orphans.contains(x) implies opens_of(w, x) > 0 by {
        assert(v.orphans.contains(x));
        assert(opens_of(v, x) > 0);
    }
    let w = unlink_op(v, parent, name, rmdir, creds).0;
    assert(w.opens == v.opens);
    assert forall|x: u64| #[trigger] w.orphans.contains(x) implies opens_of(w, x) > 0 by {
        if v.orphans.contains(x) {
            assert(opens_of(v, x) > 0);
        }
    }
}

/// Two file systems with the same files read alike.
pub proof fn same_files_read_alike(v: FsView, w: FsView, path: Seq<u8>)
    requires
        v.nodes == w.nodes,
        v.check_perm == w.check_perm,
        forall|x: u64| #[trigger] opens_of(v, x) < u32::MAX,
        forall|x: u64| #[trigger] opens_of(w, x) < u32::MAX,
    ensures
        find(w, top(), path, true) == find(v, top(), path, true),
        read_at_path(w, top(), path).1 == read_at_path(v, top(), path).1,
        read_dir_at(w, top(), path) == read_dir_at(v, top(), path),
        read_link_at(w, top(), path) == read_link_at(v, top(), path),
{
    let at = top();
    assert(same_tree(v, w, at.creds)) by {
        assert forall|x: u64| #[trigger] v.nodes.contains_key(x) implies same_step(
            v,
            w,
            x,
            at.creds,
        ) by {}
    }
    walks_agree(v, w, at.root, at.cwd, path, true, at.creds, 0);
    walks_agree(v, w, at.root, at.cwd, path, false, at.creds, 0);
    let (v1, r1) = open_at(v, at, path, reading(), 0o022, true);
    let (w1, r2) = open_at(w, at, path, reading(), 0o022, true);
    assert(r1 == r2 && v1 == v && w1 == w);
    if let Ok(ino) = r1 {
        assert(opens_of(v, ino) < u32::MAX && opens_of(w, ino) < u32::MAX);
    }
}

/// A file that a process creates has none of the bits of its umask, and belongs to the process.
pub proof fn new_file_obeys_umask(
    c: ContextView,
    v: FsView,
    dirfd: i32,
    path: Seq<u8>,
    flags: i32,
    mode: u16,
)
    requires
        tidy(v),
        openat_op(c, v, dirfd, path, flags, mode).2 is Ok,
        in_memory(openat_op(c, v, dirfd, path, flags, mode).1),
        !v.nodes.contains_key(
            openat_op(c, v, dirfd, path, flags, mode).0.fds[openat_op(
                c,
                v,
                dirfd,
                path,
                flags,
                mode,
            ).2->Ok_0].file.ino,
        ),
    ensures
        ({
            let (d, w, r) = openat_op(c, v, dirfd, path, flags, mode);
            let m = w.nodes[d.fds[r->Ok_0].file.ino].meta;
            &&& m.mode & c.umask & MODE_PERM == 0
            &&& m.uid == c.creds.fsuid
            &&& m.gid == c.creds.fsgid
        }),
{
    let (d, w, r) = openat_op(c, v, dirfd, path, flags, mode);
    let o = options_of(flags, mode);
    let dir = if absolute(path) {
        c.root
    } else if dirfd == crate::types::AT_FDCWD {
        c.cwd
    } else {
        c.fds[dirfd].dir_ino->0
    };
    let at = Place { root: c.root, cwd: dir, creds: c.creds };
    let f = find(v, at, path, !o.nofollow)->Ok_0;
    assert(f.ino is None);
    let full = S_IFREG | masked_mode(mode, c.umask);
    let w0 = create_child_op(v, f.parent, f.name, full, c.creds.fsuid, c.creds.fsgid, 0, c.creds).0;
    assert(w0.nodes == w.nodes);
    lemma_created(v, at, f, full, c.creds.fsuid, c.creds.fsgid, 0);
    let u = c.umask;
    assert((0o100000u16 | ((mode & 0o7777u16) & !u)) & u & 0o7777u16 == 0) by (bit_vector);
    assert(0o100000u16 | ((mode & 0o7777u16) & !u) != 0) by (bit_vector);
}

/// A set of files that holds the root and, with every directory, all that it has entries for; only
/// the parent of the root may lie outside.
pub open spec fn encloses(v: FsView, root: u64, inside: Set<u64>) -> bool {
    &&& inside.contains(root)
    &&& forall|d: u64, k: int|
        inside.contains(d) && dir_items(v, d) is Ok && 0 <= k < dir_items(v, d)->Ok_0.len() && !(d
            == root && dir_items(v, d)->Ok_0[k].name == dot_dot()) ==> inside.contains(
            (#[trigger] dir_items(v, d)->Ok_0[k]).ino,
        )
}

/// No path leads out of what lies below the root: a walk that starts inside ends inside, whatever
/// `..` and symbolic links it goes through.
pub proof fn walk_stays_inside(
    v: FsView,
    root: u64,
    cwd: u64,
    path: Seq<u8>,
    follow: bool,
    creds: CredsView,
    hops: nat,
    inside: Set<u64>,
)
    requires
        encloses(v, root, inside),
        inside.contains(cwd),
    ensures
        walk_path(v, root, cwd, path, follow, creds, hops) matches Ok(f) ==> inside.contains(
            f.parent,
        ) && (f.ino matches Some(ino) ==> inside.contains(ino)),
    decreases SYMLOOP_MAX - hops, 1int, 0int,
{
    let dir = if absolute(path) {
        root
    } else {
        cwd
    };
    let comps = path_parts(path);
    if path.len() > 0 && comps.len() > 0 {
        lemma_no_dot_dot(path);
        lemma_parts_inside(v, root, dir, comps, follow, creds, hops, inside);
    }
}

/// The names of a path are not `..`.
proof fn lemma_no_dot_dot(s: Seq<u8>)
    ensures
        forall|i: int|
            0 <= i < parts(s).len() ==> (#[trigger] parts(s)[i]) != Part::Normal(dot_dot()),
        forall|i: int|
            0 <= i < path_parts(s).len() ==> (#[trigger] path_parts(s)[i]) != Part::Normal(
                dot_dot(),
            ),
    decreases s.len(),
{
    if s.len() == 0 {
    } else if s[0] == SLASH {
        lemma_no_dot_dot(s.drop_first());
    } else {
        lemma_name_len(s);
        let e = name_len(s) as int;
        assert(e > 0);
        lemma_no_dot_dot(s.skip(e));
        assert forall|i: int| 0 <= i < parts(s).len() implies (#[trigger] parts(s)[i])
            != Part::Normal(dot_dot()) by {
            if i > 0 {
                assert(parts(s)[i] == parts(s.skip(e))[i - 1]);
            }
        }
    }
}

proof fn lemma_parts_inside(
    v: FsView,
    root: u64,
    dir: u64,
    comps: Seq<Part>,
    follow: bool,
    creds: CredsView,
    hops: nat,
    inside: Set<u64>,
)
    requires
        encloses(v, root, inside),
        inside.contains(dir),
        forall|i: int| 0 <= i < comps.len() ==> (#[trigger] comps[i]) != Part::Normal(dot_dot()),
    ensures
        walk_parts(v, root, dir, comps, follow, creds, hops) matches Ok(f) ==> inside.contains(
            f.parent,
        ) && (f.ino matches Some(ino) ==> inside.contains(ino)),
    decreases SYMLOOP_MAX - hops, 0int, comps.len(),
{
    if comps.len() > 0 {
        let last = comps.len() == 1;
        let rest = comps.drop_first();
        assert forall|i: int| 0 <= i < rest.len() implies (#[trigger] rest[i]) != Part::Normal(
            dot_dot(),
        ) by {
            assert(rest[i] == comps[i + 1]);
        }
        match comps[0] {
            Part::RootDir => lemma_parts_inside(v, root, root, rest, follow, creds, hops, inside),
            Part::CurDir => lemma_parts_inside(v, root, dir, rest, follow, creds, hops, inside),
            Part::ParentDir => {
                if dir == root {
                    lemma_parts_inside(v, root, dir, rest, follow, creds, hops, inside);
                } else {
                    lemma_entry_inside(v, root, dir, dot_dot(), inside);
                    match lookup_name(v, dir, dot_dot()) {
                        Ok(Some((p, _))) => lemma_parts_inside(
                            v,
                            root,
                            p,
                            rest,
                            follow,
                            creds,
                            hops,
                            inside,
                        ),
                        _ => lemma_parts_inside(v, root, dir, rest, follow, creds, hops, inside),
                    }
                }
            },
            Part::Normal(name) => {
                assert(name != dot_dot());
                lemma_entry_inside(v, root, dir, name, inside);
                if let Ok(Some((ino, _))) = lookup_name(v, dir, name) {
                    if type_at(v, ino) is Symlink && (!last || follow) {
                        if hops < SYMLOOP_MAX {
                            if let Ok(target) = whole(v, ino) {
                                walk_stays_inside(
                                    v,
                                    root,
                                    dir,
                                    behind_link(target, rest),
                                    follow,
                                    creds,
                                    hops + 1,
                                    inside,
                                );
                            }
                        }
                    } else if !last {
                        lemma_parts_inside(v, root, ino, rest, follow, creds, hops, inside);
                    }
                }
            },
        }
    }
}

proof fn lemma_entry_inside(v: FsView, root: u64, dir: u64, name: Seq<u8>, inside: Set<u64>)
    requires
        encloses(v, root, inside),
        inside.contains(dir),
        dir != root || name != dot_dot(),
    ensures
        lookup_name(v, dir, name) matches Ok(Some((ino, _))) ==> inside.contains(ino),
{
    if let Ok(es) = dir_items(v, dir) {
        lemma_position_in(es, name);
        if let Some(k) = position_of(es, name) {
            assert(inside.contains(dir_items(v, dir)->Ok_0[k].ino));
        }
    }
}

/// No path leads above the root: there `..` stays where it is.
pub proof fn root_has_no_parent(
    v: FsView,
    root: u64,
    rest: Seq<Part>,
    follow: bool,
    creds: CredsView,
    hops: nat,
)
    requires
        v.nodes.contains_key(root),
        allowed(v, root, creds, Access::Exec),
    ensures
        ({
            let up = walk_parts(v, root, root, seq![Part::ParentDir] + rest, follow, creds, hops);
            let here = walk_parts(v, root, root, rest, follow, creds, hops);
            if rest.len() > 0 {
                up == here
            } else {
                &&& up == Ok::<Found, i32>(Found { parent: root, name: dot_dot(), ino: Some(root) })
                &&& here matches Ok(f) && f.ino == Some(root)
            }
        }),
{
    let comps = seq![Part::ParentDir] + rest;
    assert(comps.drop_first() =~= rest);
    assert(comps[0] == Part::ParentDir);
}

/// An absolute path with `/..` put before it leads where the path leads: `/..` is the root, and
/// `/../x` is `/x`, though the entry `..` of the root may name another directory. Whoever may not
/// search the root gets the same error either way, but for a path that goes on with `.`.
pub proof fn above_root_is_root(
    v: FsView,
    root: u64,
    cwd: u64,
    path: Seq<u8>,
    follow: bool,
    creds: CredsView,
    hops: nat,
)
    requires
        absolute(path) || path.len() == 0,
    ensures
        ({
            let up = walk_path(v, root, cwd, seq![SLASH, DOT, DOT] + path, follow, creds, hops);
            let search = v.nodes.contains_key(root) && allowed(v, root, creds, Access::Exec);
            &&& parts(path).len() == 0 ==> {
                &&& search ==> up is Ok
                &&& up matches Ok(f) ==> f.ino == Some(root)
            }
            &&& parts(path).len() > 0 && (search || type_at(v, root) is Directory && !(parts(
                path,
            )[0] is CurDir)) ==> up == walk_path(v, root, cwd, path, follow, creds, hops)
        }),
{
    let all = seq![SLASH, DOT, DOT] + path;
    let tail = all.drop_first();
    let rest = parts(path);
    lemma_name_len_is(tail, 2);
    assert(tail.take(2) =~= dot_dot());
    assert(tail.skip(2) =~= path);
    assert(dot_dot().len() == 2 && dot().len() == 1);
    assert(parts(tail) == seq![Part::ParentDir] + rest);
    assert(parts(all) == parts(tail));
    let up = seq![Part::ParentDir] + rest;
    let comps = path_parts(all);
    assert(comps.drop_first() =~= up);
    assert(comps[0] == Part::RootDir);
    assert(up[0] == Part::ParentDir);
    if v.nodes.contains_key(root) && allowed(v, root, creds, Access::Exec) {
        root_has_no_parent(v, root, rest, follow, creds, hops);
    }
    if rest.len() > 0 {
        let comps = path_parts(path);
        assert(comps.drop_first() =~= rest);
        assert(comps[0] == Part::RootDir);
        lemma_no_root(path);
    }
}

/// The names of a path are never the root directory.
proof fn lemma_no_root(s: Seq<u8>)
    ensures
        forall|i: int| 0 <= i < parts(s).len() ==> !(#[trigger] parts(s)[i] is RootDir),
    decreases s.len(),
{
    if s.len() > 0 {
        if s[0] == SLASH {
            lemma_no_root(s.drop_first());
        } else {
            lemma_name_len(s);
            let e = name_len(s) as int;
            lemma_no_root(s.skip(e));
            assert forall|i: int| 0 <= i < parts(s).len() implies !(#[trigger] parts(
                s,
            )[i] is RootDir) by {
                if i > 0 {
                    assert(parts(s)[i] == parts(s.skip(e))[i - 1]);
                }
            }
        }
    }
}

/// Two walks on a volume that can be read, one along a path and one along the path with `/..` put
/// before it, return the same.
pub proof fn walks_above_root_agree(
    s: Inner,
    s1: Inner,
    s2: Inner,
    root: u64,
    cwd: u64,
    path: Seq<u8>,
    follow: bool,
    creds: CredsView,
    up: std::result::Result<Found, Error>,
    here: std::result::Result<Found, Error>,
)
    requires
        s.sound(),
        !s.full(0),
        absolute(path),
        type_at(s@, root) is Directory,
        parts(path).len() > 0,
        !(parts(path)[0] is CurDir),
        done(
            s,
            s1,
            (
                s@,
                walk_path(s@, root, cwd, seq![SLASH, DOT, DOT] + path, follow, creds, 0),
            ),
            up,
            0,
            0,
        ),
        done(s, s2, (s@, walk_path(s@, root, cwd, path, follow, creds, 0)), here, 0, 0),
    ensures
        match up {
            Ok(f) => here matches Ok(g) && f == g,
            Err(e) => here matches Err(x) && exists|n: i32| #[trigger] e.is(n) && x.is(n),
        },
{
    above_root_is_root(s@, root, cwd, path, follow, creds, 0);
    if let Err(n) = walk_path(s@, root, cwd, path, follow, creds, 0) {
        if let Err(e) = up {
            assert(e.is(n));
        }
    }
}

/// A copy holds what the original holds.
pub proof fn copy_reads_alike(v: FsView, from: Seq<u8>, to: Seq<u8>)
    requires
        tidy(v),
        rooted(v),
        counts_positive(v),
        copy_at(v, top(), from, to).1 is Ok,
        in_memory(copy_at(v, top(), from, to).0),
    ensures
        ({
            let w = copy_at(v, top(), from, to).0;
            let data = read_at_path(v, top(), from).1;
            &&& read_at_path(w, top(), to).1 == data
            &&& copy_at(v, top(), from, to).1 == Ok::<u64, i32>((data->Ok_0).len() as u64)
        }),
{
    let at = top();
    let data = read_at_path(v, at, from).1->Ok_0;
    read_changes_nothing(v, from);
    let src = stat_at(v, at, from, true)->Ok_0;
    let mode = v.nodes[src].meta.mode;
    let x = write_at_path(v, at, to, data).0;
    let w = copy_at(v, at, from, to).0;
    assert(w == chmod_at(x, at, to, mode).0);
    let ino = find_file(x, at, to, true)->Ok_0;
    assert(w.nodes =~= x.nodes.insert(ino, w.nodes[ino]));
    let m0 = x.nodes[ino].meta.mode;
    lemma_some_mode((m0 & S_IFMT) | (mode & MODE_PERM));
    assert(((m0 & 0o170000u16) | (mode & 0o7777u16)) & 0o170000u16 == m0 & 0o170000u16)
        by (bit_vector);
    assert(in_memory(x)) by {
        assert forall|y: u64| #[trigger] x.nodes.contains_key(y) implies x.nodes[y].data.len()
            <= usize::MAX by {
            assert(w.nodes.contains_key(y));
        }
    }
    let i2 = lemma_write_leaves(v, at, to, data);
    assert(i2 == ino);
    lemma_root_kept(v, to, data);
    lemma_meta_changed(x, w, ino, to, true);
    lemma_read_found(w, at, to, ino);
}

/// Writing a file leaves the root a directory.
proof fn lemma_root_kept(v: FsView, path: Seq<u8>, data: Seq<u8>)
    requires
        tidy(v),
        rooted(v),
        write_at_path(v, top(), path, data).1 is Ok,
        in_memory(write_at_path(v, top(), path, data).0),
    ensures
        rooted(write_at_path(v, top(), path, data).0),
{
}

} // verus!
