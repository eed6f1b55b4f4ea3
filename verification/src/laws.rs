//! What holds across calls.

use vstd::prelude::*;

use crate::calls::{
    chmod_at, chown_at, find, find_file, open_at, read_at_path, read_dir_at, rewriting,
    set_compression_at, top, truncate_at, write_at_path, write_op, Place,
};
use crate::dir::{dir_bytes, dir_roundtrip, lemma_parsed_names, DirItem};
use crate::error::ENODATA;
use crate::format::ROOT_INO;
use crate::inner::Inner;
use crate::model::FsView;
use crate::ops::{
    allowed, attr_position, attrs_without, behind_link, create_child_op, dec_open_op, dir_items,
    dot_items, getxattr_op, inc_open_op, lookup_name, next_ino, opens_of, position_of,
    removexattr_op, setxattr_op, type_at, walk_parts, walk_path, Found,
};
use crate::path::{absolute, dot_dot, path_parts, Part, SYMLOOP_MAX};
use crate::store::resized;
use crate::types::{
    lemma_some_mode, masked_mode, some_mode, type_of_mode, Access, CredsView, FileType, MODE_PERM,
    S_IFMT, S_IFREG,
};

verus! {

/// Paths lead to the same places in two file systems: they have the same files, of the same types,
/// with the same directories and links, and the same of them may be entered.
pub open spec fn same_tree(v: FsView, w: FsView, creds: CredsView) -> bool {
    &&& v.nodes.dom() == w.nodes.dom()
    &&& forall|x: u64| #[trigger] v.nodes.contains_key(x) ==> same_step(v, w, x, creds)
}

/// File `x` is the same to a walk in two file systems.
pub open spec fn same_step(v: FsView, w: FsView, x: u64, creds: CredsView) -> bool {
    &&& type_at(w, x) == type_at(v, x)
    &&& type_at(v, x) is Directory || type_at(v, x) is Symlink ==> w.nodes[x].data
        == v.nodes[x].data
    &&& allowed(w, x, creds, Access::Exec) == allowed(v, x, creds, Access::Exec)
}

/// In such file systems every walk ends at the same place.
pub proof fn walks_agree(
    v: FsView,
    w: FsView,
    root: u64,
    cwd: u64,
    path: Seq<u8>,
    follow: bool,
    creds: CredsView,
    hops: nat,
)
    requires
        same_tree(v, w, creds),
    ensures
        walk_path(w, root, cwd, path, follow, creds, hops) == walk_path(
            v,
            root,
            cwd,
            path,
            follow,
            creds,
            hops,
        ),
    decreases SYMLOOP_MAX - hops, 1int, 0int,
{
    let dir = if absolute(path) {
        root
    } else {
        cwd
    };
    lemma_parts_agree(v, w, root, dir, path_parts(path), follow, creds, hops);
}

proof fn lemma_parts_agree(
    v: FsView,
    w: FsView,
    root: u64,
    dir: u64,
    comps: Seq<Part>,
    follow: bool,
    creds: CredsView,
    hops: nat,
)
    requires
        same_tree(v, w, creds),
    ensures
        walk_parts(w, root, dir, comps, follow, creds, hops) == walk_parts(
            v,
            root,
            dir,
            comps,
            follow,
            creds,
            hops,
        ),
    decreases SYMLOOP_MAX - hops, 0int, comps.len(),
{
    if comps.len() > 0 {
        let last = comps.len() == 1;
        let rest = comps.drop_first();
        assert(w.nodes.contains_key(dir) == v.nodes.contains_key(dir)) by {
            assert(v.nodes.dom().contains(dir) == w.nodes.dom().contains(dir));
        }
        if v.nodes.contains_key(dir) {
            assert(same_step(v, w, dir, creds));
        }
        match comps[0] {
            Part::RootDir => lemma_parts_agree(v, w, root, root, rest, follow, creds, hops),
            Part::CurDir => lemma_parts_agree(v, w, root, dir, rest, follow, creds, hops),
            Part::ParentDir => {
                assert(lookup_name(w, dir, dot_dot()) == lookup_name(v, dir, dot_dot()));
                match if dir == root {
                    Ok(None)
                } else {
                    lookup_name(v, dir, dot_dot())
                } {
                    Ok(Some((p, _))) => lemma_parts_agree(v, w, root, p, rest, follow, creds, hops),
                    Ok(None) => lemma_parts_agree(v, w, root, dir, rest, follow, creds, hops),
                    Err(_) => {},
                }
            },
            Part::Normal(name) => {
                assert(lookup_name(w, dir, name) == lookup_name(v, dir, name));
                match lookup_name(v, dir, name) {
                    Ok(Some((ino, _))) => {
                        assert(w.nodes.contains_key(ino) == v.nodes.contains_key(ino)) by {
                            assert(v.nodes.dom().contains(ino) == w.nodes.dom().contains(ino));
                        }
                        if v.nodes.contains_key(ino) {
                            assert(same_step(v, w, ino, creds));
                            if type_at(v, ino) is Symlink && (!last || follow) {
                                if hops < SYMLOOP_MAX {
                                    let target = v.nodes[ino].data;
                                    walks_agree(
                                        v,
                                        w,
                                        root,
                                        dir,
                                        behind_link(target, rest),
                                        follow,
                                        creds,
                                        hops + 1,
                                    );
                                }
                            } else {
                                lemma_parts_agree(v, w, root, ino, rest, follow, creds, hops);
                            }
                        }
                    },
                    _ => {},
                }
            },
        }
    }
}

/// File system `w` has one more file than `v`, or one more name for a file: entry `e` in directory
/// `dir`.
pub open spec fn one_more(v: FsView, w: FsView, dir: u64, e: DirItem, creds: CredsView) -> bool {
    &&& v.nodes.contains_key(dir)
    &&& w.nodes.contains_key(e.ino)
    &&& e.name != dot_dot()
    &&& position_of(dir_items(v, dir)->Ok_0, e.name) is None
    &&& dir_items(v, dir) is Ok
    &&& dir_items(w, dir) == Ok::<Seq<DirItem>, i32>((dir_items(v, dir)->Ok_0).push(e))
    &&& forall|x: u64| #[trigger]
        v.nodes.contains_key(x) ==> w.nodes.contains_key(x) && (x == dir ==> type_at(w, x)
            == type_at(v, x) && allowed(w, x, creds, Access::Exec) == allowed(
            v,
            x,
            creds,
            Access::Exec,
        )) && (x != dir ==> same_step(v, w, x, creds))
}

/// The position of other names is the same after one more entry.
pub proof fn lemma_position_push(es: Seq<DirItem>, e: DirItem, name: Seq<u8>)
    ensures
        position_of(es, name) is Some ==> position_of(es.push(e), name) == position_of(es, name),
        position_of(es, name) is None && e.name != name ==> position_of(es.push(e), name) is None,
        position_of(es, name) is None && e.name == name ==> position_of(es.push(e), name) == Some(
            es.len() as int,
        ),
{
    assert(es.push(e).drop_last() =~= es);
}

/// A position is one of the entries.
pub proof fn lemma_position_in(es: Seq<DirItem>, name: Seq<u8>)
    ensures
        position_of(es, name) matches Some(k) ==> 0 <= k < es.len() && es[k].name == name,
    decreases es.len(),
{
    if es.len() > 0 {
        lemma_position_in(es.drop_last(), name);
    }
}

/// What is looked up after one more entry.
proof fn lemma_lookup_more(v: FsView, w: FsView, dir: u64, e: DirItem, creds: CredsView, d: u64, name: Seq<u8>)
    requires
        one_more(v, w, dir, e, creds),
        v.nodes.contains_key(d),
    ensures
        lookup_name(w, d, name) == (if d == dir && name == e.name {
            Ok::<Option<(u64, FileType)>, i32>(Some((e.ino, e.file_type)))
        } else {
            lookup_name(v, d, name)
        }),
{
    if d == dir {
        let es = dir_items(v, dir)->Ok_0;
        lemma_position_push(es, e, name);
        lemma_position_in(es, name);
    } else {
        assert(same_step(v, w, d, creds));
    }
}

/// Where a walk ends after one more entry.
pub open spec fn found_more(f: Found, dir: u64, e: DirItem) -> Found {
    if f.ino is None && f.parent == dir && f.name == e.name {
        Found { ino: Some(e.ino), ..f }
    } else {
        f
    }
}

/// One more entry in a directory is found under its name, and changes nothing for walks that
/// led somewhere before. A new symbolic link is found where last links are not followed.
pub proof fn entry_is_found(
    v: FsView,
    w: FsView,
    dir: u64,
    e: DirItem,
    root: u64,
    cwd: u64,
    path: Seq<u8>,
    follow: bool,
    creds: CredsView,
    hops: nat,
)
    requires
        one_more(v, w, dir, e, creds),
        follow ==> !(type_at(w, e.ino) is Symlink),
    ensures
        walk_path(v, root, cwd, path, follow, creds, hops) matches Ok(f) ==> walk_path(
            w,
            root,
            cwd,
            path,
            follow,
            creds,
            hops,
        ) == Ok::<Found, i32>(found_more(f, dir, e)),
    decreases SYMLOOP_MAX - hops, 1int, 0int,
{
    let start = if absolute(path) {
        root
    } else {
        cwd
    };
    lemma_parts_more(v, w, dir, e, root, start, path_parts(path), follow, creds, hops);
}

#[verifier::rlimit(40)]
proof fn lemma_parts_more(
    v: FsView,
    w: FsView,
    dir: u64,
    e: DirItem,
    root: u64,
    d: u64,
    comps: Seq<Part>,
    follow: bool,
    creds: CredsView,
    hops: nat,
)
    requires
        one_more(v, w, dir, e, creds),
        follow ==> !(type_at(w, e.ino) is Symlink),
    ensures
        walk_parts(v, root, d, comps, follow, creds, hops) matches Ok(f) ==> walk_parts(
            w,
            root,
            d,
            comps,
            follow,
            creds,
            hops,
        ) == Ok::<Found, i32>(found_more(f, dir, e)),
    decreases SYMLOOP_MAX - hops, 0int, comps.len(),
{
    if comps.len() > 0 {
        let last = comps.len() == 1;
        let rest = comps.drop_first();
        if v.nodes.contains_key(d) && d != dir {
            assert(same_step(v, w, d, creds));
        }
        match comps[0] {
            Part::RootDir => lemma_parts_more(v, w, dir, e, root, root, rest, follow, creds, hops),
            Part::CurDir => lemma_parts_more(v, w, dir, e, root, d, rest, follow, creds, hops),
            Part::ParentDir => {
                if v.nodes.contains_key(d) {
                    lemma_lookup_more(v, w, dir, e, creds, d, dot_dot());
                    match if d == root {
                        Ok(None)
                    } else {
                        lookup_name(v, d, dot_dot())
                    } {
                        Ok(Some((p, _))) => lemma_parts_more(
                            v,
                            w,
                            dir,
                            e,
                            root,
                            p,
                            rest,
                            follow,
                            creds,
                            hops,
                        ),
                        Ok(None) => lemma_parts_more(
                            v,
                            w,
                            dir,
                            e,
                            root,
                            d,
                            rest,
                            follow,
                            creds,
                            hops,
                        ),
                        Err(_) => {},
                    }
                }
            },
            Part::Normal(name) => {
                if v.nodes.contains_key(d) {
                    lemma_lookup_more(v, w, dir, e, creds, d, name);
                    match lookup_name(v, d, name) {
                        Ok(Some((ino, _))) => {
                            if d == dir && name == e.name {
                                assert(false);
                            }
                            if v.nodes.contains_key(ino) {
                                assert(type_at(w, ino) == type_at(v, ino)) by {
                                    if ino != dir {
                                        assert(same_step(v, w, ino, creds));
                                    }
                                }
                                if type_at(v, ino) is Symlink && (!last || follow) {
                                    assert(ino != dir);
                                    assert(same_step(v, w, ino, creds));
                                    if hops < SYMLOOP_MAX {
                                        let target = v.nodes[ino].data;
                                        entry_is_found(
                                            v,
                                            w,
                                            dir,
                                            e,
                                            root,
                                            d,
                                            behind_link(target, rest),
                                            follow,
                                            creds,
                                            hops + 1,
                                        );
                                    }
                                } else {
                                    lemma_parts_more(
                                        v,
                                        w,
                                        dir,
                                        e,
                                        root,
                                        ino,
                                        rest,
                                        follow,
                                        creds,
                                        hops,
                                    );
                                }
                            }
                        },
                        _ => {},
                    }
                }
            },
        }
    }
}

/// The number for the next file is free, and files without a name are open.
pub open spec fn tidy(v: FsView) -> bool {
    &&& !v.nodes.contains_key(next_ino(v))
    &&& orphans_open(v)
}

/// Files without a name are open.
pub open spec fn orphans_open(v: FsView) -> bool {
    forall|x: u64| #[trigger] v.orphans.contains(x) ==> opens_of(v, x) > 0
}

/// Every file can be held in memory as one piece, as the address space of the machine demands.
pub open spec fn in_memory(v: FsView) -> bool {
    forall|x: u64| #[trigger] v.nodes.contains_key(x) ==> v.nodes[x].data.len() <= usize::MAX
}

/// On a mounted volume the number for the next file is free.
pub proof fn next_number_is_free(s: Inner)
    requires
        s.wf(),
    ensures
        !s@.nodes.contains_key(next_ino(s@)),
{
    if s.free_inodes@.len() > 0 {
        let k = s.free_inodes@.len() - 1;
        assert(!s.inodes@.contains_key(s.free_inodes@[k]));
    }
}

/// A new file is found under its name.
pub proof fn lemma_created(
    v: FsView,
    at: Place,
    f: Found,
    mode: u16,
    uid: u32,
    gid: u32,
    rdev: u64,
)
    requires
        tidy(v),
        create_child_op(v, f.parent, f.name, mode, uid, gid, rdev, at.creds).1 is Ok,
        in_memory(create_child_op(v, f.parent, f.name, mode, uid, gid, rdev, at.creds).0),
    ensures
        ({
            let (w, r) = create_child_op(v, f.parent, f.name, mode, uid, gid, rdev, at.creds);
            let ino = next_ino(v);
            let e = DirItem { ino, file_type: type_of_mode(mode), name: f.name };
            let n = w.nodes[ino];
            &&& r == Ok::<u64, i32>(ino)
            &&& one_more(v, w, f.parent, e, at.creds)
            &&& n.meta.mode == some_mode(mode)
            &&& type_at(w, ino) == type_of_mode(mode)
            &&& n.meta.uid == uid
            &&& n.meta.gid == gid
            &&& n.meta.rdev == rdev
            &&& n.xattr.len() == 0
            &&& !(type_of_mode(mode) is Directory) ==> n.data.len() == 0 && n.meta.nlink == 1
            &&& type_of_mode(mode) is Directory ==> dir_items(w, ino) == Ok::<Seq<DirItem>, i32>(
                dot_items(ino, f.parent),
            ) && n.meta.nlink == 2
            &&& w.opens == v.opens
            &&& w.orphans == v.orphans
            &&& w.writable == v.writable
            &&& w.check_perm == v.check_perm
            &&& forall|x: u64|
                x != ino && x != f.parent ==> (#[trigger] w.nodes.contains_key(x)
                    == v.nodes.contains_key(x)) && w.nodes[x] == v.nodes[x]
        }),
{
    lemma_some_mode(mode);
    let (w, r) = create_child_op(v, f.parent, f.name, mode, uid, gid, rdev, at.creds);
    let ino = next_ino(v);
    let es = dir_items(v, f.parent)->Ok_0;
    let e = DirItem { ino, file_type: type_of_mode(mode), name: f.name };
    let all = es.push(e);
    lemma_parsed_names(v.nodes[f.parent].data);
    assert forall|i: int| 0 <= i < all.len() implies (#[trigger] all[i]).name.len() <= 0xffff by {
        if i < es.len() {
            assert(all[i] == es[i]);
        }
    }
    dir_roundtrip(all);
    assert(w.nodes[f.parent].data == dir_bytes(all));
    assert(w.nodes[f.parent].meta.mode == v.nodes[f.parent].meta.mode);
    assert(w.nodes.contains_key(f.parent));
    assert(dir_items(w, f.parent) == Ok::<Seq<DirItem>, i32>(all));
    if type_of_mode(mode) is Directory {
        let dots = dot_items(ino, f.parent);
        dir_roundtrip(dots);
        assert(w.nodes.contains_key(ino));
        assert(w.nodes[ino].data == dir_bytes(dots));
        assert(w.nodes[ino].meta.mode == some_mode(mode));
    }
    assert forall|x: u64| #[trigger] v.nodes.contains_key(x) implies w.nodes.contains_key(x) && (x
        == f.parent ==> type_at(w, x) == type_at(v, x) && allowed(w, x, at.creds, Access::Exec)
        == allowed(v, x, at.creds, Access::Exec)) && (x != f.parent ==> same_step(
        v,
        w,
        x,
        at.creds,
    )) by {}
}

/// A change of a file that is neither a directory nor a link, and keeps its mode and owners,
/// leaves all walks alone.
proof fn lemma_file_changed(v: FsView, w: FsView, ino: u64, creds: CredsView)
    requires
        v.nodes.contains_key(ino),
        w.nodes == v.nodes.insert(ino, w.nodes[ino]),
        w.check_perm == v.check_perm,
        type_at(w, ino) == type_at(v, ino),
        allowed(w, ino, creds, Access::Exec) == allowed(v, ino, creds, Access::Exec),
        type_at(v, ino) is Directory || type_at(v, ino) is Symlink ==> w.nodes[ino].data
            == v.nodes[ino].data,
    ensures
        same_tree(v, w, creds),
{
    assert(v.nodes.dom() =~= w.nodes.dom());
    assert forall|x: u64| #[trigger] v.nodes.contains_key(x) implies same_step(v, w, x, creds) by {}
}

/// A read through a handle gets what the file holds.
pub proof fn lemma_read_found(w: FsView, at: Place, path: Seq<u8>, ino: u64)
    requires
        find_file(w, at, path, true) == Ok::<u64, i32>(ino),
        w.nodes.contains_key(ino),
        w.nodes[ino].data.len() <= usize::MAX,
        opens_of(w, ino) < u32::MAX,
    ensures
        read_at_path(w, at, path).1 == Ok::<Seq<u8>, i32>(w.nodes[ino].data),
{
}

/// The last step of a write through a handle: the handle is closed, and the file stays.
proof fn lemma_closed(v: FsView, ino: u64)
    requires
        orphans_open(v),
        opens_of(v, ino) < u32::MAX,
    ensures
        ({
            let w = inc_open_op(v, ino).0;
            forall|x: FsView| #[trigger]
                dec_open_op(x, ino).0.nodes == x.nodes && opens_of(dec_open_op(x, ino).0, ino)
                    == opens_of(v, ino) || x.opens != w.opens || x.orphans != w.orphans
        }),
{
    let w = inc_open_op(v, ino).0;
    assert forall|x: FsView| x.opens == w.opens && x.orphans == w.orphans implies #[trigger] dec_open_op(
        x,
        ino,
    ).0.nodes == x.nodes && opens_of(dec_open_op(x, ino).0, ino) == opens_of(v, ino) by {
        if v.orphans.contains(ino) {
            assert(opens_of(v, ino) > 0);
        }
    }
}

/// What a write leaves: where the file stands, and what it holds.
#[verifier::rlimit(60)]
pub proof fn lemma_write_leaves(v: FsView, at: Place, path: Seq<u8>, data: Seq<u8>) -> (ino: u64)
    requires
        tidy(v),
        write_at_path(v, at, path, data).1 is Ok,
        in_memory(write_at_path(v, at, path, data).0),
        at == top(),
    ensures
        ({
            let w = write_at_path(v, at, path, data).0;
            &&& find_file(w, at, path, true) == Ok::<u64, i32>(ino)
            &&& w.nodes.contains_key(ino)
            &&& w.nodes[ino].data == data
            &&& opens_of(w, ino) < u32::MAX
            &&& match find_file(v, at, path, true) {
                Ok(x) => ino == x && w.nodes == v.nodes.insert(ino, w.nodes[ino]),
                Err(_) => {
                    &&& !v.nodes.contains_key(ino)
                    &&& forall|x: u64|
                        x != ino && x != (find(v, at, path, true)->Ok_0).parent ==> (
                        #[trigger] w.nodes.contains_key(x) == v.nodes.contains_key(x))
                            && w.nodes[x] == v.nodes[x]
                },
            }
        }),
{
    let o = rewriting();
    let (w0, r0) = open_at(v, at, path, o, 0o022, true);
    let ino = r0->Ok_0;
    let w1 = inc_open_op(w0, ino).0;
    let w2 = if data.len() == 0 {
        w1
    } else {
        write_op(w1, ino, 0, data).0
    };
    let w3 = dec_open_op(w2, ino).0;
    assert(w3 == write_at_path(v, at, path, data).0);
    let f = find(v, at, path, true)->Ok_0;
    assert(w0.orphans == v.orphans && w0.opens == v.opens);
    lemma_closed(w0, ino);
    assert(w2.opens == w1.opens && w2.orphans == w1.orphans);
    assert(w3.nodes == w2.nodes);
    if f.ino is Some {
        assert(w0.nodes[ino].data.len() == 0);
        assert(w3.nodes[ino].data =~= data);
        assert(w3.nodes =~= v.nodes.insert(ino, w3.nodes[ino]));
        lemma_file_changed(v, w3, ino, at.creds);
        walks_agree(v, w3, at.root, at.cwd, path, true, at.creds, 0);
    } else {
        let mode = S_IFREG | masked_mode(0o666, 0o022);
        assert(type_of_mode(mode) is File) by {
            assert((0o100000u16 | ((0o666u16 & 0o7777u16) & !0o022u16)) & 0o170000u16 == 0o100000u16)
                by (bit_vector);
        }
        assert(in_memory(w0)) by {
            assert forall|x: u64| #[trigger] w0.nodes.contains_key(x) implies w0.nodes[x].data.len()
                <= usize::MAX by {
                assert(w3.nodes.contains_key(x));
            }
        }
        lemma_created(v, at, f, mode, at.creds.fsuid, at.creds.fsgid, 0);
        let e = DirItem { ino, file_type: type_of_mode(mode), name: f.name };
        assert(one_more(v, w3, f.parent, e, at.creds)) by {
            assert forall|x: u64| #[trigger] v.nodes.contains_key(x) implies w3.nodes.contains_key(
                x,
            ) && (x == f.parent ==> type_at(w3, x) == type_at(v, x) && allowed(
                w3,
                x,
                at.creds,
                Access::Exec,
            ) == allowed(v, x, at.creds, Access::Exec)) && (x != f.parent ==> same_step(
                v,
                w3,
                x,
                at.creds,
            )) by {
                assert(w0.nodes.contains_key(x));
                assert(w3.nodes[x] == w0.nodes[x]);
                if x != f.parent {
                    assert(same_step(v, w0, x, at.creds));
                }
            }
        }
        entry_is_found(v, w3, f.parent, e, at.root, at.cwd, path, true, at.creds, 0);
        assert(w3.nodes[ino].data =~= data);
    }
    ino
}

/// What was written to a path is read back from it, whether the file was there before or not.
pub proof fn read_after_write(v: FsView, path: Seq<u8>, data: Seq<u8>)
    requires
        tidy(v),
        write_at_path(v, top(), path, data).1 is Ok,
        in_memory(write_at_path(v, top(), path, data).0),
    ensures
        read_at_path(write_at_path(v, top(), path, data).0, top(), path).1 == Ok::<Seq<u8>, i32>(
            data,
        ),
{
    let w = write_at_path(v, top(), path, data).0;
    let ino = lemma_write_leaves(v, top(), path, data);
    lemma_read_found(w, top(), path, ino);
}

/// Writing a file that is there leaves all other files alone.
pub proof fn write_keeps_others(v: FsView, path: Seq<u8>, data: Seq<u8>, x: u64)
    requires
        tidy(v),
        write_at_path(v, top(), path, data).1 is Ok,
        in_memory(write_at_path(v, top(), path, data).0),
        find_file(v, top(), path, true) matches Ok(ino) && ino != x,
    ensures
        write_at_path(v, top(), path, data).0.nodes.contains_key(x) == v.nodes.contains_key(x),
        v.nodes.contains_key(x) ==> write_at_path(v, top(), path, data).0.nodes[x] == v.nodes[x],
{
    let ino = lemma_write_leaves(v, top(), path, data);
}

/// Writing a new file leaves all others alone but the directory that gets its name.
pub proof fn new_file_keeps_others(v: FsView, path: Seq<u8>, data: Seq<u8>, x: u64)
    requires
        tidy(v),
        write_at_path(v, top(), path, data).1 is Ok,
        in_memory(write_at_path(v, top(), path, data).0),
        find(v, top(), path, true) matches Ok(f) && f.ino is None && f.parent != x,
        v.nodes.contains_key(x),
    ensures
        write_at_path(v, top(), path, data).0.nodes.contains_key(x),
        write_at_path(v, top(), path, data).0.nodes[x] == v.nodes[x],
{
    let ino = lemma_write_leaves(v, top(), path, data);
}

/// Directories and links are the same in two file systems, and the same directories may be
/// entered; other files only keep their types.
pub open spec fn same_way(v: FsView, w: FsView, root: u64, creds: CredsView) -> bool {
    &&& v.nodes.dom() == w.nodes.dom()
    &&& v.nodes.contains_key(root) ==> type_at(v, root) is Directory
    &&& forall|x: u64| #[trigger] v.nodes.contains_key(x) ==> way_kept(v, w, x, creds)
}

/// File `x` is the same to a walk that ends somewhere.
pub open spec fn way_kept(v: FsView, w: FsView, x: u64, creds: CredsView) -> bool {
    &&& type_at(w, x) == type_at(v, x)
    &&& type_at(v, x) is Directory || type_at(v, x) is Symlink ==> w.nodes[x].data
        == v.nodes[x].data
    &&& type_at(v, x) is Directory ==> allowed(w, x, creds, Access::Exec) == allowed(
        v,
        x,
        creds,
        Access::Exec,
    )
}

/// In such file systems a walk that ends somewhere ends there in both.
pub proof fn walk_still_ends(
    v: FsView,
    w: FsView,
    root: u64,
    cwd: u64,
    path: Seq<u8>,
    follow: bool,
    creds: CredsView,
    hops: nat,
)
    requires
        same_way(v, w, root, creds),
        walk_path(v, root, cwd, path, follow, creds, hops) is Ok,
    ensures
        walk_path(w, root, cwd, path, follow, creds, hops) == walk_path(
            v,
            root,
            cwd,
            path,
            follow,
            creds,
            hops,
        ),
    decreases SYMLOOP_MAX - hops, 1int, 0int,
{
    let dir = if absolute(path) {
        root
    } else {
        cwd
    };
    if path_parts(path).len() > 0 {
        lemma_parts_end(v, w, root, dir, path_parts(path), follow, creds, hops);
    }
}

#[verifier::rlimit(40)]
proof fn lemma_parts_end(
    v: FsView,
    w: FsView,
    root: u64,
    dir: u64,
    comps: Seq<Part>,
    follow: bool,
    creds: CredsView,
    hops: nat,
)
    requires
        same_way(v, w, root, creds),
        walk_parts(v, root, dir, comps, follow, creds, hops) is Ok,
    ensures
        walk_parts(w, root, dir, comps, follow, creds, hops) == walk_parts(
            v,
            root,
            dir,
            comps,
            follow,
            creds,
            hops,
        ),
    decreases SYMLOOP_MAX - hops, 0int, comps.len(),
{
    if comps.len() > 0 {
        let last = comps.len() == 1;
        let rest = comps.drop_first();
        assert(w.nodes.contains_key(dir) == v.nodes.contains_key(dir)) by {
            assert(v.nodes.dom().contains(dir) == w.nodes.dom().contains(dir));
        }
        if v.nodes.contains_key(dir) {
            assert(way_kept(v, w, dir, creds));
        }
        match comps[0] {
            Part::RootDir => lemma_parts_end(v, w, root, root, rest, follow, creds, hops),
            Part::CurDir => lemma_parts_end(v, w, root, dir, rest, follow, creds, hops),
            Part::ParentDir => {
                assert(lookup_name(w, dir, dot_dot()) == lookup_name(v, dir, dot_dot()));
                assert(type_at(v, dir) is Directory);
                match if dir == root {
                    Ok(None)
                } else {
                    lookup_name(v, dir, dot_dot())
                } {
                    Ok(Some((p, _))) => {
                        if !last {
                            lemma_parts_end(v, w, root, p, rest, follow, creds, hops);
                        }
                    },
                    Ok(None) => {
                        if !last {
                            lemma_parts_end(v, w, root, dir, rest, follow, creds, hops);
                        }
                    },
                    Err(_) => {},
                }
            },
            Part::Normal(name) => {
                assert(lookup_name(w, dir, name) == lookup_name(v, dir, name));
                match lookup_name(v, dir, name) {
                    Ok(Some((ino, _))) => {
                        assert(w.nodes.contains_key(ino) == v.nodes.contains_key(ino)) by {
                            assert(v.nodes.dom().contains(ino) == w.nodes.dom().contains(ino));
                        }
                        assert(way_kept(v, w, ino, creds));
                        if type_at(v, ino) is Symlink && (!last || follow) {
                            let target = v.nodes[ino].data;
                            walk_still_ends(
                                v,
                                w,
                                root,
                                dir,
                                behind_link(target, rest),
                                follow,
                                creds,
                                hops + 1,
                            );
                        } else if !last {
                            lemma_parts_end(v, w, root, ino, rest, follow, creds, hops);
                        }
                    },
                    _ => {},
                }
            },
        }
    }
}

/// A change of the metadata of a file that keeps its type leaves the walks of the superuser alone.
pub proof fn lemma_meta_changed(v: FsView, w: FsView, ino: u64, path: Seq<u8>, follow: bool)
    requires
        v.nodes.contains_key(ino),
        w.nodes == v.nodes.insert(ino, w.nodes[ino]),
        w.check_perm == v.check_perm,
        type_at(w, ino) == type_at(v, ino),
        w.nodes[ino].data == v.nodes[ino].data || !(type_at(v, ino) is Directory || type_at(
            v,
            ino,
        ) is Symlink),
        v.nodes.contains_key(ROOT_INO) ==> type_at(v, ROOT_INO) is Directory,
        find(v, top(), path, follow) is Ok,
    ensures
        find(w, top(), path, follow) == find(v, top(), path, follow),
{
    let at = top();
    assert(v.nodes.dom() =~= w.nodes.dom());
    assert forall|x: u64| #[trigger] v.nodes.contains_key(x) implies way_kept(v, w, x, at.creds) by {}
    walk_still_ends(v, w, at.root, at.cwd, path, follow, at.creds, 0);
}

/// There is a root directory.
pub open spec fn rooted(v: FsView) -> bool {
    v.nodes.contains_key(ROOT_INO) && type_at(v, ROOT_INO) is Directory
}

/// After a file was cut or extended, it reads as what it held, cut or filled up with zeros.
pub proof fn truncate_then_read(v: FsView, path: Seq<u8>, n: u64)
    requires
        rooted(v),
        truncate_at(v, top(), path, n).1 is Ok,
        find_file(v, top(), path, true) matches Ok(ino) && type_at(v, ino) is File && opens_of(
            v,
            ino,
        ) < u32::MAX,
        n <= usize::MAX,
    ensures
        ({
            let old_data = v.nodes[find_file(v, top(), path, true)->Ok_0].data;
            read_at_path(truncate_at(v, top(), path, n).0, top(), path).1 == Ok::<Seq<u8>, i32>(
                resized(old_data, n as nat),
            )
        }),
{
    let w = truncate_at(v, top(), path, n).0;
    let ino = find_file(v, top(), path, true)->Ok_0;
    let d = v.nodes[ino].data;
    assert(w.nodes =~= v.nodes.insert(ino, w.nodes[ino]));
    assert(w.nodes[ino].data =~= resized(d, n as nat));
    lemma_meta_changed(v, w, ino, path, true);
    lemma_read_found(w, top(), path, ino);
}

/// A write changes the bytes it covers and no others, and what it skips behind the end of the
/// file reads as zeros.
pub proof fn write_changes_its_range(v: FsView, ino: u64, off: u64, buf: Seq<u8>)
    requires
        write_op(v, ino, off, buf).1 is Ok,
        buf.len() > 0,
    ensures
        ({
            let d0 = v.nodes[ino].data;
            let d1 = write_op(v, ino, off, buf).0.nodes[ino].data;
            &&& forall|k: int| 0 <= k < buf.len() ==> #[trigger] d1[off + k] == buf[k]
            &&& forall|p: int|
                0 <= p < d0.len() && !(off <= p < off + buf.len()) ==> #[trigger] d1[p] == d0[p]
            &&& forall|p: int| d0.len() <= p < off ==> #[trigger] d1[p] == 0
            &&& d1.len() == if d0.len() >= off + buf.len() {
                d0.len() as int
            } else {
                off + buf.len()
            }
        }),
{
}

/// An attribute has the value that was set last.
pub proof fn getxattr_after_set(v: FsView, ino: u64, name: Seq<u8>, value: Seq<u8>, flags: u32)
    requires
        setxattr_op(v, ino, name, value, flags).1 is Ok,
    ensures
        getxattr_op(setxattr_op(v, ino, name, value, flags).0, ino, name) == Ok::<Seq<u8>, i32>(
            value,
        ),
{
    let x = v.nodes[ino].xattr;
    let w = setxattr_op(v, ino, name, value, flags).0;
    let y = w.nodes[ino].xattr;
    lemma_attr_in(x, name);
    match attr_position(x, name) {
        Some(k) => {
            lemma_attr_update(x, k, name, value, name);
            assert(y == x.update(k, (name, value)));
        },
        None => {
            assert(x.push((name, value)).drop_last() =~= x);
            assert(y == x.push((name, value)));
        },
    }
}

/// Setting an attribute leaves the others alone.
pub proof fn setxattr_keeps_others(
    v: FsView,
    ino: u64,
    name: Seq<u8>,
    value: Seq<u8>,
    flags: u32,
    other: Seq<u8>,
)
    requires
        setxattr_op(v, ino, name, value, flags).1 is Ok,
        other != name,
    ensures
        getxattr_op(setxattr_op(v, ino, name, value, flags).0, ino, other) == getxattr_op(
            v,
            ino,
            other,
        ),
{
    let x = v.nodes[ino].xattr;
    let w = setxattr_op(v, ino, name, value, flags).0;
    let y = w.nodes[ino].xattr;
    lemma_attr_in(x, name);
    lemma_attr_in(x, other);
    match attr_position(x, name) {
        Some(k) => {
            lemma_attr_update(x, k, name, value, other);
            assert(y == x.update(k, (name, value)));
        },
        None => {
            assert(x.push((name, value)).drop_last() =~= x);
            assert(y == x.push((name, value)));
        },
    }
}

/// An attribute that was removed is gone.
pub proof fn getxattr_after_remove(v: FsView, ino: u64, name: Seq<u8>)
    requires
        removexattr_op(v, ino, name).1 is Ok,
    ensures
        getxattr_op(removexattr_op(v, ino, name).0, ino, name) == Err::<Seq<u8>, i32>(ENODATA),
{
    lemma_attr_gone(v.nodes[ino].xattr, name);
}

proof fn lemma_attr_in(x: Seq<(Seq<u8>, Seq<u8>)>, name: Seq<u8>)
    ensures
        attr_position(x, name) matches Some(k) ==> 0 <= k < x.len() && x[k].0 == name,
    decreases x.len(),
{
    if x.len() > 0 {
        lemma_attr_in(x.drop_last(), name);
    }
}

proof fn lemma_attr_update(
    x: Seq<(Seq<u8>, Seq<u8>)>,
    k: int,
    name: Seq<u8>,
    value: Seq<u8>,
    other: Seq<u8>,
)
    requires
        0 <= k < x.len(),
        x[k].0 == name,
    ensures
        attr_position(x.update(k, (name, value)), other) == attr_position(x, other),
    decreases x.len(),
{
    let y = x.update(k, (name, value));
    if k < x.len() - 1 {
        lemma_attr_update(x.drop_last(), k, name, value, other);
        assert(y.drop_last() =~= x.drop_last().update(k, (name, value)));
    } else {
        assert(y.drop_last() =~= x.drop_last());
    }
}

proof fn lemma_attr_gone(x: Seq<(Seq<u8>, Seq<u8>)>, name: Seq<u8>)
    ensures
        attr_position(attrs_without(x, name), name) is None,
    decreases x.len(),
{
    if x.len() > 0 {
        let front = attrs_without(x.drop_last(), name);
        lemma_attr_gone(x.drop_last(), name);
        assert(front.push(x.last()).drop_last() =~= front);
    }
}

/// `chmod` sets the permission bits and keeps the type, and the path still leads to the file.
pub proof fn chmod_sets_mode(v: FsView, path: Seq<u8>, mode: u16)
    requires
        rooted(v),
        chmod_at(v, top(), path, mode).1 is Ok,
    ensures
        ({
            let w = chmod_at(v, top(), path, mode).0;
            let ino = find_file(v, top(), path, true)->Ok_0;
            &&& find_file(w, top(), path, true) == Ok::<u64, i32>(ino)
            &&& w.nodes[ino].meta.mode & MODE_PERM == mode & MODE_PERM
            &&& type_at(w, ino) == type_at(v, ino)
            &&& w.nodes[ino].data == v.nodes[ino].data
        }),
{
    let w = chmod_at(v, top(), path, mode).0;
    let ino = find_file(v, top(), path, true)->Ok_0;
    let m0 = v.nodes[ino].meta.mode;
    let m1 = w.nodes[ino].meta.mode;
    assert(((m0 & 0o170000u16) | (mode & 0o7777u16)) & 0o170000u16 == m0 & 0o170000u16)
        by (bit_vector);
    assert(((m0 & 0o170000u16) | (mode & 0o7777u16)) & 0o7777u16 == mode & 0o7777u16)
        by (bit_vector);
    lemma_some_mode((m0 & S_IFMT) | (mode & MODE_PERM));
    assert(w.nodes =~= v.nodes.insert(ino, w.nodes[ino]));
    lemma_meta_changed(v, w, ino, path, true);
}

/// `chown` sets both owners, and the path still leads to the file.
pub proof fn chown_sets_owners(v: FsView, path: Seq<u8>, follow: bool, uid: u32, gid: u32)
    requires
        rooted(v),
        chown_at(v, top(), path, follow, uid, gid).1 is Ok,
    ensures
        ({
            let w = chown_at(v, top(), path, follow, uid, gid).0;
            let ino = find_file(v, top(), path, follow)->Ok_0;
            &&& find_file(w, top(), path, follow) == Ok::<u64, i32>(ino)
            &&& w.nodes[ino].meta.uid == uid
            &&& w.nodes[ino].meta.gid == gid
            &&& w.nodes[ino].data == v.nodes[ino].data
        }),
{
    let w = chown_at(v, top(), path, follow, uid, gid).0;
    let ino = find_file(v, top(), path, follow)->Ok_0;
    assert(w.nodes =~= v.nodes.insert(ino, w.nodes[ino]));
    lemma_meta_changed(v, w, ino, path, follow);
}

/// Choosing another compression keeps the contents of the file.
pub proof fn set_compression_keeps_data(v: FsView, path: Seq<u8>, c: crate::compress::Compression)
    requires
        rooted(v),
        set_compression_at(v, top(), path, c).1 is Ok,
    ensures
        ({
            let w = set_compression_at(v, top(), path, c).0;
            let ino = find_file(v, top(), path, true)->Ok_0;
            &&& find_file(w, top(), path, true) == Ok::<u64, i32>(ino)
            &&& w.nodes[ino].data == v.nodes[ino].data
            &&& crate::calls::compression_at(w, top(), path) == Ok::<
                crate::compress::Compression,
                i32,
            >(c)
        }),
{
    let w = set_compression_at(v, top(), path, c).0;
    let ino = find_file(v, top(), path, true)->Ok_0;
    assert(w.nodes =~= v.nodes.insert(ino, w.nodes[ino]));
    lemma_meta_changed(v, w, ino, path, true);
    crate::compress::compression_roundtrip(c);
}

/// A new volume has a root directory, a free number for the next file, and no file without a name.
pub proof fn new_volume_is_in_order(opts: crate::options::CreateOptions, now: crate::types::Timespec)
    ensures
        rooted(crate::mount::new_volume(opts, now)),
        tidy(crate::mount::new_volume(opts, now)),
        read_dir_at(crate::mount::new_volume(opts, now), top(), crate::path::root_path()) == Ok::<
            Seq<DirItem>,
            i32,
        >(dot_items(ROOT_INO, ROOT_INO)),
{
    let v = crate::mount::new_volume(opts, now);
    assert((0o040000u16 | 0o755u16) & 0o170000u16 == 0o040000u16) by (bit_vector);
    let dots = dot_items(ROOT_INO, ROOT_INO);
    dir_roundtrip(dots);
    let path = crate::path::root_path();
    assert(absolute(path));
    crate::path::lemma_root_parts();
    let at = top();
    let comps = path_parts(path);
    assert(comps.drop_first() =~= Seq::<Part>::empty());
    assert(walk_parts(v, at.root, at.root, comps.drop_first(), true, at.creds, 0) == Ok::<
        Found,
        i32,
    >(Found { parent: ROOT_INO, name: Seq::empty(), ino: Some(ROOT_INO) }));
    assert(comps[0] == Part::RootDir);
    assert(find_file(v, at, path, true) == Ok::<u64, i32>(ROOT_INO));
    assert(v.nodes[ROOT_INO].data == dir_bytes(dots));
    crate::bytes::lemma_le();
    reveal_with_fuel(crate::dir::items_bytes, 3);
    assert(dots.drop_last().drop_last().len() == 0);
    assert(dir_bytes(dots).len() == 40);
}

} // verus!
