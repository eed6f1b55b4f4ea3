//! What removing whole directories does not touch.

use vstd::prelude::*;

use crate::calls::{
    find, read_dir_at, real_items, remove_all, remove_items, rename_at, rmdir_at, stat_at,
    unlink_at, Place,
};
use crate::dir::DirItem;
use crate::entries::{fits, unlink_means};
use crate::error::ENOENT;
use crate::laws::in_memory;
use crate::model::FsView;
use crate::naming::{inode_of, renamed_file_replaces};
use crate::ops::{
    allowed, dir_insert_op, dir_items, dir_remove_op, lookup_name, position_of, rename_check,
    sticky_op, type_at, unlink_op, Found,
};
use crate::path::{dot, dot_dot, joined, name_error};
use crate::trees::{
    all_entries_are_listed, components_of_joined_names, ends_at_link, found_is_looked_up, has_name,
    in_order, left_of, lemma_left_left, lemma_same_left, no_link_to_follow, orderly, plain,
    remove_all_leaves_nothing, removed_path_leads_nowhere, same_file, way_to_what_is_left,
};
use crate::types::{Access, CredsView, FileType};
use crate::walks::{links_hold_something, paths_lead_step_by_step};

verus! {

/// A set of files that holds, with every directory, all that it has entries for but `.` and `..`.
pub open spec fn closed_below(v: FsView, inside: Set<u64>) -> bool {
    forall|d: u64, n: Seq<u8>|
        inside.contains(d) && n != dot() && n != dot_dot() && #[trigger] has_name(v, d, n)
            ==> inside.contains((lookup_name(v, d, n)->Ok_0->0).0)
}

/// Every file outside the set is there as it was, but for one.
pub open spec fn kept_outside(v: FsView, w: FsView, inside: Set<u64>, but: u64) -> bool {
    forall|x: u64|
        !inside.contains(x) && x != but && #[trigger] v.nodes.contains_key(x)
            ==> w.nodes.contains_key(x) && w.nodes[x] == v.nodes[x]
}

/// A file system whose files are in order, and of which a set of files is closed.
pub open spec fn fit(v: FsView, inside: Set<u64>) -> bool {
    orderly(v) && links_hold_something(v) && closed_below(v, inside)
}

proof fn lemma_fit_left(v: FsView, w: FsView, inside: Set<u64>, creds: CredsView)
    requires
        fit(v, inside),
        left_of(v, w, creds),
        orderly(w),
    ensures
        fit(w, inside),
{
    assert forall|x: u64| #[trigger]
        w.nodes.contains_key(x) && type_at(w, x) is Symlink implies w.nodes[x].data.len() > 0 by {
        assert(same_file(v, w, x, creds));
    }
    assert forall|d: u64, n: Seq<u8>|
        inside.contains(d) && n != dot() && n != dot_dot() && #[trigger] has_name(
            w,
            d,
            n,
        ) implies inside.contains((lookup_name(w, d, n)->Ok_0->0).0) by {
        assert(lookup_name(w, d, n) is Ok);
        assert(has_name(v, d, n));
    }
}

proof fn lemma_unlink_keeps(
    v: FsView,
    p: u64,
    n: Seq<u8>,
    rmdir: bool,
    creds: CredsView,
    inside: Set<u64>,
)
    requires
        has_name(v, p, n) ==> inside.contains((lookup_name(v, p, n)->Ok_0->0).0),
    ensures
        kept_outside(v, unlink_op(v, p, n, rmdir, creds).0, inside, p),
{
}

proof fn lemma_unlink_at_keeps(v: FsView, at: Place, path: Seq<u8>, rmdir: bool, inside: Set<u64>)
    requires
        find(v, at, path, false) matches Ok(f) ==> (f.ino matches Some(i) ==> inside.contains(i)),
    ensures
        find(v, at, path, false) matches Ok(f) ==> kept_outside(
            v,
            unlink_at(v, at, path, rmdir).0,
            inside,
            f.parent,
        ),
        find(v, at, path, false) is Err ==> unlink_at(v, at, path, rmdir).0 == v,
        find(v, at, path, false) is Err ==> rmdir_at(v, at, path).0 == v,
        find(v, at, path, false) matches Ok(f) ==> kept_outside(
            v,
            rmdir_at(v, at, path).0,
            inside,
            f.parent,
        ),
{
    if let Ok(f) = find(v, at, path, false) {
        if f.ino is Some {
            if f.name.len() > 0 && f.name != dot_dot() {
                found_is_looked_up(v, at.root, at.cwd, path, false, at.creds, 0);
                lemma_unlink_keeps(v, f.parent, f.name, rmdir, at.creds, inside);
                lemma_unlink_keeps(v, f.parent, f.name, true, at.creds, inside);
            } else {
                assert(unlink_op(v, f.parent, f.name, rmdir, at.creds).0 == v);
                assert(unlink_op(v, f.parent, f.name, true, at.creds).0 == v);
            }
        }
    }
}

/// Removing a directory with all that is in it touches nothing but what lies below it and the
/// directory that has its name: it does not follow links out, nor `..` up.
#[verifier::spinoff_prover]
#[verifier::rlimit(60)]
pub proof fn removing_stays_below(v: FsView, at: Place, path: Seq<u8>, inside: Set<u64>)
    requires
        fit(v, inside),
        find(v, at, path, false) matches Ok(f) && f.ino matches Some(i) && inside.contains(i),
    ensures
        kept_outside(
            v,
            remove_all(v, at, path).0,
            inside,
            find(v, at, path, false)->Ok_0.parent,
        ),
    decreases usize::MAX - path.len(), 1int, 0int,
{
    let f = find(v, at, path, false)->Ok_0;
    let ino = f.ino->0;
    if stat_at(v, at, path, false) is Ok {
        if type_at(v, ino) is Directory {
            no_link_to_follow(v, at.root, at.cwd, path, at.creds, 0);
            if let Ok(es) = read_dir_at(v, at, path) {
                let all = real_items(es);
                let (w, r) = remove_items(v, at, path, all, 0);
                all_entries_are_listed(es);
                assert(in_order(es));
                assert forall|i: int| 0 <= i < all.len() implies plain((#[trigger] all[i]).name)
                    && all[i].name != dot() && all[i].name != dot_dot() by {
                    assert(es.contains(all[i]));
                    assert(dot() =~= seq![46u8]);
                    assert(dot_dot() =~= seq![46u8, 46u8]);
                }
                lemma_items_below(v, at, path, all, 0, ino, inside);
                if let Ok(g) = find(w, at, path, false) {
                    if g.ino is Some {
                        way_to_what_is_left(v, w, at.root, at.cwd, path, false, at.creds, 0);
                    } else {
                        assert(rmdir_at(w, at, path).0 == w);
                    }
                }
                lemma_unlink_at_keeps(w, at, path, true, inside);
            }
        } else {
            lemma_unlink_at_keeps(v, at, path, false, inside);
        }
    }
}

#[verifier::spinoff_prover]
#[verifier::rlimit(60)]
proof fn lemma_items_below(
    v: FsView,
    at: Place,
    path: Seq<u8>,
    es: Seq<DirItem>,
    k: nat,
    ino: u64,
    inside: Set<u64>,
)
    requires
        fit(v, inside),
        inside.contains(ino),
        path.len() > 0,
        !ends_at_link(v, find(v, at, path, false)),
        find(v, at, path, false) matches Ok(f) ==> (f.ino matches Some(i) ==> i == ino),
        forall|i: int|
            0 <= i < es.len() ==> plain((#[trigger] es[i]).name) && es[i].name != dot()
                && es[i].name != dot_dot(),
    ensures
        ({
            let w = remove_items(v, at, path, es, k).0;
            &&& kept_outside(v, w, inside, ino)
            &&& left_of(v, w, at.creds)
            &&& orderly(w)
        }),
    decreases usize::MAX - path.len(), 0int, es.len() - k,
{
    lemma_same_left(v, at.creds);
    if k < es.len() {
        let name = es[k as int].name;
        let child = joined(path, name);
        if child.len() > path.len() && child.len() <= usize::MAX {
            let dir = es[k as int].file_type is Directory;
            let (u, q) = if dir {
                remove_all(v, at, child)
            } else {
                unlink_at(v, at, child, false)
            };
            no_link_to_follow(v, at.root, at.cwd, path, at.creds, 0);
            assert(dot() =~= seq![46u8]);
            assert(dot_dot() =~= seq![46u8, 46u8]);
            paths_lead_step_by_step(v, at.root, at.cwd, path, name, at.creds, 0);
            let g = find(v, at, child, false);
            if g is Ok {
                assert(g->Ok_0.parent == ino);
                if g->Ok_0.ino is Some {
                    assert(has_name(v, ino, name));
                }
            }
            if dir {
                remove_all_leaves_nothing(v, at, child);
                if g is Ok && g->Ok_0.ino is Some {
                    removing_stays_below(v, at, child, inside);
                } else {
                    assert(u == v);
                }
            } else {
                removed_path_leads_nowhere(v, at, child, false);
                lemma_unlink_at_keeps(v, at, child, false, inside);
            }
            assert(kept_outside(v, u, inside, ino));
            if q is Ok {
                lemma_fit_left(v, u, inside, at.creds);
                if let Ok(f) = find(u, at, path, false) {
                    if f.ino is Some {
                        way_to_what_is_left(v, u, at.root, at.cwd, path, false, at.creds, 0);
                        if u.nodes.contains_key(ino) {
                            assert(same_file(v, u, ino, at.creds));
                        }
                    }
                }
                let w = remove_items(u, at, path, es, k + 1).0;
                lemma_items_below(u, at, path, es, k + 1, ino, inside);
                lemma_left_left(v, u, w, at.creds);
                assert forall|x: u64|
                    !inside.contains(x) && x != ino && #[trigger] v.nodes.contains_key(
                        x,
                    ) implies w.nodes.contains_key(x) && w.nodes[x] == v.nodes[x] by {
                    assert(u.nodes.contains_key(x));
                }
            }
        }
    }
}

/// Removing a path that leads to nothing changes nothing and is no failure; a file that is no
/// directory loses its name.
pub proof fn removing_other_files(v: FsView, at: Place, path: Seq<u8>)
    ensures
        stat_at(v, at, path, false) matches Err(e) ==> {
            &&& e == ENOENT ==> remove_all(v, at, path) == (v, Ok::<(), i32>(()))
            &&& e != ENOENT ==> remove_all(v, at, path) == (v, Err::<(), i32>(e))
        },
        stat_at(v, at, path, false) matches Ok(ino) ==> (!(type_at(v, ino) is Directory)
            ==> remove_all(v, at, path) == unlink_at(v, at, path, false)),
{
}

/// Entries are removed one by one, whatever their types: all of them can be removed where the first
/// can be, with all that is in it where it is a directory, and then the others.
pub proof fn entries_go_one_by_one(v: FsView, at: Place, path: Seq<u8>, es: Seq<DirItem>, k: nat)
    requires
        path.len() > 0,
        k < es.len(),
        plain(es[k as int].name),
        joined(path, es[k as int].name).len() <= usize::MAX,
    ensures
        ({
            let child = joined(path, es[k as int].name);
            let one = if es[k as int].file_type is Directory {
                remove_all(v, at, child)
            } else {
                unlink_at(v, at, child, false)
            };
            let all = remove_items(v, at, path, es, k);
            &&& all.1 is Ok <==> one.1 is Ok && remove_items(one.0, at, path, es, k + 1).1 is Ok
            &&& one.1 is Ok ==> all == remove_items(one.0, at, path, es, k + 1)
            &&& one.1 is Err ==> all == one
        }),
        remove_items(v, at, path, es, es.len()) == (v, Ok::<(), i32>(())),
{
    components_of_joined_names(path, es[k as int].name);
}

/// A directory can be removed with all that is in it where its entries can be, its path still leads to
/// it, and its name can be removed from the directory that has it: the volume and that directory may
/// be written, and the sticky bit does not forbid it.
#[verifier::spinoff_prover]
#[verifier::rlimit(60)]
pub proof fn removing_succeeds(v: FsView, at: Place, path: Seq<u8>, es: Seq<DirItem>)
    requires
        orderly(v),
        stat_at(v, at, path, false) matches Ok(ino) && type_at(v, ino) is Directory && ino != 1
            && dir_items(v, ino) == Ok::<Seq<DirItem>, i32>(es),
        remove_items(v, at, path, real_items(es), 0).1 is Ok,
        ({
            let w = remove_items(v, at, path, real_items(es), 0).0;
            let f = find(v, at, path, false)->Ok_0;
            let ino = f.ino->0;
            let up = dir_items(w, f.parent)->Ok_0;
            &&& find(w, at, path, false) == find(v, at, path, false)
            &&& w.writable
            &&& w.nodes.contains_key(ino)
            &&& ino != f.parent
            &&& name_error(f.name) is None
            &&& entry_type(w, f) is Directory
            &&& dir_items(w, ino) is Ok
            &&& allowed(w, f.parent, at.creds, Access::Write)
            &&& sticky_op(w, f.parent, f.name, at.creds) is Ok
            &&& fits(up.remove(position_of(up, f.name)->0))
        }),
    ensures
        remove_all(v, at, path).1 is Ok,
{
    let w = remove_items(v, at, path, real_items(es), 0).0;
    let f = find(v, at, path, false)->Ok_0;
    let ino = f.ino->0;
    no_link_to_follow(v, at.root, at.cwd, path, at.creds, 0);
    found_is_looked_up(w, at.root, at.cwd, path, false, at.creds, 0);
    remove_all_leaves_nothing(v, at, path);
    unlink_means(w, f.parent, f.name, true, at.creds);
    assert(rmdir_at(w, at, path) == unlink_op(w, f.parent, f.name, true, at.creds));
    assert(remove_all(v, at, path) == rmdir_at(w, at, path));
}

/// A path that is renamed over another one takes its place: where the two lead to different files,
/// neither of them a directory, and the call succeeds, the name that the new path ends in stands for
/// the file that the old path led to, and the name that the old path ends in for nothing. The file
/// holds what it held.
#[verifier::spinoff_prover]
#[verifier::rlimit(60)]
pub proof fn renamed_path_replaces(v: FsView, at: Place, from: Seq<u8>, to: Seq<u8>)
    requires
        rename_at(v, at, from, to).1 is Ok,
        orderly(v),
        in_memory(v),
        usize::MAX >= 0x1000_0000_0000,
        find(v, at, from, false) matches Ok(f) && f.ino matches Some(src) && !(type_at(v, src)
            is Directory) && !(entry_type(v, f) is Directory),
        find(v, at, to, false) matches Ok(g) && g.ino matches Some(dst) && !(type_at(v, dst)
            is Directory) && !(entry_type(v, g) is Directory),
        find(v, at, from, false)->Ok_0.ino != find(v, at, to, false)->Ok_0.ino,
    ensures
        ({
            let w = rename_at(v, at, from, to).0;
            let f = find(v, at, from, false)->Ok_0;
            let g = find(v, at, to, false)->Ok_0;
            let src = f.ino->0;
            &&& inode_of(lookup_name(w, g.parent, g.name)) == Some(src)
            &&& !has_name(w, f.parent, f.name)
            &&& w.nodes.contains_key(src)
            &&& w.nodes[src] == v.nodes[src]
        }),
{
    let f = find(v, at, from, false)->Ok_0;
    let g = find(v, at, to, false)->Ok_0;
    let w = rename_at(v, at, from, to).0;
    assert(f.name.len() > 0 && f.name != dot_dot());
    assert(g.name.len() > 0 && g.name != dot_dot());
    found_is_looked_up(v, at.root, at.cwd, from, false, at.creds, 0);
    found_is_looked_up(v, at.root, at.cwd, to, false, at.creds, 0);
    assert(in_order(dir_items(v, f.parent)->Ok_0));
    assert(in_order(dir_items(v, g.parent)->Ok_0));
    lemma_unlink_fits(v, g.parent, g.name, at.creds);
    let u = unlink_op(v, g.parent, g.name, false, at.creds).0;
    assert(rename_check(v, f.parent, f.name, g.parent, g.name, at.creds) == Ok::<bool, i32>(true));
    lemma_remove_fits(u, f.parent, f.name);
    let x = dir_remove_op(u, f.parent, f.name).0;
    lemma_insert_fits(x, g.parent, g.name, f.ino->0, entry_type(v, f));
    renamed_file_replaces(v, f.parent, f.name, g.parent, g.name, at.creds);
}

/// The type that the directory has for what was found in it.
pub open spec fn entry_type(v: FsView, f: Found) -> FileType {
    ((lookup_name(v, f.parent, f.name)->Ok_0)->0).1
}

proof fn lemma_remove_fits(v: FsView, dir: u64, name: Seq<u8>)
    requires
        in_memory(v),
        usize::MAX >= 0x1000_0000_0000,
    ensures
        in_memory(dir_remove_op(v, dir, name).0),
{
}

proof fn lemma_insert_fits(v: FsView, dir: u64, name: Seq<u8>, child: u64, ft: FileType)
    requires
        in_memory(v),
        usize::MAX >= 0x1000_0000_0000,
    ensures
        in_memory(dir_insert_op(v, dir, name, child, ft).0),
{
}

proof fn lemma_unlink_fits(v: FsView, dir: u64, name: Seq<u8>, creds: CredsView)
    requires
        in_memory(v),
        usize::MAX >= 0x1000_0000_0000,
    ensures
        in_memory(dir_remove_op(v, dir, name).0),
        in_memory(unlink_op(v, dir, name, false, creds).0),
{
    let y = dir_remove_op(v, dir, name).0;
    lemma_remove_fits(v, dir, name);
    let w = unlink_op(v, dir, name, false, creds).0;
    assert forall|x: u64| #[trigger] w.nodes.contains_key(x) implies w.nodes[x].data.len()
        <= usize::MAX by {
        assert(v.nodes.contains_key(x) && y.nodes.contains_key(x));
    }
}

} // verus!
