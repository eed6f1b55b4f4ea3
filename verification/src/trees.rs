//! What removing files and whole directories leaves behind.

use vstd::prelude::*;

use crate::calls::{
    find, find_file, read_dir_at, real_items, remove_all, remove_items, rmdir_at, stat_at,
    unlink_at, Place,
};
use crate::dir::{dir_bytes, dir_roundtrip, lemma_parsed_names, DirItem};
use crate::error::{EACCES, EIO, ENOENT, ENOTEMPTY};
use crate::laws::lemma_position_in;
use crate::model::FsView;
use crate::naming::{lemma_no_position, lemma_only_position, names_differ};
use crate::ops::{
    allowed, behind_link, dir_items, dir_remove_op, lookup_name, only_dots, position_of, type_at,
    unlink_op, walk_parts, walk_path, whole, Found, Outcome,
};
use crate::path::{
    absolute, dot, dot_dot, joined, lemma_name_len, lemma_name_len_is, name_len, part_of, parts,
    path_parts, Part, SLASH, SYMLOOP_MAX,
};
use crate::types::{Access, CredsView};

verus! {

/// The list of entries that are removed with a directory holds each of its entries but `.` and `..`,
/// whatever its type, and nothing else; they keep their order.
pub proof fn all_entries_are_listed(es: Seq<DirItem>)
    ensures
        forall|k: int|
            0 <= k < es.len() && (#[trigger] es[k]).name != seq![46u8] && es[k].name != seq![
                46u8,
                46u8,
            ] ==> real_items(es).contains(es[k]),
        forall|i: int|
            0 <= i < real_items(es).len() ==> es.contains(#[trigger] real_items(es)[i])
                && real_items(es)[i].name != seq![46u8] && real_items(es)[i].name != seq![46u8, 46u8],
        real_items(es).len() <= es.len(),
    decreases es.len(),
{
    assert(dot() =~= seq![46u8]);
    assert(dot_dot() =~= seq![46u8, 46u8]);
    if es.len() > 0 {
        let front = es.drop_last();
        let all = real_items(es);
        all_entries_are_listed(front);
        assert forall|k: int|
            0 <= k < es.len() && (#[trigger] es[k]).name != seq![46u8] && es[k].name != seq![
                46u8,
                46u8,
            ] implies all.contains(es[k]) by {
            if k < front.len() {
                assert(front[k] == es[k]);
                let i = real_items(front).index_of(es[k]);
                assert(all[i] == es[k]);
            } else {
                assert(all[all.len() - 1] == es[k]);
            }
        }
        assert forall|i: int| 0 <= i < all.len() implies es.contains(#[trigger] all[i])
            && all[i].name != seq![46u8] && all[i].name != seq![46u8, 46u8] by {
            if i < real_items(front).len() {
                assert(all[i] == real_items(front)[i]);
                let k = front.index_of(all[i]);
                assert(es[k] == all[i]);
            } else {
                assert(es[es.len() - 1] == all[i]);
            }
        }
    }
}

/// A name that can stand between slashes.
pub open spec fn plain(name: Seq<u8>) -> bool {
    name.len() > 0 && forall|i: int| 0 <= i < name.len() ==> #[trigger] name[i] != SLASH
}

/// Entries with different names, none of them empty or with a slash in it.
pub open spec fn in_order(es: Seq<DirItem>) -> bool {
    names_differ(es) && forall|k: int| 0 <= k < es.len() ==> plain((#[trigger] es[k]).name)
}

/// Every directory has its entries in order.
pub open spec fn orderly(v: FsView) -> bool {
    forall|d: u64| (#[trigger] dir_items(v, d)) is Ok ==> in_order(dir_items(v, d)->Ok_0)
}

/// The file `x` is as it was, but for the entries that it may have lost.
pub open spec fn same_file(v: FsView, w: FsView, x: u64, creds: CredsView) -> bool {
    &&& v.nodes.contains_key(x)
    &&& type_at(w, x) == type_at(v, x)
    &&& allowed(w, x, creds, Access::Exec) == allowed(v, x, creds, Access::Exec)
    &&& !(type_at(v, x) is Directory) ==> w.nodes[x].data == v.nodes[x].data
}

/// `w` is what is left of `v` after files and entries were removed.
pub open spec fn left_of(v: FsView, w: FsView, creds: CredsView) -> bool {
    &&& forall|x: u64| #[trigger] w.nodes.contains_key(x) ==> same_file(v, w, x, creds)
    &&& forall|d: u64, n: Seq<u8>|
        (#[trigger] lookup_name(w, d, n)) is Ok && lookup_name(w, d, n)->Ok_0 is Some ==> lookup_name(
            v,
            d,
            n,
        ) == lookup_name(w, d, n)
    &&& forall|d: u64|
        (#[trigger] lookup_name(w, d, dot_dot())) is Ok ==> lookup_name(v, d, dot_dot())
            == lookup_name(w, d, dot_dot())
}

/// What is left of what is left.
pub proof fn lemma_left_left(u: FsView, v: FsView, w: FsView, creds: CredsView)
    requires
        left_of(u, v, creds),
        left_of(v, w, creds),
    ensures
        left_of(u, w, creds),
{
    assert forall|x: u64| #[trigger] w.nodes.contains_key(x) implies same_file(u, w, x, creds) by {
        assert(same_file(v, w, x, creds));
        assert(same_file(u, v, x, creds));
    }
}

/// The walk to a file that is left is the walk that it was.
pub proof fn way_to_what_is_left(
    v: FsView,
    w: FsView,
    root: u64,
    cwd: u64,
    path: Seq<u8>,
    follow: bool,
    creds: CredsView,
    hops: nat,
)
    requires
        left_of(v, w, creds),
        walk_path(w, root, cwd, path, follow, creds, hops) matches Ok(f) && f.ino is Some,
    ensures
        walk_path(v, root, cwd, path, follow, creds, hops) == walk_path(
            w,
            root,
            cwd,
            path,
            follow,
            creds,
            hops,
        ),
    decreases SYMLOOP_MAX - hops, 1int, 0int,
{
    let dir = if absolute(path) {
        root
    } else {
        cwd
    };
    if path_parts(path).len() > 0 {
        lemma_way_left(v, w, root, dir, path_parts(path), follow, creds, hops);
    }
}

proof fn lemma_way_left(
    v: FsView,
    w: FsView,
    root: u64,
    dir: u64,
    comps: Seq<Part>,
    follow: bool,
    creds: CredsView,
    hops: nat,
)
    requires
        left_of(v, w, creds),
        walk_parts(w, root, dir, comps, follow, creds, hops) matches Ok(f) && f.ino is Some,
    ensures
        walk_parts(v, root, dir, comps, follow, creds, hops) == walk_parts(
            w,
            root,
            dir,
            comps,
            follow,
            creds,
            hops,
        ),
    decreases SYMLOOP_MAX - hops, 0int, comps.len(),
{
    if comps.len() > 0 {
        let last = comps.len() == 1;
        let rest = comps.drop_first();
        match comps[0] {
            Part::RootDir => lemma_way_left(v, w, root, root, rest, follow, creds, hops),
            Part::CurDir => lemma_way_left(v, w, root, dir, rest, follow, creds, hops),
            Part::ParentDir => {
                assert(same_file(v, w, dir, creds));
                if !last {
                    let up = if dir == root {
                        Ok(None)
                    } else {
                        lookup_name(w, dir, dot_dot())
                    };
                    let d = match up->Ok_0 {
                        Some((p, _)) => p,
                        None => dir,
                    };
                    lemma_way_left(v, w, root, d, rest, follow, creds, hops);
                }
            },
            Part::Normal(name) => {
                assert(same_file(v, w, dir, creds));
                let ino = (lookup_name(w, dir, name)->Ok_0->0).0;
                assert(same_file(v, w, ino, creds));
                if type_at(w, ino) is Symlink && (!last || follow) {
                    assert(whole(v, ino) == whole(w, ino));
                    let target = whole(w, ino)->Ok_0;
                    way_to_what_is_left(
                        v,
                        w,
                        root,
                        dir,
                        behind_link(target, rest),
                        follow,
                        creds,
                        hops + 1,
                    );
                } else if !last {
                    lemma_way_left(v, w, root, ino, rest, follow, creds, hops);
                }
            },
        }
    }
}

/// What a walk finds under a name is what its directory has under it.
pub proof fn found_is_looked_up(
    v: FsView,
    root: u64,
    cwd: u64,
    path: Seq<u8>,
    follow: bool,
    creds: CredsView,
    hops: nat,
)
    requires
        walk_path(v, root, cwd, path, follow, creds, hops) matches Ok(f) && f.name.len() > 0 && f.name
            != dot_dot(),
    ensures
        ({
            let f = walk_path(v, root, cwd, path, follow, creds, hops)->Ok_0;
            &&& lookup_name(v, f.parent, f.name) is Ok
            &&& f.ino is None ==> lookup_name(v, f.parent, f.name)->Ok_0 is None
            &&& f.ino matches Some(ino) ==> lookup_name(v, f.parent, f.name)->Ok_0 is Some && (
            lookup_name(v, f.parent, f.name)->Ok_0->0).0 == ino && v.nodes.contains_key(ino)
        }),
    decreases SYMLOOP_MAX - hops, 1int, 0int,
{
    let dir = if absolute(path) {
        root
    } else {
        cwd
    };
    if path_parts(path).len() > 0 {
        lemma_found_parts(v, root, dir, path_parts(path), follow, creds, hops);
    }
}

proof fn lemma_found_parts(
    v: FsView,
    root: u64,
    dir: u64,
    comps: Seq<Part>,
    follow: bool,
    creds: CredsView,
    hops: nat,
)
    requires
        walk_parts(v, root, dir, comps, follow, creds, hops) matches Ok(f) && f.name.len() > 0
            && f.name != dot_dot(),
    ensures
        ({
            let f = walk_parts(v, root, dir, comps, follow, creds, hops)->Ok_0;
            &&& lookup_name(v, f.parent, f.name) is Ok
            &&& f.ino is None ==> lookup_name(v, f.parent, f.name)->Ok_0 is None
            &&& f.ino matches Some(ino) ==> lookup_name(v, f.parent, f.name)->Ok_0 is Some && (
            lookup_name(v, f.parent, f.name)->Ok_0->0).0 == ino && v.nodes.contains_key(ino)
        }),
    decreases SYMLOOP_MAX - hops, 0int, comps.len(),
{
    if comps.len() > 0 {
        let last = comps.len() == 1;
        let rest = comps.drop_first();
        match comps[0] {
            Part::RootDir => lemma_found_parts(v, root, root, rest, follow, creds, hops),
            Part::CurDir => lemma_found_parts(v, root, dir, rest, follow, creds, hops),
            Part::ParentDir => {
                if !last {
                    let up = if dir == root {
                        Ok(None)
                    } else {
                        lookup_name(v, dir, dot_dot())
                    };
                    let d = match up->Ok_0 {
                        Some((p, _)) => p,
                        None => dir,
                    };
                    lemma_found_parts(v, root, d, rest, follow, creds, hops);
                }
            },
            Part::Normal(name) => {
                if lookup_name(v, dir, name)->Ok_0 is Some {
                    let ino = (lookup_name(v, dir, name)->Ok_0->0).0;
                    if type_at(v, ino) is Symlink && (!last || follow) {
                        let target = whole(v, ino)->Ok_0;
                        found_is_looked_up(
                            v,
                            root,
                            dir,
                            behind_link(target, rest),
                            follow,
                            creds,
                            hops + 1,
                        );
                    } else if !last {
                        lemma_found_parts(v, root, ino, rest, follow, creds, hops);
                    }
                }
            },
        }
    }
}

/// The names of two paths with a slash between them are those of the one, then those of the other.
pub proof fn names_of_joined_paths(a: Seq<u8>, b: Seq<u8>)
    ensures
        parts(a.push(SLASH) + b) == parts(a) + parts(b),
        a.len() > 0 && a.last() == SLASH ==> parts(a + b) == parts(a) + parts(b),
    decreases a.len(),
{
    let s = a.push(SLASH) + b;
    if a.len() == 0 {
        assert(s.drop_first() =~= b);
        assert(parts(a) + parts(b) =~= parts(b));
    } else {
        if a[0] == SLASH {
            names_of_joined_paths(a.drop_first(), b);
            assert(s.drop_first() =~= a.drop_first().push(SLASH) + b);
            if a.last() == SLASH {
                assert((a + b).drop_first() =~= a.drop_first() + b);
                if a.len() == 1 {
                    assert(a.drop_first() + b =~= b);
                    assert(parts(a) + parts(b) =~= parts(b));
                }
            }
        } else {
            lemma_name_len(a);
            let e = name_len(a) as int;
            let rest = a.skip(e);
            names_of_joined_paths(rest, b);
            assert(s.skip(e) =~= rest.push(SLASH) + b);
            assert(s.take(e) =~= a.take(e));
            assert forall|i: int| 0 <= i < e implies s[i] != SLASH by {
                assert(s[i] == a[i]);
            }
            assert(s[e] == SLASH) by {
                if e < a.len() {
                    assert(s[e] == a[e]);
                }
            }
            lemma_name_len_is(s, e);
            let head = seq![part_of(a.take(e))];
            assert(parts(s) =~= head + (parts(rest) + parts(b)));
            assert(parts(s) =~= parts(a) + parts(b));
            if a.last() == SLASH {
                let t = a + b;
                assert(e < a.len());
                assert(t.skip(e) =~= rest + b);
                assert(rest.last() == SLASH);
                assert(t.take(e) =~= a.take(e));
                assert forall|i: int| 0 <= i < e implies t[i] != SLASH by {
                    assert(t[i] == a[i]);
                }
                assert(t[e] == a[e]);
                lemma_name_len_is(t, e);
                assert(parts(t) =~= head + (parts(rest) + parts(b)));
                assert(parts(t) =~= parts(a) + parts(b));
            }
        }
    }
}

/// A name is its own and only component.
pub proof fn names_are_components(name: Seq<u8>)
    requires
        plain(name),
    ensures
        parts(name) == seq![part_of(name)],
        path_parts(name) == seq![part_of(name)],
{
    lemma_name_len_is(name, name.len() as int);
    assert(name.take(name.len() as int) =~= name);
    assert(name.skip(name.len() as int) =~= Seq::empty());
    assert(name[0] != SLASH);
    assert(parts(name) =~= seq![part_of(name)]) by {
        reveal_with_fuel(parts, 2);
    }
}

/// A path with a name put behind it has the components of the path, and the name.
pub proof fn components_of_joined_names(path: Seq<u8>, name: Seq<u8>)
    requires
        path.len() > 0,
        plain(name),
    ensures
        path_parts(joined(path, name)) == path_parts(path).push(part_of(name)),
        joined(path, name).len() > path.len(),
{
    names_are_components(name);
    names_of_joined_paths(path, name);
    let s = joined(path, name);
    assert(s[0] == path[0]);
    assert(parts(s) =~= parts(path).push(part_of(name)));
    assert(path_parts(s) =~= path_parts(path).push(part_of(name)));
}

/// What a name leads to from directory `dir`.
pub open spec fn one_step(v: FsView, dir: u64, name: Seq<u8>, creds: CredsView) -> Outcome<Found> {
    if !allowed(v, dir, creds, Access::Exec) {
        Err(EACCES)
    } else {
        match lookup_name(v, dir, name) {
            Err(e) => Err(e),
            Ok(None) => Ok(Found { parent: dir, name, ino: None }),
            Ok(Some((ino, _))) => if v.nodes.contains_key(ino) {
                Ok(Found { parent: dir, name, ino: Some(ino) })
            } else {
                Err(EIO)
            },
        }
    }
}

/// A path that leads to a directory, with a name put behind it, leads to what the directory has under
/// that name.
pub proof fn names_lead_on(
    v: FsView,
    root: u64,
    cwd: u64,
    path: Seq<u8>,
    name: Seq<u8>,
    creds: CredsView,
    hops: nat,
)
    requires
        plain(name),
        name != dot(),
        name != dot_dot(),
        walk_path(v, root, cwd, path, false, creds, hops) matches Ok(f) && f.ino matches Some(d)
            && v.nodes.contains_key(d) && type_at(v, d) is Directory,
    ensures
        walk_path(v, root, cwd, joined(path, name), false, creds, hops) == one_step(
            v,
            walk_path(v, root, cwd, path, false, creds, hops)->Ok_0.ino->0,
            name,
            creds,
        ),
    decreases SYMLOOP_MAX - hops, 1int, 0int,
{
    let dir = if absolute(path) {
        root
    } else {
        cwd
    };
    components_of_joined_names(path, name);
    assert(joined(path, name)[0] == path[0]);
    if path_parts(path).len() == 0 {
        lemma_name_len(path);
        assert(false);
    }
    lemma_lead_on(v, root, dir, path_parts(path), name, creds, hops);
}

proof fn lemma_lead_on(
    v: FsView,
    root: u64,
    dir: u64,
    comps: Seq<Part>,
    name: Seq<u8>,
    creds: CredsView,
    hops: nat,
)
    requires
        plain(name),
        name != dot(),
        name != dot_dot(),
        walk_parts(v, root, dir, comps, false, creds, hops) matches Ok(f) && f.ino matches Some(d)
            && v.nodes.contains_key(d) && type_at(v, d) is Directory,
    ensures
        walk_parts(v, root, dir, comps.push(Part::Normal(name)), false, creds, hops) == one_step(
            v,
            walk_parts(v, root, dir, comps, false, creds, hops)->Ok_0.ino->0,
            name,
            creds,
        ),
    decreases SYMLOOP_MAX - hops, 0int, comps.len(),
{
    let all = comps.push(Part::Normal(name));
    if comps.len() == 0 {
        assert(all[0] == Part::Normal(name));
    } else {
        let last = comps.len() == 1;
        let rest = comps.drop_first();
        let more = rest.push(Part::Normal(name));
        assert(all[0] == comps[0]);
        assert(all.drop_first() =~= more);
        if last {
            assert(rest =~= Seq::empty());
            assert(more[0] == Part::Normal(name));
            assert(more.len() == 1);
        }
        match comps[0] {
            Part::RootDir => lemma_lead_on(v, root, root, rest, name, creds, hops),
            Part::CurDir => lemma_lead_on(v, root, dir, rest, name, creds, hops),
            Part::ParentDir => {
                let up = if dir == root {
                    Ok(None)
                } else {
                    lookup_name(v, dir, dot_dot())
                };
                let d = match up->Ok_0 {
                    Some((p, _)) => p,
                    None => dir,
                };
                lemma_lead_on(v, root, d, rest, name, creds, hops);
            },
            Part::Normal(n) => {
                let ino = (lookup_name(v, dir, n)->Ok_0->0).0;
                if last {
                    lemma_lead_on(v, root, ino, rest, name, creds, hops);
                } else if type_at(v, ino) is Symlink {
                    let target = whole(v, ino)->Ok_0;
                    assert(more.drop_last() =~= rest);
                    assert(behind_link(target, more) == joined(behind_link(target, rest), name));
                    names_lead_on(v, root, dir, behind_link(target, rest), name, creds, hops + 1);
                } else {
                    lemma_lead_on(v, root, ino, rest, name, creds, hops);
                }
            },
        }
    }
}

/// A walk that ended at a symbolic link.
pub open spec fn ends_at_link(v: FsView, r: Outcome<Found>) -> bool {
    r matches Ok(f) && f.ino matches Some(d) && v.nodes.contains_key(d) && type_at(v, d) is Symlink
}

/// Whether links are followed at the end makes no difference to a path that does not end at one.
pub proof fn no_link_to_follow(
    v: FsView,
    root: u64,
    cwd: u64,
    path: Seq<u8>,
    creds: CredsView,
    hops: nat,
)
    requires
        !ends_at_link(v, walk_path(v, root, cwd, path, false, creds, hops)),
    ensures
        walk_path(v, root, cwd, path, true, creds, hops) == walk_path(
            v,
            root,
            cwd,
            path,
            false,
            creds,
            hops,
        ),
    decreases SYMLOOP_MAX - hops, 1int, 0int,
{
    let dir = if absolute(path) {
        root
    } else {
        cwd
    };
    if path_parts(path).len() > 0 {
        lemma_no_link(v, root, dir, path_parts(path), creds, hops);
    }
}

proof fn lemma_no_link(
    v: FsView,
    root: u64,
    dir: u64,
    comps: Seq<Part>,
    creds: CredsView,
    hops: nat,
)
    requires
        !ends_at_link(v, walk_parts(v, root, dir, comps, false, creds, hops)),
    ensures
        walk_parts(v, root, dir, comps, true, creds, hops) == walk_parts(
            v,
            root,
            dir,
            comps,
            false,
            creds,
            hops,
        ),
    decreases SYMLOOP_MAX - hops, 0int, comps.len(),
{
    if comps.len() > 0 {
        let last = comps.len() == 1;
        let rest = comps.drop_first();
        match comps[0] {
            Part::RootDir => lemma_no_link(v, root, root, rest, creds, hops),
            Part::CurDir => lemma_no_link(v, root, dir, rest, creds, hops),
            Part::ParentDir => if v.nodes.contains_key(dir) && allowed(v, dir, creds, Access::Exec) {
                let up = if dir == root {
                    Ok(None)
                } else {
                    lookup_name(v, dir, dot_dot())
                };
                if !last && up is Ok {
                    let d = match up->Ok_0 {
                        Some((p, _)) => p,
                        None => dir,
                    };
                    lemma_no_link(v, root, d, rest, creds, hops);
                }
            },
            Part::Normal(name) => {
                if !last && v.nodes.contains_key(dir) && type_at(v, dir) is Directory && allowed(
                    v,
                    dir,
                    creds,
                    Access::Exec,
                ) {
                    if let Ok(Some((ino, _))) = lookup_name(v, dir, name) {
                        if !v.nodes.contains_key(ino) {
                        } else if type_at(v, ino) is Symlink {
                            if hops < SYMLOOP_MAX && whole(v, ino) is Ok {
                                let target = whole(v, ino)->Ok_0;
                                no_link_to_follow(
                                    v,
                                    root,
                                    dir,
                                    behind_link(target, rest),
                                    creds,
                                    hops + 1,
                                );
                            }
                        } else {
                            lemma_no_link(v, root, ino, rest, creds, hops);
                        }
                    }
                }
            },
        }
    }
}

/// A file system that lost one entry, and perhaps files, is left of what it was, and that name is
/// gone.
#[verifier::spinoff_prover]
#[verifier::rlimit(60)]
proof fn lemma_one_less(v: FsView, w: FsView, p: u64, n: Seq<u8>, creds: CredsView)
    requires
        orderly(v),
        n != dot_dot(),
        dir_items(v, p) matches Ok(es) && position_of(es, n) is Some && es.len() <= u32::MAX + 1,
        w.check_perm == v.check_perm,
        forall|x: u64| #[trigger]
            w.nodes.contains_key(x) ==> v.nodes.contains_key(x) && w.nodes[x].meta.mode
                == v.nodes[x].meta.mode && w.nodes[x].meta.uid == v.nodes[x].meta.uid
                && w.nodes[x].meta.gid == v.nodes[x].meta.gid && w.nodes[x].data == if x == p {
                dir_bytes(
                    (dir_items(v, p)->Ok_0).remove(position_of(dir_items(v, p)->Ok_0, n)->0),
                )
            } else {
                v.nodes[x].data
            },
    ensures
        left_of(v, w, creds),
        orderly(w),
        lookup_name(w, p, n) is Ok ==> lookup_name(w, p, n)->Ok_0 is None,
{
    let es = dir_items(v, p)->Ok_0;
    let k = position_of(es, n)->0;
    let rest = es.remove(k);
    lemma_position_in(es, n);
    lemma_parsed_names(v.nodes[p].data);
    assert(in_order(es));
    assert forall|i: int| 0 <= i < rest.len() implies (#[trigger] rest[i]).name.len() <= 0xffff
        && rest[i].name != n && plain(rest[i].name) by {
        let j = if i < k {
            i
        } else {
            i + 1
        };
        assert(rest[i] == es[j]);
        assert(es[j].name != es[k].name);
    }
    assert(names_differ(rest)) by {
        assert forall|i: int, j: int|
            0 <= i < rest.len() && 0 <= j < rest.len() && i != j implies (#[trigger] rest[i]).name
            != (#[trigger] rest[j]).name by {
            let a = if i < k {
                i
            } else {
                i + 1
            };
            let b = if j < k {
                j
            } else {
                j + 1
            };
            assert(rest[i] == es[a]);
            assert(rest[j] == es[b]);
        }
    }
    dir_roundtrip(rest);
    lemma_no_position(rest, n);
    assert(dir_items(w, p) is Ok ==> dir_items(w, p)->Ok_0 == rest);
    assert forall|d: u64| d != p && (#[trigger] dir_items(w, d)) is Ok implies dir_items(v, d)
        == dir_items(w, d) by {}
    assert forall|d: u64, m: Seq<u8>|
        (#[trigger] lookup_name(w, d, m)) is Ok && (d != p || m != n) implies lookup_name(v, d, m)
        == lookup_name(w, d, m) by {
        if d == p {
            lemma_no_position(es, m);
            lemma_no_position(rest, m);
            lemma_position_in(es, m);
            if let Some(a) = position_of(es, m) {
                let b = if a < k {
                    a
                } else {
                    a - 1
                };
                assert(rest[b] == es[a]);
                lemma_only_position(rest, m, b);
            } else {
                assert forall|i: int| 0 <= i < rest.len() implies (#[trigger] rest[i]).name != m by {
                    let j = if i < k {
                        i
                    } else {
                        i + 1
                    };
                    assert(rest[i] == es[j]);
                }
            }
        }
    }
    assert forall|x: u64| #[trigger] w.nodes.contains_key(x) implies same_file(v, w, x, creds) by {}
    assert forall|d: u64| (#[trigger] dir_items(w, d)) is Ok implies in_order(
        dir_items(w, d)->Ok_0,
    ) by {
        if d != p {
            assert(dir_items(v, d) == dir_items(w, d));
        }
    }
}

/// Removing a name leaves all others as they are.
proof fn lemma_unlink_left(
    v: FsView,
    p: u64,
    n: Seq<u8>,
    rmdir: bool,
    who: CredsView,
    creds: CredsView,
)
    requires
        orderly(v),
    ensures
        ({
            let (w, r) = unlink_op(v, p, n, rmdir, who);
            &&& left_of(v, w, creds)
            &&& orderly(w)
            &&& r is Ok && lookup_name(w, p, n) is Ok ==> lookup_name(w, p, n)->Ok_0 is None
        }),
{
    let (w, r) = unlink_op(v, p, n, rmdir, who);
    if w != v || r is Ok {
        let y = dir_remove_op(v, p, n).0;
        assert(dir_items(v, p) is Ok && position_of(dir_items(v, p)->Ok_0, n) is Some);
        assert(n != dot_dot());
        lemma_position_in(dir_items(v, p)->Ok_0, n);
        assert(y.nodes == v.nodes.insert(p, y.nodes[p]));
        lemma_one_less(v, w, p, n, creds);
    } else {
        assert forall|x: u64| #[trigger] w.nodes.contains_key(x) implies same_file(v, w, x, creds) by {
        }
    }
}

/// Directory `dir` has an entry of this name.
pub open spec fn has_name(v: FsView, dir: u64, name: Seq<u8>) -> bool {
    lookup_name(v, dir, name) is Ok && lookup_name(v, dir, name)->Ok_0 is Some
}

/// The path led to a name that is gone.
pub open spec fn lost(w: FsView, at: Place, path: Seq<u8>) -> bool {
    exists|x: FsView| #[trigger]
        left_of(x, w, at.creds) && find(x, at, path, false) is Ok && !has_name(
            w,
            find(x, at, path, false)->Ok_0.parent,
            find(x, at, path, false)->Ok_0.name,
        )
}

/// A path whose name was removed leads to nothing any more.
pub proof fn removed_path_leads_nowhere(v: FsView, at: Place, path: Seq<u8>, rmdir: bool)
    requires
        orderly(v),
    ensures
        ({
            let (w, r) = unlink_at(v, at, path, rmdir);
            &&& left_of(v, w, at.creds)
            &&& orderly(w)
            &&& r is Ok ==> find_file(w, at, path, false) is Err && lost(w, at, path)
        }),
        ({
            let (w, r) = rmdir_at(v, at, path);
            &&& left_of(v, w, at.creds)
            &&& orderly(w)
            &&& r is Ok ==> find_file(w, at, path, false) is Err && lost(w, at, path)
        }),
{
    let (w, r) = unlink_at(v, at, path, rmdir);
    lemma_same_left(v, at.creds);
    lemma_unlink_at(v, at, path, rmdir);
    lemma_unlink_at(v, at, path, true);
}

/// What lost nothing is left as it is.
pub proof fn lemma_same_left(v: FsView, creds: CredsView)
    ensures
        left_of(v, v, creds),
{
    assert forall|x: u64| #[trigger] v.nodes.contains_key(x) implies same_file(v, v, x, creds) by {}
}

proof fn lemma_unlink_at(v: FsView, at: Place, path: Seq<u8>, rmdir: bool)
    requires
        orderly(v),
    ensures
        ({
            let (w, r) = unlink_at(v, at, path, rmdir);
            &&& left_of(v, w, at.creds)
            &&& orderly(w)
            &&& r is Ok ==> find_file(w, at, path, false) is Err && lost(w, at, path)
        }),
{
    let (w, r) = unlink_at(v, at, path, rmdir);
    lemma_same_left(v, at.creds);
    if let Ok(f) = find(v, at, path, false) {
        lemma_unlink_left(v, f.parent, f.name, rmdir, at.creds, at.creds);
        if r is Ok {
            assert(left_of(v, w, at.creds) && !has_name(w, f.parent, f.name));
        }
        if r is Ok && find_file(w, at, path, false) is Ok {
            way_to_what_is_left(v, w, at.root, at.cwd, path, false, at.creds, 0);
            assert(f.name.len() > 0 && f.name != dot_dot());
            found_is_looked_up(w, at.root, at.cwd, path, false, at.creds, 0);
            assert(false);
        }
    }
}

/// The errors of a walk: none of them says that a directory is not empty.
proof fn lemma_walk_errors(
    v: FsView,
    root: u64,
    cwd: u64,
    path: Seq<u8>,
    follow: bool,
    creds: CredsView,
    hops: nat,
)
    ensures
        walk_path(v, root, cwd, path, follow, creds, hops) matches Err(e) ==> e != ENOTEMPTY,
    decreases SYMLOOP_MAX - hops, 1int, 0int,
{
    let dir = if absolute(path) {
        root
    } else {
        cwd
    };
    if path_parts(path).len() > 0 {
        lemma_part_errors(v, root, dir, path_parts(path), follow, creds, hops);
    }
}

proof fn lemma_part_errors(
    v: FsView,
    root: u64,
    dir: u64,
    comps: Seq<Part>,
    follow: bool,
    creds: CredsView,
    hops: nat,
)
    ensures
        walk_parts(v, root, dir, comps, follow, creds, hops) matches Err(e) ==> e != ENOTEMPTY,
    decreases SYMLOOP_MAX - hops, 0int, comps.len(),
{
    if comps.len() > 0 {
        let rest = comps.drop_first();
        match comps[0] {
            Part::RootDir => lemma_part_errors(v, root, root, rest, follow, creds, hops),
            Part::CurDir => lemma_part_errors(v, root, dir, rest, follow, creds, hops),
            Part::ParentDir => {
                let up = if dir == root {
                    Ok(None)
                } else {
                    lookup_name(v, dir, dot_dot())
                };
                if up is Ok {
                    let d = match up->Ok_0 {
                        Some((p, _)) => p,
                        None => dir,
                    };
                    lemma_part_errors(v, root, d, rest, follow, creds, hops);
                }
            },
            Part::Normal(name) => {
                if let Ok(Some((ino, _))) = lookup_name(v, dir, name) {
                    if hops < SYMLOOP_MAX {
                        if let Ok(target) = whole(v, ino) {
                            lemma_walk_errors(
                                v,
                                root,
                                dir,
                                behind_link(target, rest),
                                follow,
                                creds,
                                hops + 1,
                            );
                        }
                    }
                    lemma_part_errors(v, root, ino, rest, follow, creds, hops);
                }
            },
        }
    }
}

/// After a directory was removed with all that is in it, its path leads to nothing; and removing it
/// never fails because something was left in it: every entry is gone by then, whatever its type.
#[verifier::spinoff_prover]
#[verifier::rlimit(60)]
pub proof fn remove_all_leaves_nothing(v: FsView, at: Place, path: Seq<u8>)
    requires
        orderly(v),
    ensures
        ({
            let (w, r) = remove_all(v, at, path);
            &&& r is Ok ==> find_file(w, at, path, false) is Err && (lost(w, at, path) || find_file(
                w,
                at,
                path,
                false,
            ) == Err::<u64, i32>(ENOENT))
            &&& r != Err::<(), i32>(ENOTEMPTY)
            &&& left_of(v, w, at.creds)
            &&& orderly(w)
        }),
    decreases usize::MAX - path.len(), 1int, 0int,
{
    lemma_same_left(v, at.creds);
    lemma_walk_errors(v, at.root, at.cwd, path, false, at.creds, 0);
    lemma_walk_errors(v, at.root, at.cwd, path, true, at.creds, 0);
    if let Ok(ino) = stat_at(v, at, path, false) {
        if type_at(v, ino) is Directory {
            if let Ok(es) = read_dir_at(v, at, path) {
                no_link_to_follow(v, at.root, at.cwd, path, at.creds, 0);
                let all = real_items(es);
                let (w, r) = remove_items(v, at, path, all, 0);
                all_entries_are_listed(es);
                assert(in_order(es));
                assert forall|i: int| 0 <= i < all.len() implies plain((#[trigger] all[i]).name)
                    && all[i].name != dot() && all[i].name != dot_dot() by {
                    assert(es.contains(all[i]));
                    assert(dot() =~= seq![46u8]);
                    assert(dot_dot() =~= seq![46u8, 46u8]);
                }
                lemma_items_gone(v, at, path, all, 0, ino);
                if r is Ok {
                    lemma_last_rmdir(v, w, at, path, es, ino);
                    removed_path_leads_nowhere(w, at, path, true);
                    lemma_left_left(v, w, rmdir_at(w, at, path).0, at.creds);
                }
            }
        } else {
            removed_path_leads_nowhere(v, at, path, false);
            lemma_unlink_errors(v, at, path);
        }
    }
}

proof fn lemma_unlink_errors(v: FsView, at: Place, path: Seq<u8>)
    ensures
        unlink_at(v, at, path, false).1 != Err::<(), i32>(ENOTEMPTY),
{
    lemma_walk_errors(v, at.root, at.cwd, path, false, at.creds, 0);
}

/// A directory that lost all that was listed is empty.
#[verifier::spinoff_prover]
#[verifier::rlimit(60)]
proof fn lemma_last_rmdir(
    v: FsView,
    w: FsView,
    at: Place,
    path: Seq<u8>,
    es: Seq<DirItem>,
    ino: u64,
)
    requires
        left_of(v, w, at.creds),
        find(v, at, path, false) matches Ok(f) && f.ino == Some(ino),
        dir_items(v, ino) == Ok::<Seq<DirItem>, i32>(es),
        find_file(w, at, path, false) == Ok::<u64, i32>(ino) ==> forall|i: int|
            0 <= i < real_items(es).len() ==> !has_name(w, ino, (#[trigger] real_items(es)[i]).name),
    ensures
        rmdir_at(w, at, path).1 != Err::<(), i32>(ENOTEMPTY),
{
    lemma_walk_errors(w, at.root, at.cwd, path, false, at.creds, 0);
    if rmdir_at(w, at, path).1 == Err::<(), i32>(ENOTEMPTY) {
        let f = find(w, at, path, false)->Ok_0;
        way_to_what_is_left(v, w, at.root, at.cwd, path, false, at.creds, 0);
        assert(f.name.len() > 0 && f.name != dot_dot());
        found_is_looked_up(w, at.root, at.cwd, path, false, at.creds, 0);
        let fs = dir_items(w, ino)->Ok_0;
        assert(dir_items(w, ino) is Ok && !only_dots(fs));
        let j = choose|j: int|
            0 <= j < fs.len() && !((#[trigger] fs[j]).name == dot() || fs[j].name == dot_dot());
        lemma_no_position(fs, fs[j].name);
        assert(has_name(w, ino, fs[j].name));
        assert(lookup_name(w, ino, fs[j].name) is Ok);
        assert(lookup_name(v, ino, fs[j].name) == lookup_name(w, ino, fs[j].name));
        lemma_position_in(es, fs[j].name);
        let k = position_of(es, fs[j].name)->0;
        all_entries_are_listed(es);
        assert(dot() =~= seq![46u8]);
        assert(dot_dot() =~= seq![46u8, 46u8]);
        assert(es[k].name == fs[j].name);
        assert(real_items(es).contains(es[k]));
        let i = real_items(es).index_of(es[k]);
        assert(!has_name(w, ino, real_items(es)[i].name));
    }
}

/// An entry whose path leads to nothing is gone from the directory, as long as the path of that one
/// leads to it.
#[verifier::spinoff_prover]
#[verifier::rlimit(40)]
proof fn lemma_child_gone(
    u: FsView,
    w: FsView,
    at: Place,
    path: Seq<u8>,
    name: Seq<u8>,
    ino: u64,
)
    requires
        left_of(u, w, at.creds),
        plain(name),
        name != dot(),
        name != dot_dot(),
        find_file(u, at, joined(path, name), false) is Err,
        lost(u, at, joined(path, name)) || find_file(u, at, joined(path, name), false) == Err::<
            u64,
            i32,
        >(ENOENT),
        find_file(w, at, path, false) == Ok::<u64, i32>(ino),
        w.nodes.contains_key(ino),
        type_at(w, ino) is Directory,
    ensures
        !has_name(w, ino, name),
{
    let child = joined(path, name);
    way_to_what_is_left(u, w, at.root, at.cwd, path, false, at.creds, 0);
    assert(same_file(u, w, ino, at.creds));
    names_lead_on(u, at.root, at.cwd, path, name, at.creds, 0);
    assert(!has_name(u, ino, name)) by {
        if lost(u, at, child) {
            let x = choose|x: FsView| #[trigger]
                left_of(x, u, at.creds) && find(x, at, child, false) is Ok
                    && !has_name(
                    u,
                    find(x, at, child, false)->Ok_0.parent,
                    find(x, at, child, false)->Ok_0.name,
                );
            way_to_what_is_left(x, u, at.root, at.cwd, path, false, at.creds, 0);
            assert(same_file(x, u, ino, at.creds));
            names_lead_on(x, at.root, at.cwd, path, name, at.creds, 0);
        }
    }
    assert(!has_name(w, ino, name)) by {
        assert(lookup_name(w, ino, name) is Ok ==> lookup_name(
            w,
            ino,
            name,
        )->Ok_0 is Some ==> lookup_name(u, ino, name) == lookup_name(w, ino, name));
    }
}

/// Entries that were removed are gone from the directory, as long as the path leads to it.
#[verifier::spinoff_prover]
#[verifier::rlimit(60)]
proof fn lemma_items_gone(
    v: FsView,
    at: Place,
    path: Seq<u8>,
    es: Seq<DirItem>,
    k: nat,
    ino: u64,
)
    requires
        orderly(v),
        forall|i: int|
            0 <= i < es.len() ==> plain((#[trigger] es[i]).name) && es[i].name != dot()
                && es[i].name != dot_dot(),
    ensures
        ({
            let (w, r) = remove_items(v, at, path, es, k);
            &&& left_of(v, w, at.creds)
            &&& orderly(w)
            &&& r != Err::<(), i32>(ENOTEMPTY)
            &&& r is Ok && find_file(w, at, path, false) == Ok::<u64, i32>(ino)
                && w.nodes.contains_key(ino) && type_at(w, ino) is Directory ==> forall|i: int|
                k <= i < es.len() ==> !has_name(w, ino, (#[trigger] es[i]).name)
        }),
    decreases usize::MAX - path.len(), 0int, es.len() - k,
{
    lemma_same_left(v, at.creds);
    if k < es.len() {
        let name = es[k as int].name;
        let child = joined(path, name);
        if child.len() > path.len() && child.len() <= usize::MAX {
            let (u, q) = if es[k as int].file_type is Directory {
                remove_all(v, at, child)
            } else {
                unlink_at(v, at, child, false)
            };
            if es[k as int].file_type is Directory {
                remove_all_leaves_nothing(v, at, child);
            } else {
                removed_path_leads_nowhere(v, at, child, false);
                lemma_unlink_errors(v, at, child);
            }
            if q is Ok {
                let (w, r) = remove_items(u, at, path, es, k + 1);
                lemma_items_gone(u, at, path, es, k + 1, ino);
                lemma_left_left(v, u, w, at.creds);
                if r is Ok && find_file(w, at, path, false) == Ok::<u64, i32>(ino)
                    && w.nodes.contains_key(ino) && type_at(w, ino) is Directory {
                    lemma_child_gone(u, w, at, path, name, ino);
                }
            }
        }
    }
}

} // verus!
