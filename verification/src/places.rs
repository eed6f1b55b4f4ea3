//! What the calls on paths mean for the directories and names that the paths lead to.

use vstd::prelude::*;

use crate::calls::{
    canonical, copy_at, create_at, find, find_file, link_at, made_first, mkdir_all, mkdir_at,
    name_of, parent_dir, path_up, read_at_path, read_dir_at, read_link_at, rename_at, rmdir_at,
    stat_at, symlink_at, unlink_at, write_at_path, write_op, Place,
};
use crate::dir::DirItem;
use crate::entries::{climbs, has_parent};
use crate::error::{EBUSY, EEXIST, EINVAL, ENAMETOOLONG, ENOENT};
use crate::laws::{in_memory, lemma_position_in, orphans_open, tidy};
use crate::metadata::chmod_means;
use crate::model::FsView;
use crate::naming::{lemma_only_position, new_directory_is_empty};
use crate::ops::{
    allowed, create_child_op, dir_items, link_op, next_ino, opens_of, rename_op, type_at, unlink_op,
    walk_parts, walk_path, Found,
};
use crate::path::{
    absolute, dot, dot_dot, file_name_of, last_slash, name_error, parent_of, part_of, parts,
    path_parts, root_path, trimmed, Part, SLASH, SYMLOOP_MAX,
};
use crate::trees::{
    found_is_looked_up, in_order, names_are_components, names_lead_on, names_of_joined_paths,
    orderly, plain,
};
use crate::types::{masked_mode, Access, CredsView, S_IFDIR};

verus! {

/// A file is created where its path leads to nothing yet, in the directory and under the name that
/// the path ends in, and belongs to whoever asks.
pub proof fn creating_where_nothing_is(
    v: FsView,
    at: Place,
    path: Seq<u8>,
    follow: bool,
    mode: u16,
    rdev: u64,
)
    ensures
        find(v, at, path, follow) matches Err(e) ==> create_at(v, at, path, follow, mode, rdev) == (
            v,
            Err::<u64, i32>(e),
        ),
        find(v, at, path, follow) matches Ok(f) ==> {
            &&& f.ino is Some ==> create_at(v, at, path, follow, mode, rdev) == (v, Err::<u64, i32>(
                EEXIST,
            ))
            &&& f.ino is None ==> create_at(v, at, path, follow, mode, rdev) == create_child_op(
                v,
                f.parent,
                f.name,
                mode,
                at.creds.fsuid,
                at.creds.fsgid,
                rdev,
                at.creds,
            )
        },
{
}

/// A directory is created with the mode that the umask leaves of what was asked for.
pub proof fn directories_obey_the_umask(v: FsView, at: Place, path: Seq<u8>, mode: u16, umask: u16)
    ensures
        ({
            let (w, r) = create_at(v, at, path, true, 0o040000 | ((mode & 0o7777) & !umask), 0);
            &&& mkdir_at(v, at, path, mode, umask).0 == w
            &&& mkdir_at(v, at, path, mode, umask).1 is Ok <==> r is Ok
            &&& r matches Err(e) ==> mkdir_at(v, at, path, mode, umask).1 == Err::<(), i32>(e)
        }),
{
}

/// A symbolic link is a file of its own, open to all, that holds its target; the last name of its path
/// is not followed.
pub proof fn links_hold_their_target(v: FsView, at: Place, target: Seq<u8>, path: Seq<u8>)
    ensures
        ({
            let (u, q) = create_at(v, at, path, false, 0o120000u16 | 0o777u16, 0);
            let (w, r) = symlink_at(v, at, target, path);
            &&& q matches Err(e) ==> w == u && r == Err::<(), i32>(e)
            &&& q matches Ok(ino) ==> (w, r) == write_op(u, ino, 0, target)
        }),
{
}

/// Removing a path removes the name that it ends in, which may be that of a link. The root directory
/// cannot be removed.
pub proof fn removing_the_last_name(v: FsView, at: Place, path: Seq<u8>, rmdir: bool)
    ensures
        find(v, at, path, false) matches Err(e) ==> unlink_at(v, at, path, rmdir) == (v, Err::<
            (),
            i32,
        >(e)) && rmdir_at(v, at, path) == (v, Err::<(), i32>(e)),
        find(v, at, path, false) matches Ok(f) ==> {
            &&& f.ino is None ==> unlink_at(v, at, path, rmdir) == (v, Err::<(), i32>(ENOENT))
                && rmdir_at(v, at, path) == (v, Err::<(), i32>(ENOENT))
            &&& f.ino is Some ==> unlink_at(v, at, path, rmdir) == unlink_op(
                v,
                f.parent,
                f.name,
                rmdir,
                at.creds,
            )
            &&& f.ino == Some(1u64) ==> rmdir_at(v, at, path) == (v, Err::<(), i32>(EBUSY))
            &&& f.ino is Some && f.ino != Some(1u64) ==> rmdir_at(v, at, path) == unlink_op(
                v,
                f.parent,
                f.name,
                true,
                at.creds,
            )
        },
{
}

/// Renaming a path moves the name that it ends in to the name that the other path ends in; links at
/// the end are not followed.
pub proof fn renaming_the_last_name(v: FsView, at: Place, from: Seq<u8>, to: Seq<u8>)
    ensures
        ({
            let src = find(v, at, from, false);
            let dst = find(v, at, to, false);
            &&& src matches Err(e) ==> rename_at(v, at, from, to) == (v, Err::<(), i32>(e))
            &&& src is Ok && src->Ok_0.ino is None ==> rename_at(v, at, from, to) == (v, Err::<
                (),
                i32,
            >(ENOENT))
            &&& src is Ok && src->Ok_0.ino is Some && dst is Err ==> rename_at(v, at, from, to) == (
                v,
                Err::<(), i32>(dst->Err_0),
            )
            &&& src is Ok && src->Ok_0.ino is Some && dst is Ok ==> rename_at(v, at, from, to)
                == rename_op(
                v,
                src->Ok_0.parent,
                src->Ok_0.name,
                dst->Ok_0.parent,
                dst->Ok_0.name,
                at.creds,
            )
        }),
{
}

/// A link is made to the file that the old path leads to, with links followed, under the name that the
/// new path ends in, which must be free.
pub proof fn linking_the_last_name(v: FsView, at: Place, from: Seq<u8>, to: Seq<u8>)
    ensures
        ({
            let src = find_file(v, at, from, true);
            let dst = find(v, at, to, false);
            &&& src matches Err(e) ==> link_at(v, at, from, to) == (v, Err::<(), i32>(e))
            &&& src is Ok && dst is Err ==> link_at(v, at, from, to) == (v, Err::<(), i32>(
                dst->Err_0,
            ))
            &&& src is Ok && dst is Ok && dst->Ok_0.ino is Some ==> link_at(v, at, from, to) == (
                v,
                Err::<(), i32>(EEXIST),
            )
            &&& src is Ok && dst is Ok && dst->Ok_0.ino is None ==> link_at(v, at, from, to)
                == link_op(v, src->Ok_0, dst->Ok_0.parent, dst->Ok_0.name, at.creds)
        }),
{
}

/// Only a symbolic link has a target: what the file holds. The entries of a path are those of the
/// directory that it leads to.
pub proof fn reading_links_and_directories(v: FsView, at: Place, path: Seq<u8>)
    ensures
        stat_at(v, at, path, false) matches Err(e) ==> read_link_at(v, at, path) == Err::<
            Seq<u8>,
            i32,
        >(e),
        stat_at(v, at, path, false) matches Ok(ino) ==> {
            &&& !(type_at(v, ino) is Symlink) ==> read_link_at(v, at, path) == Err::<Seq<u8>, i32>(
                EINVAL,
            )
            &&& type_at(v, ino) is Symlink && v.nodes[ino].data.len() <= usize::MAX ==> read_link_at(
                v,
                at,
                path,
            ) == Ok::<Seq<u8>, i32>(v.nodes[ino].data)
        },
        find_file(v, at, path, true) matches Err(e) ==> read_dir_at(v, at, path) == Err::<
            Seq<DirItem>,
            i32,
        >(e),
        find_file(v, at, path, true) matches Ok(ino) ==> read_dir_at(v, at, path) == dir_items(
            v,
            ino,
        ),
{
}

/// Which names can be given to a file: 1 to 255 bytes, none of them a slash or zero, and neither `.`
/// nor `..`.
pub proof fn names_that_can_be_given(name: Seq<u8>)
    ensures
        name_error(name) is None <==> 1 <= name.len() <= 255 && name != seq![46u8] && name != seq![
            46u8,
            46u8,
        ] && forall|i: int| 0 <= i < name.len() ==> #[trigger] name[i] != 0 && name[i] != 47,
        name_error(name) is Some && name.len() > 255 ==> name_error(name) == Some(ENAMETOOLONG),
        name_error(name) is Some && name.len() <= 255 ==> name_error(name) == Some(EINVAL),
{
    assert(crate::path::dot() =~= seq![46u8]);
    assert(crate::path::dot_dot() =~= seq![46u8, 46u8]);
    if name.contains(0) {
        let i = name.index_of(0);
        assert(name[i] == 0);
    }
    if name.contains(47) {
        let i = name.index_of(47);
        assert(name[i] == 47);
    }
    assert forall|i: int| 0 <= i < name.len() && name_error(name) is None implies #[trigger] name[i]
        != 0 && name[i] != 47 by {
        assert(name.contains(name[i]));
    }
}

/// What names stand for in a path.
pub proof fn names_in_paths(name: Seq<u8>)
    ensures
        part_of(seq![46u8]) is CurDir,
        part_of(seq![46u8, 46u8]) is ParentDir,
        name != seq![46u8] && name != seq![46u8, 46u8] ==> part_of(name) == Part::Normal(name),
{
    assert(crate::path::dot() =~= seq![46u8]);
    assert(crate::path::dot_dot() =~= seq![46u8, 46u8]);
    assert(seq![46u8].len() != seq![46u8, 46u8].len());
}

proof fn lemma_last(s: Seq<u8>, eq: bool)
    ensures
        last_slash(s, eq) matches Some(i) ==> 0 <= i < s.len() && (s[i] == SLASH) == eq && forall|
            j: int,
        |
            i < j < s.len() ==> (#[trigger] s[j] == SLASH) != eq,
        last_slash(s, eq) is None ==> forall|j: int|
            0 <= j < s.len() ==> (#[trigger] s[j] == SLASH) != eq,
    decreases s.len(),
{
    if s.len() > 0 && (s.last() == SLASH) != eq {
        let t = s.drop_last();
        lemma_last(t, eq);
        assert forall|j: int| 0 <= j < s.len() && (last_slash(s, eq) matches Some(i) ==> i < j) implies (
        #[trigger] s[j] == SLASH) != eq by {
            if j < t.len() {
                assert(t[j] == s[j]);
            }
        }
    }
}

proof fn lemma_only_slashes(s: Seq<u8>)
    requires
        forall|j: int| 0 <= j < s.len() ==> #[trigger] s[j] == SLASH,
    ensures
        parts(s) == Seq::<Part>::empty(),
    decreases s.len(),
{
    if s.len() > 0 {
        lemma_only_slashes(s.drop_first());
    }
}

/// The last name of a path is its last component, and the path of its parent has the others. Only a
/// path of slashes alone has no last name.
pub proof fn last_name_and_the_rest(s: Seq<u8>)
    ensures
        file_name_of(s) is None <==> forall|j: int| 0 <= j < s.len() ==> #[trigger] s[j] == SLASH,
        file_name_of(s) matches Some(n) ==> {
            &&& plain(n)
            &&& parent_of(s) matches Some(p) ==> path_parts(s) == path_parts(p).push(part_of(n))
            &&& parent_of(s) is None ==> path_parts(s) == seq![part_of(n)]
        },
        parent_of(seq![SLASH]) is None,
{
    lemma_last(s, false);
    let t = trimmed(s);
    if let Some(j) = last_slash(s, false) {
        let tail = s.skip(j + 1);
        assert(s[j] != SLASH);
        assert forall|i: int| 0 <= i < tail.len() implies #[trigger] tail[i] == SLASH by {
            assert(tail[i] == s[j + 1 + i]);
        }
        lemma_only_slashes(tail);
        assert(parts(s) =~= parts(t)) by {
            if tail.len() == 0 {
                assert(t =~= s);
            } else {
                let more = tail.drop_first();
                lemma_only_slashes(more);
                names_of_joined_paths(t, more);
                assert(s =~= t.push(SLASH) + more);
            }
        }
        lemma_last(t, true);
        let n = file_name_of(s)->0;
        match last_slash(t, true) {
            Some(i) => {
                assert(i < j);
                assert(plain(n)) by {
                    assert forall|k: int| 0 <= k < n.len() implies #[trigger] n[k] != SLASH by {
                        assert(n[k] == t[i + 1 + k]);
                    }
                }
                names_are_components(n);
                names_of_joined_paths(t.take(i), n);
                assert(t =~= t.take(i).push(SLASH) + n);
                assert(t.take(i) =~= s.take(i));
                assert(parts(s) =~= parts(s.take(i)).push(part_of(n)));
                assert(s.len() > 1);
                assert(s != seq![SLASH]);
                if i == 0 {
                    assert(s[0] == t[0]);
                    lemma_only_slashes(s.take(0));
                    lemma_only_slashes(seq![SLASH]);
                    assert(path_parts(s) =~= path_parts(seq![SLASH]).push(part_of(n)));
                } else {
                    assert(s.take(i)[0] == s[0]);
                    assert(path_parts(s) =~= path_parts(s.take(i)).push(part_of(n)));
                }
            },
            None => {
                assert(plain(n)) by {
                    assert forall|k: int| 0 <= k < n.len() implies #[trigger] n[k] != SLASH by {
                        assert(n[k] == t[k]);
                    }
                }
                names_are_components(n);
                assert(s[0] == t[0]);
                assert(t[0] != SLASH);
                assert(path_parts(s) =~= seq![part_of(n)]);
            },
        }
    } else {
        assert(t.len() == 0);
    }
}

/// Where paths lead that are empty, or name nothing but the root; and how many links may be followed.
pub proof fn short_paths(v: FsView, root: u64, cwd: u64, follow: bool, creds: CredsView)
    ensures
        walk_path(v, root, cwd, Seq::empty(), follow, creds, 0) == Err::<Found, i32>(EINVAL),
        walk_path(v, root, cwd, seq![47u8], follow, creds, 0) matches Ok(f) && f.ino == Some(root),
        SYMLOOP_MAX == 40,
{
    lemma_only_slashes(seq![SLASH]);
    assert(path_parts(seq![SLASH]) =~= seq![Part::RootDir]);
    assert(seq![Part::RootDir].drop_first() =~= Seq::empty());
    assert(absolute(seq![47u8]));
    assert(walk_parts(v, root, root, Seq::empty(), follow, creds, 0) == Ok::<Found, i32>(
        Found { parent: root, name: Seq::empty(), ino: Some(root) },
    ));
    assert(walk_parts(v, root, root, seq![Part::RootDir], follow, creds, 0) == walk_parts(
        v,
        root,
        root,
        Seq::empty(),
        follow,
        creds,
        0,
    ));
}

/// A copy has the permissions of what was copied.
pub proof fn copies_keep_permissions(v: FsView, at: Place, from: Seq<u8>, to: Seq<u8>)
    requires
        copy_at(v, at, from, to).1 is Ok,
    ensures
        ({
            let w = copy_at(v, at, from, to).0;
            let (u, data) = read_at_path(v, at, from);
            let x = write_at_path(u, at, to, data->Ok_0).0;
            let src = stat_at(u, at, from, true)->Ok_0;
            let dst = find_file(x, at, to, true)->Ok_0;
            &&& data is Ok
            &&& write_at_path(u, at, to, data->Ok_0).1 is Ok
            &&& stat_at(u, at, from, true) is Ok
            &&& find_file(x, at, to, true) is Ok
            &&& w.nodes[dst].meta.mode & 0o7777 == u.nodes[src].meta.mode & 0o7777
            &&& w.nodes[dst].data == x.nodes[dst].data
            &&& copy_at(v, at, from, to).1 == Ok::<u64, i32>(data->Ok_0.len() as u64)
        }),
{
    let (u, data) = read_at_path(v, at, from);
    let x = write_at_path(u, at, to, data->Ok_0).0;
    let src = stat_at(u, at, from, true)->Ok_0;
    let dst = find_file(x, at, to, true)->Ok_0;
    chmod_means(x, dst, u.nodes[src].meta.mode, at.creds);
}

/// Numbers of files are below the next new one, and the free ones are not in use and on the list once.
pub open spec fn numbered(v: FsView) -> bool {
    &&& forall|x: u64| #[trigger] v.nodes.contains_key(x) ==> x < v.next_inode
    &&& forall|i: int|
        0 <= i < v.free_inodes.len() ==> (#[trigger] v.free_inodes[i]) < v.next_inode
            && !v.nodes.contains_key(v.free_inodes[i])
    &&& forall|i: int, j: int|
        0 <= i < j < v.free_inodes.len() ==> v.free_inodes[i] != v.free_inodes[j]
}

/// New files leave the numbers in order.
proof fn lemma_create_numbers(
    v: FsView,
    at: Place,
    path: Seq<u8>,
    follow: bool,
    mode: u16,
    rdev: u64,
)
    requires
        numbered(v),
        orphans_open(v),
    ensures
        tidy(v),
        numbered(create_at(v, at, path, follow, mode, rdev).0),
        orphans_open(create_at(v, at, path, follow, mode, rdev).0),
{
    let w = create_at(v, at, path, follow, mode, rdev).0;
    if v.free_inodes.len() > 0 {
        let k = v.free_inodes.len() - 1;
        assert(v.free_inodes[k] == next_ino(v));
    }
    assert forall|x: u64| #[trigger] w.orphans.contains(x) implies opens_of(w, x) > 0 by {
        assert(v.orphans.contains(x));
        assert(opens_of(v, x) > 0);
    }
    if w != v {
        assert forall|x: u64| #[trigger] w.nodes.contains_key(x) implies x < w.next_inode && (x
            == next_ino(v) || v.nodes.contains_key(x)) by {}
        assert forall|i: int| 0 <= i < w.free_inodes.len() implies (#[trigger] w.free_inodes[i])
            < w.next_inode && !w.nodes.contains_key(w.free_inodes[i]) by {
            assert(w.free_inodes[i] == v.free_inodes[i]);
        }
    }
}

proof fn lemma_mkdir_all_numbers(v: FsView, at: Place, path: Seq<u8>)
    requires
        numbered(v),
        orphans_open(v),
    ensures
        numbered(mkdir_all(v, at, path).0),
        orphans_open(mkdir_all(v, at, path).0),
    decreases path.len(),
{
    if path.len() > 0 && path != root_path() {
        let u = match made_first(path) {
            Some(p) => mkdir_all(v, at, p).0,
            None => v,
        };
        if let Some(p) = made_first(path) {
            lemma_mkdir_all_numbers(v, at, p);
        }
        lemma_create_numbers(u, at, path, true, S_IFDIR | masked_mode(0o777, 0o022), 0);
    }
}

/// Where a directory was created with those that lead to it, its path leads to a directory.
pub proof fn made_directories_are_there(v: FsView, at: Place, path: Seq<u8>)
    requires
        numbered(v),
        orphans_open(v),
        path.len() > 0,
        path != seq![47u8],
        mkdir_all(v, at, path).1 is Ok,
        in_memory(mkdir_all(v, at, path).0),
    ensures
        ({
            let w = mkdir_all(v, at, path).0;
            stat_at(w, at, path, true) matches Ok(ino) && type_at(w, ino) is Directory
        }),
{
    let u = match made_first(path) {
        Some(p) => mkdir_all(v, at, p).0,
        None => v,
    };
    if let Some(p) = made_first(path) {
        lemma_mkdir_all_numbers(v, at, p);
    }
    lemma_create_numbers(u, at, path, true, S_IFDIR | masked_mode(0o777, 0o022), 0);
    if mkdir_at(u, at, path, 0o777, 0o022).1 is Ok {
        new_directory_is_empty(u, at, path, 0o777, 0o022);
    }
}

/// A name that is found for a file is one of its names, and neither `.` nor `..`.
proof fn lemma_name_of(es: Seq<DirItem>, ino: u64)
    ensures
        name_of(es, ino) matches Some(n) ==> n != dot() && n != dot_dot() && exists|k: int|
            0 <= k < es.len() && (#[trigger] es[k]).name == n && es[k].ino == ino,
    decreases es.len(),
{
    if es.len() > 0 {
        let front = es.drop_last();
        lemma_name_of(front, ino);
        if let Some(n) = name_of(es, ino) {
            if name_of(front, ino) is Some {
                let k = choose|k: int|
                    0 <= k < front.len() && (#[trigger] front[k]).name == n && front[k].ino == ino;
                assert(es[k].name == n && es[k].ino == ino);
            } else {
                assert(es[es.len() - 1].name == n);
            }
        }
    }
}

/// The root directory, from where everything can be searched.
pub open spec fn at_root(creds: CredsView) -> Place {
    Place { root: 1, cwd: 1, creds }
}

/// The path that is made up for a directory leads to it.
pub proof fn path_up_leads_back(v: FsView, creds: CredsView, way: Seq<u64>, n: nat)
    requires
        orderly(v),
        1 <= way.len() <= n + 1,
        way.last() == 1,
        climbs(v, way),
        forall|i: int| 0 <= i < way.len() - 1 ==> #[trigger] way[i] != 1,
        forall|i: int| 0 <= i < way.len() ==> v.nodes.contains_key(#[trigger] way[i]),
        forall|x: u64| #[trigger] allowed(v, x, creds, Access::Exec),
        path_up(v, way[0], n) is Ok,
    ensures
        find_file(v, at_root(creds), path_up(v, way[0], n)->Ok_0, false) == Ok::<u64, i32>(way[0]),
    decreases way.len(),
{
    short_paths(v, 1, 1, false, creds);
    assert(root_path() =~= seq![47u8]);
    if way.len() > 1 {
        let ino = way[0];
        let rest = way.drop_first();
        let p = rest[0];
        assert(has_parent(v, way[0], way[1]));
        assert(dot_dot() =~= seq![46u8, 46u8]);
        assert(parent_dir(v, ino) == Ok::<u64, i32>(p));
        assert forall|i: int| 0 <= i < rest.len() - 1 implies has_parent(
            v,
            #[trigger] rest[i],
            rest[i + 1],
        ) && rest[i] != 1 by {
            assert(rest[i] == way[i + 1]);
        }
        assert forall|i: int| 0 <= i < rest.len() implies v.nodes.contains_key(
            #[trigger] rest[i],
        ) by {
            assert(rest[i] == way[i + 1]);
        }
        path_up_leads_back(v, creds, rest, (n - 1) as nat);
        let base = path_up(v, p, (n - 1) as nat)->Ok_0;
        let es = dir_items(v, p)->Ok_0;
        let name = name_of(es, ino)->0;
        lemma_name_of(es, ino);
        assert(in_order(es));
        let k = choose|k: int|
            0 <= k < es.len() && (#[trigger] es[k]).name == name && es[k].ino == ino;
        lemma_only_position(es, name, k);
        names_lead_on(v, 1, 1, base, name, creds, 0);
        assert(allowed(v, p, creds, Access::Exec));
    }
}

/// The path without links, `.` and `..` that is given for a path leads to the file that the path leads
/// to.
pub proof fn canonical_leads_back(v: FsView, at: Place, path: Seq<u8>, way: Seq<u64>)
    requires
        orderly(v),
        canonical(v, at, path) is Ok,
        find(v, at, path, true) matches Ok(f) && f.ino matches Some(ino) && v.nodes.contains_key(ino)
            && if type_at(v, ino) is Directory {
            way[0] == ino
        } else {
            way[0] == f.parent && name_error(f.name) is None
        },
        1 <= way.len() <= 4097,
        way.last() == 1,
        climbs(v, way),
        forall|i: int| 0 <= i < way.len() - 1 ==> #[trigger] way[i] != 1,
        forall|i: int| 0 <= i < way.len() ==> v.nodes.contains_key(#[trigger] way[i]),
        forall|x: u64| #[trigger] allowed(v, x, at.creds, Access::Exec),
    ensures
        find_file(v, at_root(at.creds), canonical(v, at, path)->Ok_0, false) == find_file(
            v,
            at,
            path,
            true,
        ),
{
    path_up_leads_back(v, at.creds, way, 4096);
    let f = find(v, at, path, true)->Ok_0;
    let ino = f.ino->0;
    if !(type_at(v, ino) is Directory) {
        found_is_looked_up(v, at.root, at.cwd, path, true, at.creds, 0);
        let es = dir_items(v, f.parent)->Ok_0;
        lemma_position_in(es, f.name);
        assert(in_order(es));
        names_lead_on(
            v,
            1,
            1,
            path_up(v, f.parent, 4096)->Ok_0,
            f.name,
            at.creds,
            0,
        );
        assert(allowed(v, f.parent, at.creds, Access::Exec));
    }
}

} // verus!
