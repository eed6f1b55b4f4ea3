//! Where paths lead, name by name.

use vstd::prelude::*;

use crate::calls::{
    find, find_file, mkdir_at, mkdir_there, open_handle, plain_options, read_at_path, reading,
    rewriting, stat_at, write_at_path, Place,
};
use crate::error::{EACCES, EEXIST, EIO, ENOENT, ENOTDIR};
use crate::model::FsView;
use crate::ops::{
    allowed, behind_link, lookup_name, opens_of, type_at, walk_parts, walk_path, whole, Found,
    Outcome,
};
use crate::path::{absolute, joined, lemma_name_len, part_of, parts, path_parts, Part, SYMLOOP_MAX};
use crate::trees::{components_of_joined_names, names_of_joined_paths, plain};
use crate::types::{Access, CredsView};

verus! {

/// Where one more name leads from directory `dir`: `..` to the directory above, but not above the
/// root, and any other name to what the directory has under it.
pub open spec fn next_step(v: FsView, root: u64, dir: u64, name: Seq<u8>, creds: CredsView) -> Outcome<
    Found,
> {
    if !v.nodes.contains_key(dir) {
        Err(EIO)
    } else if name != seq![46u8, 46u8] && !(type_at(v, dir) is Directory) {
        Err(ENOTDIR)
    } else if !allowed(v, dir, creds, Access::Exec) {
        Err(EACCES)
    } else if name == seq![46u8, 46u8] {
        if dir == root {
            Ok(Found { parent: root, name, ino: Some(root) })
        } else {
            match lookup_name(v, dir, name) {
                Err(e) => Err(e),
                Ok(None) => Ok(Found { parent: dir, name, ino: Some(dir) }),
                Ok(Some((up, _))) => Ok(Found { parent: up, name, ino: Some(up) }),
            }
        }
    } else {
        match lookup_name(v, dir, name) {
            Err(e) => Err(e),
            Ok(None) => Ok(Found { parent: dir, name, ino: None }),
            Ok(Some((ino, _))) => if v.nodes.contains_key(ino) {
                Ok(Found { parent: dir, name, ino: Some(ino) })
            } else {
                Err(EIO)
            },
        }
    }
}

/// What follows from where a path leads for that path with one more name.
pub open spec fn stepped_on(
    v: FsView,
    root: u64,
    base: Outcome<Found>,
    name: Seq<u8>,
    creds: CredsView,
) -> Outcome<Found> {
    match base {
        Err(e) => Err(e),
        Ok(f) => match f.ino {
            None => Err(ENOENT),
            Some(dir) => next_step(v, root, dir, name, creds),
        },
    }
}

/// No symbolic link is empty.
pub open spec fn links_hold_something(v: FsView) -> bool {
    forall|x: u64| #[trigger] v.nodes.contains_key(x) && type_at(v, x) is Symlink
        ==> v.nodes[x].data.len() > 0
}

/// A path with a name behind it leads one step further than the path, with the links at its end
/// followed; what goes wrong on the path goes wrong in the same way.
pub proof fn paths_lead_step_by_step(
    v: FsView,
    root: u64,
    cwd: u64,
    path: Seq<u8>,
    name: Seq<u8>,
    creds: CredsView,
    hops: nat,
)
    requires
        path.len() > 0,
        plain(name),
        name != seq![46u8],
        links_hold_something(v),
    ensures
        walk_path(v, root, cwd, joined(path, name), false, creds, hops) == stepped_on(
            v,
            root,
            walk_path(v, root, cwd, path, true, creds, hops),
            name,
            creds,
        ),
    decreases SYMLOOP_MAX - hops, 1int, 0int,
{
    let dir = if absolute(path) {
        root
    } else {
        cwd
    };
    components_of_joined_names(path, name);
    assert(joined(path, name)[0] == path[0]);
    if path_parts(path).len() == 0 {
        lemma_name_len(path);
        assert(false);
    }
    lemma_step(v, root, dir, path_parts(path), name, creds, hops);
}

proof fn lemma_step(
    v: FsView,
    root: u64,
    dir: u64,
    comps: Seq<Part>,
    name: Seq<u8>,
    creds: CredsView,
    hops: nat,
)
    requires
        plain(name),
        name != seq![46u8],
        links_hold_something(v),
    ensures
        walk_parts(v, root, dir, comps.push(part_of(name)), false, creds, hops) == stepped_on(
            v,
            root,
            walk_parts(v, root, dir, comps, true, creds, hops),
            name,
            creds,
        ),
    decreases SYMLOOP_MAX - hops, 0int, comps.len(),
{
    assert(crate::path::dot() =~= seq![46u8]);
    assert(crate::path::dot_dot() =~= seq![46u8, 46u8]);
    let part = part_of(name);
    let all = comps.push(part);
    if comps.len() == 0 {
        assert(all[0] == part);
        assert(all.drop_first() =~= Seq::empty());
    } else {
        let last = comps.len() == 1;
        let rest = comps.drop_first();
        let more = rest.push(part);
        assert(all[0] == comps[0]);
        assert(all.drop_first() =~= more);
        match comps[0] {
            Part::RootDir => lemma_step(v, root, root, rest, name, creds, hops),
            Part::CurDir => lemma_step(v, root, dir, rest, name, creds, hops),
            Part::ParentDir => {
                let up = if dir == root {
                    Ok(None)
                } else {
                    lookup_name(v, dir, crate::path::dot_dot())
                };
                if up is Ok {
                    let d = match up->Ok_0 {
                        Some((p, _)) => p,
                        None => dir,
                    };
                    lemma_step(v, root, d, rest, name, creds, hops);
                }
            },
            Part::Normal(n) => {
                if let Ok(Some((ino, _))) = lookup_name(v, dir, n) {
                    if v.nodes.contains_key(ino) && type_at(v, ino) is Symlink {
                        if hops < SYMLOOP_MAX {
                            if let Ok(target) = whole(v, ino) {
                                assert(more.drop_last() =~= rest);
                                assert(more.last() == part);
                                let base = behind_link(target, rest);
                                lemma_behind(target, rest);
                                assert(behind_link(target, more) == joined(base, name));
                                paths_lead_step_by_step(
                                    v,
                                    root,
                                    dir,
                                    base,
                                    name,
                                    creds,
                                    hops + 1,
                                );
                            }
                        }
                    } else {
                        lemma_step(v, root, ino, rest, name, creds, hops);
                    }
                }
            },
        }
    }
}

proof fn lemma_behind(target: Seq<u8>, rest: Seq<Part>)
    requires
        target.len() > 0,
    ensures
        behind_link(target, rest).len() > 0,
    decreases rest.len(),
{
    if rest.len() > 0 {
        lemma_behind(target, rest.drop_last());
    }
}

/// Joining a path to another one takes the names of both; an absolute path stays as it is.
pub proof fn joining_paths(a: Seq<u8>, b: Seq<u8>)
    ensures
        b.len() > 0 && b[0] == 47 ==> joined(a, b) == b,
        !(b.len() > 0 && b[0] == 47) ==> parts(joined(a, b)) == parts(a) + parts(b),
        !(b.len() > 0 && b[0] == 47) && a.len() > 0 ==> path_parts(joined(a, b)) == path_parts(a)
            + parts(b),
{
    names_of_joined_paths(a, b);
    if !(b.len() > 0 && b[0] == 47) {
        let s = joined(a, b);
        if a.len() > 0 {
            assert(s[0] == a[0]);
            assert(path_parts(s) =~= path_parts(a) + parts(b));
        } else {
            assert(s =~= b);
            assert(parts(a) + parts(b) =~= parts(b));
        }
    }
}

/// A directory that is there already is made without ado; any other file in its place is an error;
/// where there is nothing, it is created for all to search and read.
pub proof fn making_what_is_there(v: FsView, at: Place, path: Seq<u8>)
    ensures
        ({
            let r = mkdir_there(v, at, path);
            &&& stat_at(v, at, path, true) matches Ok(ino) ==> {
                &&& type_at(v, ino) is Directory ==> r == (v, Ok::<(), i32>(()))
                &&& !(type_at(v, ino) is Directory) ==> r == (v, Err::<(), i32>(EEXIST))
            }
            &&& find(v, at, path, true) matches Err(e) ==> (e != EEXIST ==> r == (v, Err::<(), i32>(
                e,
            )))
            &&& find(v, at, path, true) is Ok && find(v, at, path, true)->Ok_0.ino is None && mkdir_at(
                v,
                at,
                path,
                0o777,
                0o022,
            ).1 != Err::<(), i32>(EEXIST) ==> r == mkdir_at(v, at, path, 0o777, 0o022)
        }),
{
}

/// A file reads as what it holds, whoever may open it.
pub proof fn reading_whole_files(v: FsView, at: Place, path: Seq<u8>)
    ensures
        find_file(v, at, path, true) matches Err(e) ==> read_at_path(v, at, path) == (v, Err::<
            Seq<u8>,
            i32,
        >(e)),
        find_file(v, at, path, true) matches Ok(ino) ==> (v.nodes.contains_key(ino) && opens_of(v, ino)
            < 0xffff_ffff && v.nodes[ino].data.len() <= usize::MAX ==> read_at_path(v, at, path).1
            == Ok::<Seq<u8>, i32>(v.nodes[ino].data)),
{
}

/// A regular file can be written anew wherever the volume can be written and the data are not too
/// long; it holds just the data then.
pub proof fn writing_whole_files(v: FsView, at: Place, path: Seq<u8>, data: Seq<u8>)
    requires
        find_file(v, at, path, true) matches Ok(ino) && v.nodes.contains_key(ino) && type_at(v, ino)
            is File && opens_of(v, ino) < 0xffff_ffff && !v.orphans.contains(ino),
    ensures
        ({
            let (w, r) = write_at_path(v, at, path, data);
            let ino = find_file(v, at, path, true)->Ok_0;
            &&& r is Ok <==> v.writable && data.len() <= 0x1000_0000_0000
            &&& r is Ok ==> w.nodes[ino].data == data
        }),
{
    let ino = find_file(v, at, path, true)->Ok_0;
    let (u, q) = open_handle(v, at, path, rewriting(), 0o022, true);
    let (w, r) = write_at_path(v, at, path, data);
    if r is Ok {
        assert(w.nodes[ino].data =~= data);
    }
}

/// What is asked for by the options to start with, to read, and to write a file anew.
pub proof fn options_to_open()
    ensures
        ({
            let o = plain_options();
            &&& !o.read && !o.write && !o.append && !o.truncate && !o.create && !o.create_new
            &&& !o.nofollow && !o.directory
            &&& o.mode == 0o666
        }),
        ({
            let o = reading();
            &&& o.read && !o.write && !o.append && !o.truncate && !o.create && !o.create_new
            &&& !o.nofollow && !o.directory
        }),
        ({
            let o = rewriting();
            &&& !o.read && o.write && !o.append && o.truncate && o.create && !o.create_new
            &&& !o.nofollow && !o.directory
            &&& o.mode == 0o666
        }),
{
}

} // verus!
