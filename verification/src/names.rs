//! Names: directories, the walk along paths, and what creates, moves and removes names.

use vstd::prelude::*;

use crate::attrs::bytes_out;
use crate::bytes::{bytes_equal, copy_bytes, zero_vec};
use crate::data::{apart, done, lemma_apart, lemma_apart_put};
use crate::dir::{decode_dir, dir_bytes, encode_dir, items, DirEntry, DirItem};
use crate::error::{
    eacces, eexist, einval, eisdir, eloop, enoent, enotdir, enotempty, eperm, Error, Result, EFBIG,
    EMLINK, ENOSPC, EOVERFLOW,
};
use crate::format::{INLINE_MAX, ROOT_INO};
use crate::inner::{inode_shape, keeps, Inner};
use crate::model::{overwritten, FsView, Meta};
use crate::ops::{
    allowed, behind_link, create_child_op, create_room, created, dir_fits, dir_insert_op,
    dir_insert_room, dir_items, dir_remove_op, dir_remove_room, directories, dot_items, is_above,
    left_over, lemma_left_same, lemma_spared_on, lemma_spared_same, link_op, list_room, lookup_name,
    move_dir_room, move_room, moved_dir, moved_name, next_ino, nodes_left, only_dots, out_of_inodes,
    position_of, removable, rename_check, rename_op, rename_room, reparented, same_outcome,
    same_outside, spared, sticky_op, table_room, type_at, under_name, unlink_op, unlinked,
    walk_parts, walk_path, whole, with_items, write_dir_op, Found, MAX_INODES, SPARE_INODES,
};
use crate::path::{
    dot, dot_dot, dot_dot_name, dot_name, is_dot, is_dot_dot, part_views, validate_name, Component,
    Part, UnixPath, UnixPathBuf, SYMLOOP_MAX,
};
use crate::types::{
    check_access, type_of_mode, Access, Creds, CredsView, FileType, MAX_FILE_SIZE, S_ISVTX,
};
use crate::extents::sum_plen;

verus! {

broadcast use vstd::std_specs::hash::group_hash_axioms;

/// Where a path leads.
pub struct Resolved {
    /// The directory that has the last name of the path.
    pub parent: u64,
    pub name: Vec<u8>,
    /// The inode under that name, if there is one.
    pub ino: Option<u64>,
}

impl View for Resolved {
    type V = Found;

    open spec fn view(&self) -> Found {
        Found { parent: self.parent, name: self.name@, ino: self.ino }
    }
}

/// A result with its entries as a sequence.
pub open spec fn items_out(r: Result<Vec<DirEntry>>) -> std::result::Result<Seq<DirItem>, Error> {
    match r {
        Ok(v) => Ok(items(v@)),
        Err(e) => Err(e),
    }
}

/// A result with the place that was found as a value.
pub open spec fn found_out(r: Result<Resolved>) -> std::result::Result<Found, Error> {
    match r {
        Ok(x) => Ok(x@),
        Err(e) => Err(e),
    }
}

/// Position of the first entry called `name`.
fn find_entry(entries: &Vec<DirEntry>, name: &[u8]) -> (r: Option<usize>)
    ensures
        match r {
            Some(k) => k < entries@.len() && position_of(items(entries@), name@) == Some(k as int),
            None => position_of(items(entries@), name@) is None,
        },
{
    let n: usize = entries.len();
    let mut i: usize = 0;
    while i < n
        invariant
            i <= n,
            n == entries@.len(),
            position_of(items(entries@.take(i as int)), name@) is None,
        decreases n - i,
    {
        proof {
            assert(items(entries@.take(i + 1)).drop_last() =~= items(entries@.take(i as int)));
        }
        if bytes_equal(entries[i].name.as_slice(), name) {
            proof {
                assert(items(entries@).take(i as int) =~= items(entries@.take(i as int)));
                lemma_first_entry(items(entries@), name@, i as int);
            }
            return Some(i);
        }
        i = i + 1;
    }
    assert(entries@.take(n as int) =~= entries@);
    None
}

/// The first entry of its name.
pub proof fn lemma_first_entry(es: Seq<DirItem>, name: Seq<u8>, k: int)
    requires
        0 <= k < es.len(),
        es[k].name == name,
        position_of(es.take(k), name) is None,
    ensures
        position_of(es, name) == Some(k),
    decreases es.len(),
{
    if k < es.len() - 1 {
        assert(es.drop_last().take(k) =~= es.take(k));
        lemma_first_entry(es.drop_last(), name, k);
    } else {
        assert(es.take(k) =~= es.drop_last());
    }
}

/// Whether there are no entries but `.` and `..`.
fn has_only_dots(entries: &Vec<DirEntry>) -> (b: bool)
    ensures
        b == only_dots(items(entries@)),
{
    let n: usize = entries.len();
    let mut i: usize = 0;
    while i < n
        invariant
            i <= n,
            n == entries@.len(),
            forall|k: int|
                0 <= k < i ==> (#[trigger] items(entries@)[k]).name == dot() || items(
                    entries@,
                )[k].name == dot_dot(),
        decreases n - i,
    {
        if !is_dot(entries[i].name.as_slice()) && !is_dot_dot(entries[i].name.as_slice()) {
            assert(items(entries@)[i as int].name != dot());
            return false;
        }
        i = i + 1;
    }
    true
}

impl Inner {
    /// The contents of file `ino` as one piece.
    pub fn read_whole(&mut self, ino: u64) -> (r: Result<Vec<u8>>)
        requires
            old(self).wf(),
        ensures
            final(self).wf(),
            final(self)@ == old(self)@,
            keeps(*old(self), *final(self)),
            done(*old(self), *final(self), (old(self)@, whole(old(self)@, ino)), bytes_out(r), 0, 0),
    {
        let size = match self.get_inode(ino) {
            Ok(i) => i.size,
            Err(e) => return Err(e),
        };
        if size > usize::MAX as u64 {
            return Err(Error::from_errno(EOVERFLOW));
        }
        let ghost data = self@.nodes[ino].data;
        assert(self@.nodes.contains_key(ino));
        let mut buf = zero_vec(size as usize);
        let ghost b0 = buf@;
        match self.read_data(ino, 0, buf.as_mut_slice()) {
            Ok(_) => {},
            Err(e) => return Err(e),
        }
        assert(buf@ =~= data);
        Ok(buf)
    }

    /// The entries of directory `ino`.
    pub(crate) fn parse_dir(&mut self, ino: u64) -> (r: Result<Vec<DirEntry>>)
        requires
            old(self).wf(),
        ensures
            final(self).wf(),
            final(self)@ == old(self)@,
            keeps(*old(self), *final(self)),
            done(*old(self), *final(self), (old(self)@, dir_items(old(self)@, ino)), items_out(r), 0, 0),
    {
        match self.get_inode(ino) {
            Ok(i) => {
                if !i.is_dir() {
                    return Err(enotdir("not a directory"));
                }
            },
            Err(e) => return Err(e),
        }
        let raw = match self.read_whole(ino) {
            Ok(raw) => raw,
            Err(e) => return Err(e),
        };
        decode_dir(raw.as_slice())
    }

    pub fn read_dir_entries(&mut self, dir_ino: u64) -> (r: Result<Vec<DirEntry>>)
        requires
            old(self).wf(),
        ensures
            final(self).wf(),
            final(self)@ == old(self)@,
            keeps(*old(self), *final(self)),
            done(
                *old(self),
                *final(self),
                (old(self)@, dir_items(old(self)@, dir_ino)),
                items_out(r),
                0,
                0,
            ),
    {
        self.parse_dir(dir_ino)
    }

    /// Gives directory `ino` other entries.
    pub(crate) fn write_dir_entries(&mut self, ino: u64, entries: &[DirEntry]) -> (r: Result<()>)
        requires
            old(self).wf(),
        ensures
            final(self).wf(),
            keeps(*old(self), *final(self)),
            apart(*old(self), *final(self), ino),
            r is Ok && old(self).inodes@.contains_key(ino) && old(self).inodes@[ino].data_kind is Inline
                && dir_bytes(items(entries@)).len() <= INLINE_MAX
                ==> final(self).inodes@[ino].data_kind is Inline,
            done(
                *old(self),
                *final(self),
                write_dir_op(old(self)@, ino, items(entries@)),
                r,
                list_room(items(entries@)),
                0,
            ),
            r is Err ==> spared(old(self)@, final(self)@, set![ino]),
            type_at(old(self)@, ino) is Directory ==> left_over(old(self)@, final(self)@),
    {
        let ghost v0 = self@;
        let ghost s0 = *self;
        proof {
            lemma_apart_put(s0, s0, ino);
            lemma_spared_same(v0, set![ino]);
            lemma_left_same(v0);
        }
        let ghost es = items(entries@);
        match self.require_write() {
            Ok(_) => {},
            Err(e) => return Err(e),
        }
        let raw = encode_dir(entries);
        if entries.len() as u64 > u32::MAX as u64 || raw.len() as u64 > MAX_FILE_SIZE {
            return Err(Error::from_errno(EFBIG));
        }
        match self.truncate_data(ino, 0) {
            Ok(_) => {},
            Err(e) => return Err(e),
        }
        let ghost v1 = self@;
        let ghost s1 = *self;
        let res = self.write_data(ino, 0, raw.as_slice());
        proof {
            let d0 = v0.nodes[ino].data;
            lemma_dir_len(es);
            lemma_apart(s0, s1, *self, ino);
            assert(v1.nodes[ino].data.len() == 0);
            assert(overwritten(v1.nodes[ino].data, 0, raw@) =~= raw@);
            if res is Ok {
                assert(self@.nodes =~= with_items(v0, ino, es).nodes);
            }
            assert(spared(v0, self@, set![ino])) by {
                reveal(same_outside);
            }
            assert(type_at(v0, ino) is Directory ==> left_over(v0, self@)) by {
                reveal(nodes_left);
            }
        }
        match res {
            Ok(_) => Ok(()),
            Err(e) => Err(e),
        }
    }

    /// The inode and the type that directory `dir_ino` has under `name`.
    pub fn dir_lookup(&mut self, dir_ino: u64, name: &[u8]) -> (r: Result<Option<(u64, FileType)>>)
        requires
            old(self).wf(),
        ensures
            final(self).wf(),
            final(self)@ == old(self)@,
            keeps(*old(self), *final(self)),
            done(
                *old(self),
                *final(self),
                (old(self)@, lookup_name(old(self)@, dir_ino, name@)),
                r,
                0,
                0,
            ),
    {
        let entries = match self.parse_dir(dir_ino) {
            Ok(v) => v,
            Err(e) => return Err(e),
        };
        match find_entry(&entries, name) {
            Some(k) => Ok(Some((entries[k].ino, entries[k].file_type))),
            None => Ok(None),
        }
    }

    /// Adds an entry to directory `dir_ino`.
    pub fn dir_insert(&mut self, dir_ino: u64, name: &[u8], child: u64, ft: FileType) -> (r: Result<
        (),
    >)
        requires
            old(self).wf(),
        ensures
            final(self).wf(),
            keeps(*old(self), *final(self)),
            done(
                *old(self),
                *final(self),
                dir_insert_op(old(self)@, dir_ino, name@, child, ft),
                r,
                dir_insert_room(old(self)@, dir_ino, name@, child, ft),
                0,
            ),
            r is Err ==> spared(old(self)@, final(self)@, set![dir_ino]),
    {
        proof {
            lemma_spared_same(self@, set![dir_ino]);
        }
        match validate_name(name) {
            Ok(_) => {},
            Err(e) => return Err(e),
        }
        let mut entries = match self.parse_dir(dir_ino) {
            Ok(v) => v,
            Err(e) => return Err(e),
        };
        if find_entry(&entries, name).is_some() {
            return Err(eexist("file exists"));
        }
        let ghost es = items(entries@);
        entries.push(DirEntry { ino: child, file_type: ft, name: copy_bytes(name) });
        assert(items(entries@) =~= es.push(DirItem { ino: child, file_type: ft, name: name@ }));
        self.write_dir_entries(dir_ino, entries.as_slice())
    }

    /// Removes an entry from directory `dir_ino`, and returns it.
    pub fn dir_remove(&mut self, dir_ino: u64, name: &[u8]) -> (r: Result<(u64, FileType)>)
        requires
            old(self).wf(),
        ensures
            final(self).wf(),
            keeps(*old(self), *final(self)),
            done(*old(self), *final(self), dir_remove_op(old(self)@, dir_ino, name@), r, dir_remove_room(old(self)@, dir_ino, name@), 0),
            r is Err ==> spared(old(self)@, final(self)@, set![dir_ino]),
            left_over(old(self)@, final(self)@),
    {
        proof {
            lemma_spared_same(self@, set![dir_ino]);
            lemma_left_same(self@);
        }
        let mut entries = match self.parse_dir(dir_ino) {
            Ok(v) => v,
            Err(e) => return Err(e),
        };
        let k = match find_entry(&entries, name) {
            Some(k) => k,
            None => return Err(enoent("no such file or directory")),
        };
        let ghost es = items(entries@);
        let gone = entries.remove(k);
        assert(items(entries@) =~= es.remove(k as int));
        match self.write_dir_entries(dir_ino, entries.as_slice()) {
            Ok(_) => Ok((gone.ino, gone.file_type)),
            Err(e) => Err(e),
        }
    }

    /// Checks the permissions for an access to inode `ino`.
    pub(crate) fn access_ok(&self, ino: u64, creds: &Creds, acc: Access) -> (r: Result<()>)
        requires
            self@.nodes.contains_key(ino),
        ensures
            match r {
                Ok(_) => allowed(self@, ino, creds@, acc),
                Err(e) => !allowed(self@, ino, creds@, acc) && e.is(crate::error::EACCES),
            },
    {
        if !self.check_perm {
            return Ok(());
        }
        match self.inodes.get(&ino) {
            Some(i) => if check_access(i.mode, i.uid, i.gid, creds, acc) {
                Ok(())
            } else {
                Err(eacces("permission denied"))
            },
            None => Ok(()),
        }
    }
}

/// What is left of a path behind a symbolic link to `target`.
fn path_behind_link(target: Vec<u8>, comps: &Vec<Component>, from: usize) -> (buf: UnixPathBuf)
    requires
        from <= comps@.len(),
    ensures
        buf@ == behind_link(target@, part_views(comps@).skip(from as int)),
{
    let ghost rest = part_views(comps@).skip(from as int);
    let ghost t = target@;
    let mut buf = UnixPathBuf::from_bytes(target);
    let n: usize = comps.len();
    let mut i: usize = from;
    assert(rest.take(0) =~= Seq::<Part>::empty());
    while i < n
        invariant
            from <= i <= n,
            n == comps@.len(),
            rest == part_views(comps@).skip(from as int),
            buf@ == behind_link(t, rest.take(i - from)),
        decreases n - i,
    {
        proof {
            assert(rest.take(i + 1 - from).drop_last() =~= rest.take(i - from));
            assert(rest.take(i + 1 - from).last() == comps@[i as int]@);
        }
        match comps[i] {
            Component::RootDir => {
                buf = UnixPathBuf::root();
            },
            Component::CurDir => {},
            Component::ParentDir => {
                let up = dot_dot_name();
                buf.push(UnixPath::from_bytes(up.as_slice()));
            },
            Component::Normal(name) => {
                buf.push(UnixPath::from_bytes(name));
            },
        }
        i = i + 1;
    }
    assert(rest.take(n - from) =~= rest);
    buf
}

impl Inner {
    /// Finds what `path` leads to. Relative paths start at `cwd`, absolute ones at `root`; a last
    /// symbolic link is followed where `follow_last` says so.
    pub fn walk(
        &mut self,
        root: u64,
        cwd: u64,
        path: UnixPath,
        follow_last: bool,
        creds: &Creds,
    ) -> (r: Result<Resolved>)
        requires
            old(self).wf(),
        ensures
            final(self).wf(),
            final(self)@ == old(self)@,
            keeps(*old(self), *final(self)),
            done(
                *old(self),
                *final(self),
                (old(self)@, walk_path(old(self)@, root, cwd, path@, follow_last, creds@, 0)),
                found_out(r),
                0,
                0,
            ),
    {
        self.walk_on(root, cwd, path, follow_last, creds, 0)
    }

    /// The walk along `path` after `hops` symbolic links.
    #[verifier::rlimit(60)]
    fn walk_on(
        &mut self,
        root: u64,
        cwd: u64,
        path: UnixPath,
        follow_last: bool,
        creds: &Creds,
        hops: usize,
    ) -> (r: Result<Resolved>)
        requires
            old(self).wf(),
            hops <= SYMLOOP_MAX,
        ensures
            final(self).wf(),
            final(self)@ == old(self)@,
            keeps(*old(self), *final(self)),
            done(
                *old(self),
                *final(self),
                (
                    old(self)@,
                    walk_path(old(self)@, root, cwd, path@, follow_last, creds@, hops as nat),
                ),
                found_out(r),
                0,
                0,
            ),
        decreases SYMLOOP_MAX - hops,
    {
        let ghost s0 = *self;
        let ghost v = self@;
        if path.is_empty() {
            return Err(einval("empty path"));
        }
        let mut dir: u64 = if path.is_absolute() {
            root
        } else {
            cwd
        };
        let comps = path.component_list();
        let n: usize = comps.len();
        if n == 0 {
            return Ok(Resolved { parent: root, name: Vec::new(), ino: Some(dir) });
        }
        let ghost parts = part_views(comps@);
        let ghost want = walk_parts(v, root, dir, parts, follow_last, creds@, hops as nat);
        assert(parts.skip(0) =~= parts);
        let mut i: usize = 0;
        while i < n
            invariant
                self.wf(),
                self@ == v,
                s0 == *old(self),
                s0@ == v,
                keeps(s0, *self),
                self.load() <= s0.load(),
                hops <= SYMLOOP_MAX,
                i <= n,
                n == comps@.len(),
                parts == part_views(comps@),
                want == walk_path(v, root, cwd, path@, follow_last, creds@, hops as nat),
                want == walk_parts(
                    v,
                    root,
                    dir,
                    parts.skip(i as int),
                    follow_last,
                    creds@,
                    hops as nat,
                ),
            decreases n - i,
        {
            let last = i + 1 == n;
            proof {
                assert(parts.skip(i as int)[0] == comps@[i as int]@);
                assert(parts.skip(i as int).drop_first() =~= parts.skip(i + 1));
            }
            match comps[i] {
                Component::RootDir => {
                    dir = root;
                },
                Component::CurDir => {},
                Component::ParentDir => {
                    match self.get_inode(dir) {
                        Ok(_) => {},
                        Err(e) => return Err(e),
                    }
                    match self.access_ok(dir, creds, Access::Exec) {
                        Ok(_) => {},
                        Err(e) => return Err(e),
                    }
                    if dir != root {
                        let up = dot_dot_name();
                        match self.dir_lookup(dir, up.as_slice()) {
                            Ok(Some((p, _))) => {
                                dir = p;
                            },
                            Ok(None) => {},
                            Err(e) => return Err(e),
                        }
                    }
                    if last {
                        return Ok(
                            Resolved { parent: dir, name: dot_dot_name(), ino: Some(dir) },
                        );
                    }
                },
                Component::Normal(name) => {
                    match self.get_inode(dir) {
                        Ok(d) => {
                            if !d.is_dir() {
                                return Err(enotdir("not a directory"));
                            }
                        },
                        Err(e) => return Err(e),
                    }
                    match self.access_ok(dir, creds, Access::Exec) {
                        Ok(_) => {},
                        Err(e) => return Err(e),
                    }
                    let hit = match self.dir_lookup(dir, name) {
                        Ok(x) => x,
                        Err(e) => return Err(e),
                    };
                    let ino = match hit {
                        Some((ino, _)) => ino,
                        None => {
                            if last {
                                return Ok(
                                    Resolved { parent: dir, name: copy_bytes(name), ino: None },
                                );
                            }
                            return Err(enoent("no such file or directory"));
                        },
                    };
                    let link = match self.get_inode(ino) {
                        Ok(c) => c.is_symlink(),
                        Err(e) => return Err(e),
                    };
                    if link && (!last || follow_last) {
                        if hops >= SYMLOOP_MAX {
                            return Err(eloop());
                        }
                        let target = match self.read_whole(ino) {
                            Ok(t) => t,
                            Err(e) => return Err(e),
                        };
                        let rest = path_behind_link(target, &comps, i + 1);
                        return self.walk_on(
                            root,
                            dir,
                            rest.as_path(),
                            follow_last,
                            creds,
                            hops + 1,
                        );
                    }
                    if last {
                        return Ok(
                            Resolved { parent: dir, name: copy_bytes(name), ino: Some(ino) },
                        );
                    }
                    dir = ino;
                },
            }
            i = i + 1;
        }
        Ok(Resolved { parent: dir, name: Vec::new(), ino: Some(dir) })
    }

    /// Creates the file of number `ino`, which is the next to be created, and gives directory
    /// `parent` the entries `entries`.
    #[verifier::rlimit(100)]
    #[verifier::spinoff_prover]
    fn make_child(
        &mut self,
        parent: u64,
        ino: u64,
        entries: &Vec<DirEntry>,
        mode: u16,
        uid: u32,
        gid: u32,
        rdev: u64,
    ) -> (r: Result<u64>)
        requires
            old(self).wf(),
            old(self).writable,
            old(self)@.nodes.contains_key(parent),
            ino == next_ino(old(self)@),
            !out_of_inodes(old(self)@),
            dir_fits(items(entries@)),
            type_at(old(self)@, parent) is Directory,
            type_of_mode(mode) is Directory ==> old(self)@.nodes[parent].meta.nlink < u32::MAX,
        ensures
            final(self).wf(),
            keeps(*old(self), *final(self)),
            r matches Ok(n) ==> final(self).inodes@[n].data_kind is Inline && final(self).inodes@[n].blocks
                == 0,
            done(
                *old(self),
                *final(self),
                (
                    created(old(self)@, ino, parent, mode, uid, gid, rdev, items(entries@)),
                    Ok::<u64, i32>(ino),
                ),
                r,
                table_room() + list_room(dot_items(ino, parent)) + list_room(items(entries@)),
                1,
            ),
            r is Err ==> spared(old(self)@, final(self)@, set![parent, ino]),
            r is Err ==> spared(old(self)@, final(self)@, directories(old(self)@)),
    {
        let ghost s0 = *self;
        let ghost v = self@;
        let ghost touched = set![parent, ino];
        let ft = FileType::from_mode(mode);
        let links: u32 = match self.meta(parent) {
            Ok(m) => m.nlink,
            Err(e) => return Err(e),
        };
        proof {
            lemma_spared_same(v, touched);
            lemma_spared_same(v, directories(v));
        }
        match self.alloc_inode(mode, uid, gid) {
            Ok(_) => {},
            Err(e) => return Err(e),
        }
        let ghost w1 = self@;
        proof {
            lemma_ino_new(s0);
            assert(w1.nodes.contains_key(ino));
            assert(ino != parent);
            assert(touched.subset_of(directories(v)));
            assert(spared(v, w1, touched)) by {
                reveal(same_outside);
            }
        }
        let m = match self.meta(ino) {
            Ok(m) => m,
            Err(e) => return Err(e),
        };
        if ft.is_dir() {
            self.set_meta(ino, Meta { rdev, nlink: 2, ..m });
            let ghost w2 = self@;
            assert(spared(v, w2, touched)) by {
                reveal(same_outside);
            }
            let mut dots: Vec<DirEntry> = Vec::new();
            dots.push(DirEntry { ino, file_type: FileType::Directory, name: dot_name() });
            dots.push(
                DirEntry { ino: parent, file_type: FileType::Directory, name: dot_dot_name() },
            );
            proof {
                assert(items(dots@) =~= dot_items(ino, parent));
                lemma_dots_fit(ino, parent);
                assert(self.inodes@.contains_key(ino));
            }
            match self.write_dir_entries(ino, dots.as_slice()) {
                Ok(_) => {},
                Err(e) => {
                    proof {
                        lemma_spared_on(v, w2, self@, set![ino], touched);
                        lemma_spared_on(v, v, self@, touched, directories(v));
                    }
                    return Err(e);
                },
            }
            let ghost w3 = self@;
            assert(spared(v, w3, touched)) by {
                reveal(same_outside);
            }
            let p = match self.meta(parent) {
                Ok(p) => p,
                Err(e) => return Err(e),
            };
            let now = self.clock;
            assert(p.nlink == links);
            self.set_meta(parent, Meta { nlink: p.nlink + 1, mtime: now, ctime: now, ..p });
        } else {
            self.set_meta(ino, Meta { rdev, ..m });
        }
        let ghost w4 = self@;
        let ghost s4 = *self;
        assert(spared(v, w4, touched)) by {
            reveal(same_outside);
        }
        assert(s4.inodes@[ino].data_kind is Inline);
        assert(s4@.nodes.contains_key(ino));
        match self.write_dir_entries(parent, entries.as_slice()) {
            Ok(_) => {},
            Err(e) => {
                proof {
                    lemma_spared_on(v, w4, self@, set![parent], touched);
                    lemma_spared_on(v, v, self@, touched, directories(v));
                }
                return Err(e);
            },
        }
        proof {
            assert(s4.inodes@.contains_key(ino));
            reveal(apart);
            assert(self.inodes@.contains_key(ino));
            assert(inode_shape(self.inodes@[ino], self.rb()));
            assert(sum_plen(self.inodes@[ino].extents@) == 0);
        }
        Ok(ino)
    }

    /// Creates a file of any type under `name` in directory `parent`.
    #[verifier::rlimit(60)]
    pub fn create_child(
        &mut self,
        parent: u64,
        name: &[u8],
        mode: u16,
        uid: u32,
        gid: u32,
        rdev: u64,
        creds: &Creds,
    ) -> (r: Result<u64>)
        requires
            old(self).wf(),
        ensures
            final(self).wf(),
            keeps(*old(self), *final(self)),
            r matches Ok(n) ==> final(self).inodes@[n].data_kind is Inline && final(self).inodes@[n].blocks
                == 0,
            done(
                *old(self),
                *final(self),
                create_child_op(old(self)@, parent, name@, mode, uid, gid, rdev, creds@),
                r,
                create_room(old(self)@, parent, name@, mode),
                1,
            ),
            r is Err ==> spared(old(self)@, final(self)@, set![parent, next_ino(old(self)@)]),
            r is Err ==> spared(old(self)@, final(self)@, directories(old(self)@)),
    {
        let ghost s0 = *self;
        let ghost v = self@;
        let ghost touched = set![parent, next_ino(v)];
        proof {
            lemma_spared_same(v, touched);
            lemma_spared_same(v, directories(v));
        }
        match self.require_write() {
            Ok(_) => {},
            Err(e) => return Err(e),
        }
        match validate_name(name) {
            Ok(_) => {},
            Err(e) => return Err(e),
        }
        let links: u32 = match self.get_inode(parent) {
            Ok(d) => {
                if !d.is_dir() {
                    return Err(enotdir("not a directory"));
                }
                d.nlink
            },
            Err(e) => return Err(e),
        };
        match self.access_ok(parent, creds, Access::Write) {
            Ok(_) => {},
            Err(e) => return Err(e),
        }
        let mut entries = match self.parse_dir(parent) {
            Ok(x) => x,
            Err(e) => return Err(e),
        };
        if find_entry(&entries, name).is_some() {
            return Err(eexist("file exists"));
        }
        let ft = FileType::from_mode(mode);
        if ft.is_dir() && links == u32::MAX {
            return Err(Error::from_errno(EMLINK));
        }
        let free: usize = self.free_inodes.len();
        if free == 0 && self.sb.next_inode > MAX_INODES - SPARE_INODES {
            return Err(Error::from_errno(ENOSPC));
        }
        let ino: u64 = if free > 0 {
            self.free_inodes[free - 1]
        } else {
            self.sb.next_inode
        };
        let ghost es = items(entries@);
        entries.push(DirEntry { ino, file_type: ft, name: copy_bytes(name) });
        let ghost all = es.push(DirItem { ino, file_type: ft, name: name@ });
        assert(items(entries@) =~= all);
        let raw = encode_dir(entries.as_slice());
        if entries.len() as u64 > u32::MAX as u64 || raw.len() as u64 > MAX_FILE_SIZE {
            return Err(Error::from_errno(EFBIG));
        }
        self.make_child(parent, ino, &entries, mode, uid, gid, rdev)
    }
}

impl Inner {
    /// Checks what the sticky bit of directory `parent` says of removing `name`.
    fn sticky_ok(&mut self, parent: u64, name: &[u8], creds: &Creds) -> (r: Result<()>)
        requires
            old(self).wf(),
            old(self)@.nodes.contains_key(parent),
        ensures
            final(self).wf(),
            final(self)@ == old(self)@,
            keeps(*old(self), *final(self)),
            done(
                *old(self),
                *final(self),
                (old(self)@, sticky_op(old(self)@, parent, name@, creds@)),
                r,
                0,
                0,
            ),
    {
        let dir = match self.meta(parent) {
            Ok(m) => m,
            Err(e) => return Err(e),
        };
        if self.check_perm && dir.mode & S_ISVTX != 0 && !creds.is_superuser() {
            let ino = match self.dir_lookup(parent, name) {
                Ok(Some((ino, _))) => ino,
                Ok(None) => return Err(enoent("no such file or directory")),
                Err(e) => return Err(e),
            };
            let child = match self.meta(ino) {
                Ok(m) => m,
                Err(e) => return Err(e),
            };
            if creds.fsuid != dir.uid && creds.fsuid != child.uid {
                return Err(eacces("sticky bit"));
            }
        }
        Ok(())
    }

    /// Checks that an entry can be removed, as a directory or as any other file.
    fn removable_ok(&mut self, ino: u64, ft: FileType, rmdir: bool) -> (r: Result<()>)
        requires
            old(self).wf(),
        ensures
            final(self).wf(),
            final(self)@ == old(self)@,
            keeps(*old(self), *final(self)),
            done(*old(self), *final(self), (old(self)@, removable(old(self)@, ino, ft, rmdir)), r, 0, 0),
    {
        if rmdir {
            if !ft.is_dir() {
                return Err(enotdir("not a directory"));
            }
            let entries = match self.parse_dir(ino) {
                Ok(x) => x,
                Err(e) => return Err(e),
            };
            if !has_only_dots(&entries) {
                return Err(enotempty());
            }
        } else if ft.is_dir() {
            return Err(eisdir("is a directory"));
        }
        Ok(())
    }

    /// Takes one name from inode `ino`, and the inode with its last name unless it is open.
    fn drop_link(&mut self, ino: u64) -> (r: Result<()>)
        requires
            old(self).wf(),
            old(self)@.writable,
        ensures
            final(self).wf(),
            keeps(*old(self), *final(self)),
            final(self).load() <= old(self).load(),
            final(self)@ == unlinked(old(self)@, ino).0,
            same_outcome(unlinked(old(self)@, ino).1, r),
    {
        let m = match self.meta(ino) {
            Ok(m) => m,
            Err(e) => return Err(e),
        };
        let ghost v = self@;
        let now = self.clock;
        let left: u32 = if m.nlink == 0 || FileType::from_mode(m.mode).is_dir() {
            0
        } else {
            m.nlink - 1
        };
        self.set_meta(ino, Meta { nlink: left, ctime: now, ..m });
        if left == 0 {
            let opens: u32 = match self.open_count.get(&ino) {
                Some(n) => *n,
                None => 0,
            };
            if opens == 0 {
                return self.drop_inode(ino);
            }
            let ghost s1 = *self;
            self.orphans.insert(ino);
            assert(self@.nodes =~= s1@.nodes);
            assert(self@.orphans =~= s1@.orphans.insert(ino));
        }
        Ok(())
    }

    /// Removes `name` from directory `parent`.
    pub fn unlink_name(&mut self, parent: u64, name: &[u8], rmdir: bool, creds: &Creds) -> (r: Result<
        (),
    >)
        requires
            old(self).wf(),
        ensures
            final(self).wf(),
            keeps(*old(self), *final(self)),
            done(
                *old(self),
                *final(self),
                unlink_op(old(self)@, parent, name@, rmdir, creds@),
                r,
                dir_remove_room(old(self)@, parent, name@),
                0,
            ),
            r is Err ==> spared(old(self)@, final(self)@, under_name(old(self)@, parent, name@)),
            left_over(old(self)@, final(self)@),
    {
        let ghost v = self@;
        let ghost touched = under_name(v, parent, name@);
        proof {
            lemma_spared_same(v, touched);
            lemma_left_same(v);
            lemma_unlink_spares(v, parent, name@, rmdir, creds@);
        }
        match self.require_write() {
            Ok(_) => {},
            Err(e) => return Err(e),
        }
        match validate_name(name) {
            Ok(_) => {},
            Err(e) => return Err(e),
        }
        match self.get_inode(parent) {
            Ok(_) => {},
            Err(e) => return Err(e),
        }
        match self.access_ok(parent, creds, Access::Write) {
            Ok(_) => {},
            Err(e) => return Err(e),
        }
        match self.sticky_ok(parent, name, creds) {
            Ok(_) => {},
            Err(e) => return Err(e),
        }
        let (ino, ft) = match self.dir_lookup(parent, name) {
            Ok(Some(x)) => x,
            Ok(None) => return Err(enoent("no such file or directory")),
            Err(e) => return Err(e),
        };
        match self.removable_ok(ino, ft, rmdir) {
            Ok(_) => {},
            Err(e) => return Err(e),
        }
        match self.dir_remove(parent, name) {
            Ok(_) => {},
            Err(e) => {
                proof {
                    lemma_spared_on(v, v, self@, set![parent], touched);
                }
                return Err(e);
            },
        }
        if ft.is_dir() {
            let p = match self.meta(parent) {
                Ok(p) => p,
                Err(e) => return Err(e),
            };
            let left: u32 = if p.nlink == 0 {
                0
            } else {
                p.nlink - 1
            };
            self.set_meta(parent, Meta { nlink: left, ..p });
        }
        self.drop_link(ino)
    }

    /// Gives inode `target` the name `name` in directory `parent`.
    pub fn link_into(&mut self, target: u64, parent: u64, name: &[u8], creds: &Creds) -> (r: Result<
        (),
    >)
        requires
            old(self).wf(),
        ensures
            final(self).wf(),
            keeps(*old(self), *final(self)),
            done(*old(self), *final(self), link_op(old(self)@, target, parent, name@, creds@), r, dir_insert_room(old(self)@, parent, name@, target, type_at(old(self)@, target)), 0),
            r is Err ==> spared(old(self)@, final(self)@, set![parent, target]),
    {
        let ghost v = self@;
        let ghost touched = set![parent, target];
        proof {
            lemma_spared_same(v, touched);
            lemma_link_spares(v, target, parent, name@, creds@);
        }
        match self.require_write() {
            Ok(_) => {},
            Err(e) => return Err(e),
        }
        match validate_name(name) {
            Ok(_) => {},
            Err(e) => return Err(e),
        }
        let (ft, links) = match self.get_inode(target) {
            Ok(t) => (t.file_type(), t.nlink),
            Err(e) => return Err(e),
        };
        if ft.is_dir() {
            return Err(eperm("hard link to directory"));
        }
        match self.get_inode(parent) {
            Ok(_) => {},
            Err(e) => return Err(e),
        }
        match self.access_ok(parent, creds, Access::Write) {
            Ok(_) => {},
            Err(e) => return Err(e),
        }
        match self.dir_lookup(parent, name) {
            Ok(None) => {},
            Ok(Some(_)) => return Err(eexist("file exists")),
            Err(e) => return Err(e),
        }
        if links == u32::MAX {
            return Err(Error::from_errno(EMLINK));
        }
        match self.dir_insert(parent, name, target, ft) {
            Ok(_) => {},
            Err(e) => {
                proof {
                    lemma_spared_on(v, v, self@, set![parent], touched);
                }
                return Err(e);
            },
        }
        let m = match self.meta(target) {
            Ok(m) => m,
            Err(e) => return Err(e),
        };
        let now = self.clock;
        let n: u32 = if m.nlink == u32::MAX {
            m.nlink
        } else {
            m.nlink + 1
        };
        self.set_meta(target, Meta { nlink: n, ctime: now, ..m });
        Ok(())
    }

    /// Whether directory `dir` is `child` or lies above it.
    fn is_ancestor(&mut self, dir: u64, child: u64) -> (r: Result<bool>)
        requires
            old(self).wf(),
        ensures
            final(self).wf(),
            final(self)@ == old(self)@,
            keeps(*old(self), *final(self)),
            done(*old(self), *final(self), (old(self)@, is_above(old(self)@, dir, child, 4096)), r, 0, 0),
    {
        let ghost s0 = *self;
        let ghost v = self@;
        let ghost want = is_above(v, dir, child, 4096);
        let mut cur: u64 = child;
        let mut left: u32 = 4096;
        let up = dot_dot_name();
        while cur != ROOT_INO && left > 0
            invariant
                self.wf(),
                self@ == v,
                s0 == *old(self),
                s0@ == v,
                keeps(s0, *self),
                self.load() <= s0.load(),
                up@ == dot_dot(),
                want == is_above(v, dir, child, 4096),
                want == is_above(v, dir, cur, left as nat),
            decreases left,
        {
            if cur == dir {
                return Ok(true);
            }
            match self.dir_lookup(cur, up.as_slice()) {
                Ok(Some((p, _))) => {
                    cur = p;
                },
                Ok(None) => return Ok(false),
                Err(e) => return Err(e),
            }
            left = left - 1;
        }
        Ok(cur == dir)
    }

    /// Points the `..` of directory `src` to its new parent, and counts the links of both.
    fn move_dir(&mut self, src: u64, old_parent: u64, new_parent: u64) -> (r: Result<()>)
        requires
            old(self).wf(),
        ensures
            final(self).wf(),
            keeps(*old(self), *final(self)),
            done(*old(self), *final(self), moved_dir(old(self)@, src, old_parent, new_parent), r, move_dir_room(old(self)@, src, new_parent), 0),
            r is Err ==> spared(old(self)@, final(self)@, set![src, old_parent, new_parent]),
    {
        let ghost v = self@;
        let ghost touched = set![src, old_parent, new_parent];
        proof {
            lemma_spared_same(v, touched);
            lemma_move_spares(v, src, old_parent, new_parent);
        }
        let mut entries = match self.parse_dir(src) {
            Ok(x) => x,
            Err(e) => return Err(e),
        };
        let ghost es = items(entries@);
        let n: usize = entries.len();
        let mut i: usize = 0;
        while i < n
            invariant
                i <= n,
                n == entries@.len(),
                n == es.len(),
                forall|k: int|
                    0 <= k < n ==> (#[trigger] entries@[k])@ == if k < i {
                        reparented(es, new_parent)[k]
                    } else {
                        es[k]
                    },
            decreases n - i,
        {
            if is_dot_dot(entries[i].name.as_slice()) {
                let e = DirEntry {
                    ino: new_parent,
                    file_type: entries[i].file_type,
                    name: dot_dot_name(),
                };
                assert(entries@[i as int]@ == es[i as int]);
                entries.set(i, e);
            }
            i = i + 1;
        }
        assert(items(entries@) =~= reparented(es, new_parent));
        match self.write_dir_entries(src, entries.as_slice()) {
            Ok(_) => {},
            Err(e) => {
                proof {
                    lemma_spared_on(v, v, self@, set![src], touched);
                }
                return Err(e);
            },
        }
        let p = match self.meta(old_parent) {
            Ok(m) => m,
            Err(e) => return Err(e),
        };
        let left: u32 = if p.nlink == 0 {
            0
        } else {
            p.nlink - 1
        };
        self.set_meta(old_parent, Meta { nlink: left, ..p });
        let p = match self.meta(new_parent) {
            Ok(m) => m,
            Err(e) => return Err(e),
        };
        let more: u32 = if p.nlink == u32::MAX {
            p.nlink
        } else {
            p.nlink + 1
        };
        self.set_meta(new_parent, Meta { nlink: more, ..p });
        Ok(())
    }

    /// Moves a name to another place.
    fn move_name(
        &mut self,
        src: u64,
        src_ft: FileType,
        old_parent: u64,
        old_name: &[u8],
        new_parent: u64,
        new_name: &[u8],
    ) -> (r: Result<()>)
        requires
            old(self).wf(),
        ensures
            final(self).wf(),
            keeps(*old(self), *final(self)),
            done(
                *old(self),
                *final(self),
                moved_name(
                    old(self)@,
                    src,
                    src_ft,
                    old_parent,
                    old_name@,
                    new_parent,
                    new_name@,
                ),
                r,
                move_room(old(self)@, src, src_ft, old_parent, old_name@, new_parent, new_name@),
                0,
            ),
            r is Err ==> spared(old(self)@, final(self)@, set![src, old_parent, new_parent]),
    {
        let ghost v = self@;
        let ghost touched = set![src, old_parent, new_parent];
        proof {
            lemma_spared_same(v, touched);
            lemma_entries_spare(v, old_parent, old_name@, src, src_ft);
        }
        match self.dir_remove(old_parent, old_name) {
            Ok(_) => {},
            Err(e) => {
                proof {
                    lemma_spared_on(v, v, self@, set![old_parent], touched);
                }
                return Err(e);
            },
        }
        let ghost w = self@;
        proof {
            lemma_spared_on(v, v, w, set![old_parent], touched);
            lemma_entries_spare(w, new_parent, new_name@, src, src_ft);
        }
        match self.dir_insert(new_parent, new_name, src, src_ft) {
            Ok(_) => {},
            Err(e) => {
                proof {
                    lemma_spared_on(v, w, self@, set![new_parent], touched);
                }
                return Err(e);
            },
        }
        let ghost x = self@;
        proof {
            lemma_spared_on(v, w, x, set![new_parent], touched);
        }
        if src_ft.is_dir() && old_parent != new_parent {
            let r = self.move_dir(src, old_parent, new_parent);
            proof {
                if r is Err {
                    lemma_spared_on(v, x, self@, touched, touched);
                }
            }
            return r;
        }
        Ok(())
    }

    /// Checks a rename, and whether there is anything to do.
    fn rename_ok(
        &mut self,
        old_parent: u64,
        old_name: &[u8],
        new_parent: u64,
        new_name: &[u8],
        creds: &Creds,
    ) -> (r: Result<bool>)
        requires
            old(self).wf(),
        ensures
            final(self).wf(),
            final(self)@ == old(self)@,
            keeps(*old(self), *final(self)),
            done(
                *old(self),
                *final(self),
                (
                    old(self)@,
                    rename_check(
                        old(self)@,
                        old_parent,
                        old_name@,
                        new_parent,
                        new_name@,
                        creds@,
                    ),
                ),
                r,
                0,
                0,
            ),
    {
        match self.require_write() {
            Ok(_) => {},
            Err(e) => return Err(e),
        }
        match validate_name(old_name) {
            Ok(_) => {},
            Err(e) => return Err(e),
        }
        match validate_name(new_name) {
            Ok(_) => {},
            Err(e) => return Err(e),
        }
        match self.get_inode(old_parent) {
            Ok(_) => {},
            Err(e) => return Err(e),
        }
        let links: u32 = match self.get_inode(new_parent) {
            Ok(d) => d.nlink,
            Err(e) => return Err(e),
        };
        match self.access_ok(old_parent, creds, Access::Write) {
            Ok(_) => {},
            Err(e) => return Err(e),
        }
        match self.access_ok(new_parent, creds, Access::Write) {
            Ok(_) => {},
            Err(e) => return Err(e),
        }
        let (src, src_ft) = match self.dir_lookup(old_parent, old_name) {
            Ok(Some(x)) => x,
            Ok(None) => return Err(enoent("no such file or directory")),
            Err(e) => return Err(e),
        };
        if old_parent == new_parent && bytes_equal(old_name, new_name) {
            return Ok(false);
        }
        if src_ft.is_dir() {
            match self.is_ancestor(src, new_parent) {
                Ok(true) => return Err(einval("rename into descendant")),
                Ok(false) => {},
                Err(e) => return Err(e),
            }
        }
        match self.dir_lookup(new_parent, new_name) {
            Err(e) => Err(e),
            Ok(None) => {
                if src_ft.is_dir() && old_parent != new_parent && links == u32::MAX {
                    return Err(Error::from_errno(EMLINK));
                }
                Ok(true)
            },
            Ok(Some((dst, dst_ft))) => {
                if src == dst {
                    return Ok(false);
                }
                if src_ft.is_dir() && !dst_ft.is_dir() {
                    return Err(enotdir("target is not a directory"));
                }
                if !src_ft.is_dir() && dst_ft.is_dir() {
                    return Err(eisdir("target is a directory"));
                }
                if dst_ft.is_dir() {
                    let entries = match self.parse_dir(dst) {
                        Ok(x) => x,
                        Err(e) => return Err(e),
                    };
                    if !has_only_dots(&entries) {
                        return Err(enotempty());
                    }
                }
                Ok(true)
            },
        }
    }

    /// Renames; what stands under the new name is replaced.
    #[verifier::rlimit(60)]
    #[verifier::spinoff_prover]
    pub fn rename(
        &mut self,
        old_parent: u64,
        old_name: &[u8],
        new_parent: u64,
        new_name: &[u8],
        creds: &Creds,
    ) -> (r: Result<()>)
        requires
            old(self).wf(),
        ensures
            final(self).wf(),
            keeps(*old(self), *final(self)),
            done(
                *old(self),
                *final(self),
                rename_op(old(self)@, old_parent, old_name@, new_parent, new_name@, creds@),
                r,
                rename_room(old(self)@, old_parent, old_name@, new_parent, new_name@, creds@),
                0,
            ),
            r is Err ==> spared(
                old(self)@,
                final(self)@,
                under_name(old(self)@, old_parent, old_name@).union(
                    under_name(old(self)@, new_parent, new_name@),
                ),
            ),
    {
        let ghost v = self@;
        let ghost at_new = under_name(v, new_parent, new_name@);
        let ghost touched = under_name(v, old_parent, old_name@).union(at_new);
        proof {
            lemma_spared_same(v, touched);
        }
        match self.rename_ok(old_parent, old_name, new_parent, new_name, creds) {
            Ok(true) => {},
            Ok(false) => return Ok(()),
            Err(e) => return Err(e),
        }
        let (src, src_ft) = match self.dir_lookup(old_parent, old_name) {
            Ok(Some(x)) => x,
            Ok(None) => return Err(enoent("no such file or directory")),
            Err(e) => return Err(e),
        };
        match self.dir_lookup(new_parent, new_name) {
            Ok(Some((_, dst_ft))) => {
                match self.unlink_name(new_parent, new_name, dst_ft.is_dir(), creds) {
                    Ok(_) => {},
                    Err(e) => {
                        proof {
                            lemma_spared_on(v, v, self@, at_new, touched);
                        }
                        return Err(e);
                    },
                }
                proof {
                    lemma_unlink_spares(v, new_parent, new_name@, dst_ft is Directory, creds@);
                    lemma_spared_on(v, v, self@, at_new, touched);
                }
            },
            Ok(None) => {},
            Err(e) => return Err(e),
        }
        let ghost w = self@;
        match self.move_name(src, src_ft, old_parent, old_name, new_parent, new_name) {
            Ok(_) => Ok(()),
            Err(e) => {
                proof {
                    lemma_spared_on(v, w, self@, set![src, old_parent, new_parent], touched);
                }
                Err(e)
            },
        }
    }
}

/// Adding and removing entries changes the directory.
proof fn lemma_entries_spare(v: FsView, dir: u64, name: Seq<u8>, child: u64, ft: FileType)
    ensures
        spared(v, dir_remove_op(v, dir, name).0, set![dir]),
        spared(v, dir_insert_op(v, dir, name, child, ft).0, set![dir]),
{
    reveal(same_outside);
}

/// To link a file changes the file and the directory.
proof fn lemma_link_spares(v: FsView, target: u64, parent: u64, name: Seq<u8>, creds: CredsView)
    ensures
        spared(v, link_op(v, target, parent, name, creds).0, set![parent, target]),
{
    reveal(same_outside);
}

/// To move a directory changes it and its parents.
proof fn lemma_move_spares(v: FsView, src: u64, old_parent: u64, new_parent: u64)
    ensures
        spared(v, moved_dir(v, src, old_parent, new_parent).0, set![src, old_parent, new_parent]),
{
    reveal(same_outside);
}

/// Removing a name changes its directory and the file that had it, and no contents of a file that
/// is left.
proof fn lemma_unlink_spares(v: FsView, parent: u64, name: Seq<u8>, rmdir: bool, creds: CredsView)
    ensures
        spared(v, unlink_op(v, parent, name, rmdir, creds).0, under_name(v, parent, name)),
        left_over(v, unlink_op(v, parent, name, rmdir, creds).0),
{
    assert(spared(v, unlink_op(v, parent, name, rmdir, creds).0, under_name(v, parent, name))) by {
        reveal(same_outside);
    }
    assert(left_over(v, unlink_op(v, parent, name, rmdir, creds).0)) by {
        reveal(nodes_left);
    }
}

/// A number that is handed out next is not in use.
pub proof fn lemma_ino_new(s: Inner)
    requires
        s.wf(),
    ensures
        !s@.nodes.contains_key(next_ino(s@)),
{
    if s.free_inodes@.len() > 0 {
        assert(!s.inodes@.contains_key(s.free_inodes@[s.free_inodes@.len() - 1]));
    }
}

/// A new directory is small.
proof fn lemma_dots_fit(ino: u64, parent: u64)
    ensures
        dir_fits(dot_items(ino, parent)),
        dir_bytes(dot_items(ino, parent)).len() == 40,
{
    crate::bytes::lemma_le();
    reveal_with_fuel(crate::dir::items_bytes, 3);
    let es = dot_items(ino, parent);
    assert(es.drop_last().drop_last().len() == 0);
}

/// A directory is never empty on disk.
proof fn lemma_dir_len(es: Seq<DirItem>)
    ensures
        dir_bytes(es).len() >= 8,
{
    crate::bytes::lemma_le();
}

} // verus!
