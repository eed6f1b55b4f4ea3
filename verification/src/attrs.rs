//! Metadata and extended attributes of the inodes of a mounted volume.

use vstd::prelude::*;

use crate::blocks::lemma_frame_refl;
use crate::bytes::{bytes_equal, copy_bytes};
use crate::compress::{compression_code, Compression};
use crate::data::{done, kinds_kept, lemma_compressed_flag, lemma_same_view};
use crate::edit::lemma_data_step;
use crate::error::{eexist, einval, eio, eperm, Error, Result, EIO, ENODATA};
use crate::format::{BLOCK_SIZE, FLAG_COMPRESSED};
use crate::inner::{all_bare, bare, content, fbyte, holds, hushed, keeps, stepped, Inner};
use crate::inode::{Inode, Xattrs};
use crate::model::{meta_of, Meta, Node};
use crate::ops::{
    attr_position, attrs_without, chmod_op, chown_op, getxattr_op, listxattr_op, removexattr_op,
    same_outcome, set_compression_op, set_times_op, setxattr_op, with_attrs, with_meta,
};
use crate::types::{
    given_mode, Creds, FileTimes, Stat, MODE_PERM, S_IFMT, XATTR_CREATE, XATTR_REPLACE,
};
use crate::xattr::{attrs, XattrView};

verus! {

broadcast use vstd::std_specs::hash::group_hash_axioms;

/// A step that leaves the data of an inode alone.
pub proof fn lemma_meta_step(s0: Inner, s1: Inner, ino: u64, i1: Inode)
    requires
        s0.wf(),
        s0.inodes@.contains_key(ino),
        s1.inodes@ == s0.inodes@.insert(ino, i1),
        s1 == (Inner { inodes: s1.inodes, dirty_inodes: s1.dirty_inodes, ..s0 }),
        forall|x: u64| #[trigger]
            s1.dirty_inodes@.contains(x) <==> x == ino || s0.dirty_inodes@.contains(x),
        ({
            let i0 = s0.inodes@[ino];
            &&& i1.ino == ino
            &&& i1.size == i0.size
            &&& i1.blocks == i0.blocks
            &&& i1.data_kind == i0.data_kind
            &&& i1.inline_data == i0.inline_data
            &&& i1.extents == i0.extents
            &&& i1.extent_tree == i0.extent_tree
            &&& i1.extent_tree_blocks == i0.extent_tree_blocks
            &&& i1.xattr_block == i0.xattr_block
            &&& i1.flags == i0.flags || i1.flags & FLAG_COMPRESSED != 0
            &&& (s0.record_cache matches Some(c) && c.ino == ino) ==> i1.compresses()
            &&& i1.mode != 0
        }),
    ensures
        s1.wf(),
        s0.sound() ==> s1.sound(),
        all_bare(s0.inodes@) && (i1.compresses() ==> s0.inodes@[ino].compresses()) ==> all_bare(
            s1.inodes@,
        ),
        s1@ == s0@.with(
            ino,
            (Node { meta: meta_of(i1), data: s0@.nodes[ino].data, xattr: attrs(i1.xattr@) }),
        ),
{
    let i0 = s0.inodes@[ino];
    lemma_frame_refl(s0.vol, ino);
    assert forall|p: int| #[trigger] fbyte(s1.vol, s1.record_cache, s1.rb(), i1, p) == fbyte(
        s0.vol,
        s0.record_cache,
        s0.rb(),
        i0,
        p,
    ) by {}
    assert forall|p: int| p >= i1.size implies #[trigger] fbyte(
        s1.vol,
        s1.record_cache,
        s1.rb(),
        i1,
        p,
    ) == 0 by {
        assert(fbyte(s0.vol, s0.record_cache, s0.rb(), i0, p) == 0);
    }
    assert(stepped(s0, s1, ino, i1));
    lemma_data_step(s0, s1, ino, i1);
    assert(content(s1.vol, s1.record_cache, s1.rb(), i1) =~= content(
        s0.vol,
        s0.record_cache,
        s0.rb(),
        i0,
    ));
}

/// Position of the attribute `name` in a list.
fn find_attr(list: &Xattrs, name: &[u8]) -> (r: Option<usize>)
    ensures
        match r {
            Some(k) => k < list@.len() && attr_position(attrs(list@), name@) == Some(k as int),
            None => attr_position(attrs(list@), name@) is None,
        },
{
    let n: usize = list.len();
    let mut i: usize = 0;
    while i < n
        invariant
            i <= n,
            n == list@.len(),
            attr_position(attrs(list@.take(i as int)), name@) is None,
        decreases n - i,
    {
        proof {
            assert(attrs(list@.take(i + 1)).drop_last() =~= attrs(list@.take(i as int)));
        }
        if bytes_equal(list[i].0.as_slice(), name) {
            proof {
                assert(attrs(list@).take(i as int) =~= attrs(list@.take(i as int)));
                lemma_attr_first(attrs(list@), name@, i as int);
            }
            return Some(i);
        }
        i = i + 1;
    }
    assert(list@.take(n as int) =~= list@);
    None
}

/// The first attribute of its name.
proof fn lemma_attr_first(x: XattrView, name: Seq<u8>, k: int)
    requires
        0 <= k < x.len(),
        x[k].0 == name,
        attr_position(x.take(k), name) is None,
    ensures
        attr_position(x, name) == Some(k),
    decreases x.len(),
{
    if k < x.len() - 1 {
        assert(x.drop_last().take(k) =~= x.take(k));
        lemma_attr_first(x.drop_last(), name, k);
    } else {
        assert(x.take(k) =~= x.drop_last());
    }
}

/// The list without the attributes called `name`.
fn remove_attrs(list: &Xattrs, name: &[u8]) -> (out: Xattrs)
    ensures
        attrs(out@) == attrs_without(attrs(list@), name@),
{
    let n: usize = list.len();
    let mut out: Xattrs = Vec::new();
    let mut i: usize = 0;
    assert(attrs(out@) =~= attrs_without(attrs(list@.take(0)), name@));
    while i < n
        invariant
            i <= n,
            n == list@.len(),
            attrs(out@) == attrs_without(attrs(list@.take(i as int)), name@),
        decreases n - i,
    {
        let ghost before = attrs(out@);
        proof {
            assert(attrs(list@.take(i + 1)).drop_last() =~= attrs(list@.take(i as int)));
        }
        if !bytes_equal(list[i].0.as_slice(), name) {
            let a = copy_bytes(list[i].0.as_slice());
            let b = copy_bytes(list[i].1.as_slice());
            out.push((a, b));
            assert(attrs(out@) =~= before.push((list@[i as int].0@, list@[i as int].1@)));
        }
        i = i + 1;
    }
    assert(list@.take(n as int) =~= list@);
    out
}

/// A result with its bytes as a sequence.
pub open spec fn bytes_out(r: Result<Vec<u8>>) -> std::result::Result<Seq<u8>, Error> {
    match r {
        Ok(v) => Ok(v@),
        Err(e) => Err(e),
    }
}

/// A result with its names as sequences.
pub open spec fn names_out(r: Result<Vec<Vec<u8>>>) -> std::result::Result<Seq<Seq<u8>>, Error> {
    match r {
        Ok(v) => Ok(Seq::new(v@.len(), |k: int| v@[k]@)),
        Err(e) => Err(e),
    }
}

/// The `stat` of an inode.
pub open spec fn stat_of(i: Inode) -> Stat {
    Stat {
        ino: i.ino,
        mode: i.mode,
        nlink: i.nlink,
        uid: i.uid,
        gid: i.gid,
        size: i.size,
        blocks: i.blocks,
        blksize: BLOCK_SIZE,
        rdev: i.rdev,
        atime: i.atime,
        mtime: i.mtime,
        ctime: i.ctime,
        btime: i.btime,
    }
}

impl Inner {
    /// The `stat` of inode `ino`; fails with `EIO` where there is none.
    pub fn stat_ino(&self, ino: u64) -> (r: Result<Stat>)
        ensures
            match r {
                Ok(st) => self.inodes@.contains_key(ino) && st == stat_of(self.inodes@[ino]),
                Err(e) => !self.inodes@.contains_key(ino) && e.is(EIO),
            },
    {
        let i = match self.get_inode(ino) {
            Ok(i) => i,
            Err(e) => return Err(e),
        };
        Ok(
            Stat {
                ino: i.ino,
                mode: i.mode,
                nlink: i.nlink,
                uid: i.uid,
                gid: i.gid,
                size: i.size,
                blocks: i.blocks,
                blksize: BLOCK_SIZE,
                rdev: i.rdev,
                atime: i.atime,
                mtime: i.mtime,
                ctime: i.ctime,
                btime: i.btime,
            },
        )
    }

    /// The metadata of inode `ino`; fails with `EIO` where there is none.
    pub fn meta(&self, ino: u64) -> (r: Result<Meta>)
        ensures
            match r {
                Ok(m) => self@.nodes.contains_key(ino) && m == self@.nodes[ino].meta && (
                self.wf() ==> m.mode != 0),
                Err(e) => !self@.nodes.contains_key(ino) && e.is(EIO),
            },
    {
        match self.get_inode(ino) {
            Ok(i) => Ok(i.meta()),
            Err(e) => Err(e),
        }
    }

    /// Gives inode `ino` other metadata.
    pub(crate) fn set_meta(&mut self, ino: u64, m: Meta)
        requires
            old(self).wf(),
            old(self)@.nodes.contains_key(ino),
            m.compression == old(self)@.nodes[ino].meta.compression,
            m.mode != 0,
        ensures
            final(self).load() == old(self).load(),
            final(self).wf(),
            keeps(*old(self), *final(self)),
            kinds_kept(*old(self), *final(self)),
            final(self)@ == with_meta(old(self)@, ino, m),
            final(self).record_blocks == old(self).record_blocks,
    {
        let ghost s0 = *self;
        let mut i = match self.inodes.remove(&ino) {
            Some(i) => i,
            None => return,
        };
        i.mode = m.mode;
        i.nlink = m.nlink;
        i.uid = m.uid;
        i.gid = m.gid;
        i.rdev = m.rdev;
        i.atime = m.atime;
        i.mtime = m.mtime;
        i.ctime = m.ctime;
        i.btime = m.btime;
        let ghost i1 = i;
        self.put_inode(ino, i);
        proof {
            assert(self.inodes@ =~= s0.inodes@.insert(ino, i1));
            lemma_meta_step(s0, *self, ino, i1);
        }
    }

    pub fn chmod(&mut self, ino: u64, mode: u16, creds: &Creds) -> (r: Result<()>)
        requires
            old(self).wf(),
        ensures
            final(self).load() == old(self).load(),
            final(self).wf(),
            keeps(*old(self), *final(self)),
            final(self)@ == chmod_op(old(self)@, ino, mode, creds@).0,
            same_outcome(chmod_op(old(self)@, ino, mode, creds@).1, r),
    {
        match self.require_write() {
            Ok(_) => {},
            Err(e) => return Err(e),
        }
        let m = match self.meta(ino) {
            Ok(m) => m,
            Err(e) => return Err(e),
        };
        if self.check_perm && !creds.is_superuser() && creds.fsuid != m.uid {
            return Err(eperm("chmod"));
        }
        let now = self.clock;
        self.set_meta(
            ino,
            Meta { mode: given_mode((m.mode & S_IFMT) | (mode & MODE_PERM)), ctime: now, ..m },
        );
        Ok(())
    }

    pub fn chown(&mut self, ino: u64, uid: Option<u32>, gid: Option<u32>, creds: &Creds) -> (r:
        Result<()>)
        requires
            old(self).wf(),
        ensures
            final(self).load() == old(self).load(),
            final(self).wf(),
            keeps(*old(self), *final(self)),
            final(self)@ == chown_op(old(self)@, ino, uid, gid, creds@).0,
            same_outcome(chown_op(old(self)@, ino, uid, gid, creds@).1, r),
    {
        match self.require_write() {
            Ok(_) => {},
            Err(e) => return Err(e),
        }
        let m = match self.meta(ino) {
            Ok(m) => m,
            Err(e) => return Err(e),
        };
        if self.check_perm && !creds.is_superuser() {
            match uid {
                Some(u) => {
                    if u != m.uid {
                        return Err(eperm("chown"));
                    }
                },
                None => {},
            }
            match gid {
                Some(g) => {
                    if creds.fsuid != m.uid || (g != creds.fsgid && !creds.in_group(g)) {
                        return Err(eperm("chown"));
                    }
                },
                None => {},
            }
        }
        let now = self.clock;
        let new_uid = match uid {
            Some(u) => u,
            None => m.uid,
        };
        let new_gid = match gid {
            Some(g) => g,
            None => m.gid,
        };
        self.set_meta(ino, Meta { uid: new_uid, gid: new_gid, ctime: now, ..m });
        Ok(())
    }

    pub fn set_times(&mut self, ino: u64, times: FileTimes) -> (r: Result<()>)
        requires
            old(self).wf(),
        ensures
            final(self).load() == old(self).load(),
            final(self).wf(),
            keeps(*old(self), *final(self)),
            final(self)@ == set_times_op(old(self)@, ino, times).0,
            same_outcome(set_times_op(old(self)@, ino, times).1, r),
    {
        match self.require_write() {
            Ok(_) => {},
            Err(e) => return Err(e),
        }
        let mut m = match self.meta(ino) {
            Ok(m) => m,
            Err(e) => return Err(e),
        };
        match times.accessed {
            Some(t) => {
                m.atime = t;
            },
            None => {},
        }
        match times.modified {
            Some(t) => {
                m.mtime = t;
            },
            None => {},
        }
        match times.created {
            Some(t) => {
                m.btime = t;
            },
            None => {},
        }
        m.ctime = self.clock;
        self.set_meta(ino, m);
        Ok(())
    }

    /// Chooses the compression of inode `ino` for data that is written from now on.
    pub fn set_inode_compression(&mut self, ino: u64, compression: Compression) -> (r: Result<()>)
        requires
            old(self).wf(),
        ensures
            final(self).wf(),
            holds(*old(self), *final(self)),
            compression is Off && bare(*old(self)) ==> bare(*final(self)),
            hushed(*old(self), *final(self)),
            done(
                *old(self),
                *final(self),
                set_compression_op(old(self)@, ino, compression_code(compression)),
                r,
                0,
                0,
            ),
            r is Err ==> final(self)@ == old(self)@,
    {
        match self.require_write() {
            Ok(_) => {},
            Err(e) => return Err(e),
        }
        match self.flush_record_cache() {
            Ok(_) => {},
            Err(e) => return Err(e),
        }
        let ghost s1 = *self;
        let mut i = match self.inodes.remove(&ino) {
            Some(i) => i,
            None => {
                proof {
                    assert(self.inodes@ =~= s1.inodes@);
                    lemma_same_view(s1, *self);
                }
                return Err(eio("missing inode"));
            },
        };
        let ghost i0 = i;
        i.compression = compression.as_u8();
        if !compression.is_off() {
            i.flags = i.flags | FLAG_COMPRESSED;
            proof {
                lemma_compressed_flag(i0.flags);
            }
        }
        i.ctime = self.clock;
        let ghost i1 = i;
        self.put_inode(ino, i);
        proof {
            assert(self.inodes@ =~= s1.inodes@.insert(ino, i1));
            lemma_meta_step(s1, *self, ino, i1);
        }
        Ok(())
    }

    pub fn getxattr(&self, ino: u64, name: &[u8]) -> (r: Result<Vec<u8>>)
        ensures
            same_outcome(getxattr_op(self@, ino, name@), bytes_out(r)),
    {
        let i = match self.get_inode(ino) {
            Ok(i) => i,
            Err(e) => return Err(e),
        };
        match find_attr(&i.xattr, name) {
            Some(k) => Ok(copy_bytes(i.xattr[k].1.as_slice())),
            None => Err(Error::from_errno(ENODATA)),
        }
    }

    pub fn listxattr(&self, ino: u64) -> (r: Result<Vec<Vec<u8>>>)
        ensures
            same_outcome(listxattr_op(self@, ino), names_out(r)),
    {
        let i = match self.get_inode(ino) {
            Ok(i) => i,
            Err(e) => return Err(e),
        };
        let n: usize = i.xattr.len();
        let mut out: Vec<Vec<u8>> = Vec::new();
        let mut k: usize = 0;
        while k < n
            invariant
                k <= n,
                n == i.xattr@.len(),
                out@.len() == k,
                forall|j: int| 0 <= j < k ==> (#[trigger] out@[j])@ == i.xattr@[j].0@,
            decreases n - k,
        {
            let name = copy_bytes(i.xattr[k].0.as_slice());
            out.push(name);
            k = k + 1;
        }
        proof {
            let x = self@.nodes[ino].xattr;
            assert(Seq::new(out@.len(), |k: int| out@[k]@) =~= Seq::new(x.len(), |k: int| x[k].0));
        }
        Ok(out)
    }

    /// Gives inode `ino` other attributes.
    fn put_attrs(&mut self, ino: u64, list: Xattrs)
        requires
            old(self).wf(),
            old(self)@.nodes.contains_key(ino),
        ensures
            final(self).load() == old(self).load(),
            final(self).wf(),
            keeps(*old(self), *final(self)),
            final(self)@ == with_attrs(old(self)@, ino, attrs(list@)),
    {
        let ghost s0 = *self;
        let mut i = match self.inodes.remove(&ino) {
            Some(i) => i,
            None => return,
        };
        i.xattr = list;
        i.ctime = self.clock;
        let ghost i1 = i;
        self.put_inode(ino, i);
        proof {
            assert(self.inodes@ =~= s0.inodes@.insert(ino, i1));
            lemma_meta_step(s0, *self, ino, i1);
        }
    }

    pub fn setxattr(&mut self, ino: u64, name: &[u8], value: &[u8], flags: u32) -> (r: Result<()>)
        requires
            old(self).wf(),
        ensures
            final(self).load() == old(self).load(),
            final(self).wf(),
            keeps(*old(self), *final(self)),
            final(self)@ == setxattr_op(old(self)@, ino, name@, value@, flags).0,
            same_outcome(setxattr_op(old(self)@, ino, name@, value@, flags).1, r),
    {
        match self.require_write() {
            Ok(_) => {},
            Err(e) => return Err(e),
        }
        if name.len() == 0 || name.len() > 255 {
            return Err(einval("xattr name"));
        }
        let i = match self.get_inode(ino) {
            Ok(i) => i,
            Err(e) => return Err(e),
        };
        let at = find_attr(&i.xattr, name);
        if flags & XATTR_CREATE != 0 && at.is_some() {
            return Err(eexist("xattr exists"));
        }
        if flags & XATTR_REPLACE != 0 && at.is_none() {
            return Err(Error::from_errno(ENODATA));
        }
        let ghost x = attrs(i.xattr@);
        let mut list = copy_attrs(&i.xattr);
        let pair = (copy_bytes(name), copy_bytes(value));
        match at {
            Some(k) => {
                list.set(k, pair);
                assert(attrs(list@) =~= x.update(k as int, (name@, value@)));
            },
            None => {
                list.push(pair);
                assert(attrs(list@) =~= x.push((name@, value@)));
            },
        }
        self.put_attrs(ino, list);
        Ok(())
    }

    pub fn removexattr(&mut self, ino: u64, name: &[u8]) -> (r: Result<()>)
        requires
            old(self).wf(),
        ensures
            final(self).load() == old(self).load(),
            final(self).wf(),
            keeps(*old(self), *final(self)),
            final(self)@ == removexattr_op(old(self)@, ino, name@).0,
            same_outcome(removexattr_op(old(self)@, ino, name@).1, r),
    {
        match self.require_write() {
            Ok(_) => {},
            Err(e) => return Err(e),
        }
        let i = match self.get_inode(ino) {
            Ok(i) => i,
            Err(e) => return Err(e),
        };
        if find_attr(&i.xattr, name).is_none() {
            return Err(Error::from_errno(ENODATA));
        }
        let list = remove_attrs(&i.xattr, name);
        self.put_attrs(ino, list);
        Ok(())
    }
}

/// A copy of a list of attributes.
fn copy_attrs(list: &Xattrs) -> (out: Xattrs)
    ensures
        attrs(out@) == attrs(list@),
{
    let n: usize = list.len();
    let mut out: Xattrs = Vec::new();
    let mut i: usize = 0;
    while i < n
        invariant
            i <= n,
            n == list@.len(),
            out@.len() == i,
            forall|j: int|
                0 <= j < i ==> (#[trigger] out@[j]).0@ == list@[j].0@ && out@[j].1@ == list@[j].1@,
        decreases n - i,
    {
        let a = copy_bytes(list[i].0.as_slice());
        let b = copy_bytes(list[i].1.as_slice());
        out.push((a, b));
        i = i + 1;
    }
    assert(attrs(out@) =~= attrs(list@));
    out
}

} // verus!
