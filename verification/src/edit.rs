//! Changing file data: writing and truncating files of the mounted volume.

use vstd::prelude::*;

use crate::blocks::{
    all_raw, cut_packed, cut_raw, ends_at, file_ok, free_all, lemma_frame_refl, lemma_next_record,
    lemma_unchanged_file, write_part, write_raw, written_byte,
};
use crate::bytes::{copy_bytes, copy_into, pad_to, padded, zero_vec};
use crate::compress::{compression_of, Compression};
use crate::data::{
    apart, kind_for, kinds_kept, lemma_apart, lemma_apart_kinds, lemma_apart_put,
    lemma_compressed_flag, lemma_meta_claims, lemma_same_view, lemma_still_raw, storage_failed,
};
use crate::error::{eio, Error, Result, EFBIG, EIO, ENOSPC, EROFS};
use crate::extents::{
    count_sectors, ext_wf, exts_claimed, exts_readable, exts_wf, lemma_find, lemma_find_some,
    lookup, maps_only, record_size_ok, stays_tight, sum_plen, ubyte, MAX_FILE_BLOCKS,
};
use crate::format::{Extent, FLAG_COMPRESSED, INLINE_MAX};
use crate::inner::{
    all_bare, content, covers, fbyte, inode_shape, keeps, lemma_inode_kept, lemma_owns_only,
    lemma_stepped, node_of, rc_ok, stepped, tail_zero, Inner,
};
use crate::inode::{DataKind, Inode};
use crate::model::{modified_at, overwritten, FsView, Node};
use crate::ops::{cut_room, room};
use crate::records::{
    is_record_start, lemma_record_start, load_record, packed_well, patched_byte, record_start,
    store_record,
};
use crate::store::resized;
use crate::types::MAX_FILE_SIZE;
use crate::volume::{frame, lemma_frame_trans, unchanged, Volume};

verus! {

broadcast use vstd::std_specs::hash::group_hash_axioms;

/// A file with nothing but holes.
pub proof fn lemma_no_extents(v: Volume, s: Seq<Extent>, p: int)
    requires
        s.len() == 0,
    ensures
        ubyte(v, s, p) == 0,
{
    lemma_find_some(s, p / 4096);
}

/// A record of another file in memory is in order after a step on file `ino`.
pub proof fn lemma_rc_other(s0: Inner, s1: Inner, ino: u64, i1: Inode)
    requires
        s0.wf(),
        s1.inodes@ == s0.inodes@.insert(ino, i1),
        s1.record_cache == s0.record_cache,
        s1.record_blocks == s0.record_blocks,
        frame(s0.vol, s1.vol, ino),
        s0.record_cache matches Some(c) ==> c.ino != ino,
    ensures
        rc_ok(s1.vol, s1.record_cache, s1.rb(), s1.inodes@),
{
    if let Some(c) = s0.record_cache {
        let i = s0.inodes@[c.ino];
        lemma_inode_kept(s0.vol, s1.vol, s0.record_cache, s1.record_cache, s0.rb(), i, ino);
        assert forall|q: int|
            !c.dirty && 0 <= q < s1.rb() * 4096 implies #[trigger] c.data@[q] == ubyte(
            s1.vol,
            s1.inodes@[c.ino].extents@,
            c.start * 4096 + q,
        ) by {
            assert(ubyte(s1.vol, i.extents@, c.start * 4096 + q) == ubyte(
                s0.vol,
                i.extents@,
                c.start * 4096 + q,
            ));
        }
    }
}

/// A step on the data of one file.
pub proof fn lemma_data_step(s0: Inner, s1: Inner, ino: u64, i1: Inode)
    requires
        s0.wf(),
        s0.inodes@.contains_key(ino),
        stepped(s0, s1, ino, i1),
        i1.ino == ino,
        i1.xattr_block == s0.inodes@[ino].xattr_block,
        i1.extent_tree == s0.inodes@[ino].extent_tree,
        i1.extent_tree_blocks == s0.inodes@[ino].extent_tree_blocks,
        inode_shape(i1, s1.rb()),
        exts_claimed(s1.vol.owner@, ino, i1.extents@),
        stays_tight(
            s0.vol.owner@,
            s0.inodes@[ino].extents@,
            s1.vol.owner@,
            i1.extents@,
            ino,
        ),
        tail_zero(s1.vol, s1.record_cache, s1.rb(), i1),
        rc_ok(s1.vol, s1.record_cache, s1.rb(), s1.inodes@),
    ensures
        s1.wf(),
        apart(s0, s1, ino),
        s1@ == s0@.with(ino, node_of(s1.vol, s1.record_cache, s1.rb(), i1)),
        s0.sound() && exts_readable(s1.vol, i1.extents@) ==> s1.sound(),
        all_bare(s0.inodes@) && (i1.compresses() ==> s0.inodes@[ino].compresses()) ==> all_bare(
            s1.inodes@,
        ),
{
    lemma_meta_claims(s0.vol, s1.vol, s0.inodes@[ino], i1, ino);
    lemma_owns_only(s0, ino);
    lemma_stepped(s0, s1, ino, i1);
    lemma_apart_put(s0, s1, ino);
}

/// The file after a write.
pub open spec fn written(v: FsView, ino: u64, off: int, buf: Seq<u8>) -> FsView {
    let n = v.nodes[ino];
    v.with(
        ino,
        Node {
            meta: modified_at(n.meta, v.clock),
            data: overwritten(n.data, off, buf),
            xattr: n.xattr,
        },
    )
}

/// What is left of a write that failed on the way: bytes outside the range are the same.
pub open spec fn partly_written(v0: FsView, v1: FsView, ino: u64, off: int, len: int) -> bool {
    let n0 = v0.nodes[ino];
    let n1 = v1.nodes[ino];
    &&& v1 == v0.with(ino, n1)
    &&& n1.meta == n0.meta || n1.meta == modified_at(n0.meta, v0.clock)
    &&& n1.xattr == n0.xattr
    &&& n1.data.len() >= n0.data.len()
    &&& forall|p: int|
        0 <= p < n0.data.len() && !(off <= p < off + len) ==> #[trigger] n1.data[p] == n0.data[p]
}

/// A write of `len` bytes at `off` gives blocks to what it writes, and to data that does not fit
/// into the inode any more; holes stay holes. A file with compressed records gets whole records.
pub open spec fn fills_only(s0: Inner, s1: Inner, ino: u64, off: int, len: int) -> bool {
    let i0 = s0.inodes@[ino];
    let i1 = s1.inodes@[ino];
    !i0.compresses() ==> s1.inodes@.contains_key(ino) && forall|l: int| #[trigger]
        lookup(i1.extents@, l) is Some && !(off / 4096 <= l < (off + len + 4095) / 4096) && !(
        i0.data_kind is Inline && l == 0) ==> lookup(i0.extents@, l) is Some
}

/// A write of `len` bytes at `off` gives blocks to all that it writes, where the file does not stay in
/// its inode; a file with compressed records may have holes where there are zeros.
pub open spec fn fills_all(s0: Inner, s1: Inner, ino: u64, off: int, len: int) -> bool {
    let i0 = s0.inodes@[ino];
    let i1 = s1.inodes@[ino];
    !i0.compresses() && !(i1.data_kind is Inline) && len > 0 ==> forall|l: int|
        off / 4096 <= l < (off + len + 4095) / 4096 || lookup(i0.extents@, l) is Some
            ==> #[trigger] lookup(i1.extents@, l) is Some
}

/// A write goes to a file in its inode that is not compressed, and that no longer fits there
/// afterwards, but into one block.
pub open spec fn takes_a_block(s: Inner, ino: u64, off: u64, buf: Seq<u8>) -> bool {
    &&& s@.writable
    &&& s.inodes@.contains_key(ino)
    &&& s.inodes@[ino].data_kind is Inline
    &&& !s.inodes@[ino].compresses()
    &&& 0 < buf.len()
    &&& INLINE_MAX < off + buf.len() <= 4096
}

/// Extents that map block 0 and no other are one block.
proof fn lemma_one_block(s: Seq<Extent>, rb: int)
    requires
        exts_wf(s, rb),
        all_raw(s),
        forall|l: int| #[trigger] lookup(s, l) is Some <==> l == 0,
    ensures
        sum_plen(s) == 1,
{
    assert forall|k: int| 0 <= k < s.len() implies (#[trigger] s[k]).logical == 0 && s[k].length
        == 1 by {
        assert(ext_wf(s[k], rb));
        let e = s[k];
        lemma_find(s, k, e.logical as int);
        assert(lookup(s, e.logical as int) is Some);
        lemma_find(s, k, e.lend() - 1);
        assert(lookup(s, e.lend() - 1) is Some);
    }
    assert(lookup(s, 0) is Some);
    lemma_find_some(s, 0);
    if s.len() > 1 {
        assert(s[0].lend() <= s[1].logical);
    }
    assert(s.len() == 1);
    assert(ext_wf(s[0], rb));
    assert(s.drop_last().len() == 0);
    reveal_with_fuel(sum_plen, 2);
    assert(s.last() == s[0]);
}

/// Moves inline data into a block.
fn promote_inline(vol: &mut Volume, i: &mut Inode, rb: Ghost<int>) -> (r: Result<()>)
    requires
        file_ok(*old(vol), old(i).extents@, old(i).ino, rb@),
        inode_shape(*old(i), rb@),
        old(i).data_kind is Inline,
    ensures
        final(vol).end() <= old(vol).end() + 2,
        match r {
            Ok(_) => {
                &&& file_ok(*final(vol), final(i).extents@, old(i).ino, rb@)
                &&& all_raw(final(i).extents@)
                &&& frame(*old(vol), *final(vol), old(i).ino)
                &&& final(i).inline_data@.len() == 0
                &&& *final(i) == (Inode {
                    data_kind: DataKind::Extents,
                    inline_data: final(i).inline_data,
                    extents: final(i).extents,
                    ..*old(i)
                })
                &&& forall|p: int|
                    p >= 0 ==> #[trigger] ubyte(*final(vol), final(i).extents@, p) == if p
                        < old(i).inline_data@.len() {
                        old(i).inline_data@[p]
                    } else {
                        0
                    }
                &&& stays_tight(
                    old(vol).owner@,
                    old(i).extents@,
                    final(vol).owner@,
                    final(i).extents@,
                    old(i).ino,
                )
                &&& maps_only(old(i).extents@, final(i).extents@, 0, 1)
            },
            Err(e) => e.is(ENOSPC) && old(vol).full(2) && *final(vol) == *old(vol) && *final(i)
                == *old(i),
        },
{
    let ghost v0 = *vol;
    let ghost i0 = *i;
    proof {
        assert forall|p: int| #[trigger] ubyte(v0, i0.extents@, p) == 0 by {
            lemma_no_extents(v0, i0.extents@, p);
        }
        lemma_frame_refl(v0, i0.ino);
    }
    if i.inline_data.len() > 0 {
        let ghost ino = i.ino;
        match write_part(vol, &mut i.extents, Ghost(ino), 0, 0, i.inline_data.as_slice(), rb) {
            Ok(_) => {},
            Err(e) => return Err(e),
        }
        assert forall|p: int| p >= 0 implies #[trigger] ubyte(*vol, i.extents@, p) == (if p
            < i0.inline_data@.len() {
            i0.inline_data@[p]
        } else {
            0
        }) by {
            assert(ubyte(*vol, i.extents@, p) == written_byte(
                v0,
                i0.extents@,
                p,
                0,
                i0.inline_data@,
            ));
            assert(ubyte(v0, i0.extents@, p) == 0);
        }
    }
    i.inline_data = Vec::new();
    i.data_kind = DataKind::Extents;
    Ok(())
}

impl Inner {
    /// Puts inode `ino` back, changed.
    pub(crate) fn put_inode(&mut self, ino: u64, i: Inode)
        ensures
            final(self).inodes@ == old(self).inodes@.insert(ino, i),
            forall|x: u64| #[trigger]
                final(self).dirty_inodes@.contains(x) <==> x == ino || old(self).dirty_inodes@.contains(x),
            *final(self) == (Inner {
                inodes: final(self).inodes,
                dirty_inodes: final(self).dirty_inodes,
                ..*old(self)
            }),
    {
        self.inodes.insert(ino, i);
        self.mark_dirty(ino);
    }

    /// Writes into a file whose data stays in its inode.
    fn write_inline(&mut self, ino: u64, off: usize, buf: &[u8])
        requires
            old(self).wf(),
            old(self).inodes@.contains_key(ino),
            old(self).inodes@[ino].data_kind is Inline,
            off + buf@.len() <= INLINE_MAX,
        ensures
            final(self).load() == old(self).load(),
            final(self).wf(),
            keeps(*old(self), *final(self)),
            apart(*old(self), *final(self), ino),
            final(self)@ == written(old(self)@, ino, off as int, buf@),
            final(self).vol == old(self).vol,
            final(self).inodes@[ino].data_kind is Inline,
    {
        let ghost s0 = *self;
        let ghost i0 = s0.inodes@[ino];
        let end: usize = off + buf.len();
        let mut i = match self.inodes.remove(&ino) {
            Some(i) => i,
            None => return,
        };
        if i.inline_data.len() < end {
            pad_to(&mut i.inline_data, end);
        }
        copy_into(i.inline_data.as_mut_slice(), off, buf);
        if end as u64 > i.size {
            i.size = end as u64;
        }
        i.mtime = self.clock;
        i.ctime = self.clock;
        let ghost i1 = i;
        self.put_inode(ino, i);
        proof {
            assert(self.inodes@ =~= s0.inodes@.insert(ino, i1));
            lemma_frame_refl(s0.vol, ino);
            assert(tail_zero(self.vol, self.record_cache, self.rb(), i1));
            lemma_rc_other(s0, *self, ino, i1);
            assert(stepped(s0, *self, ino, i1));
            lemma_data_step(s0, *self, ino, i1);
            assert(content(self.vol, self.record_cache, self.rb(), i1) =~= overwritten(
                s0@.nodes[ino].data,
                off as int,
                buf@,
            ));
        }
    }

    /// Writes into a file without compressed records.
    #[verifier::rlimit(40)]
    fn write_blocks(&mut self, ino: u64, off: u64, buf: &[u8]) -> (r: Result<()>)
        requires
            old(self).wf(),
            old(self).writable,
            old(self).inodes@.contains_key(ino),
            !old(self).inodes@[ino].compresses(),
            off + buf@.len() <= MAX_FILE_SIZE,
            buf@.len() > 0,
        ensures
            final(self).wf(),
            keeps(*old(self), *final(self)),
            apart(*old(self), *final(self), ino),
            final(self).load() <= old(self).load() + room(buf@.len() as int),
            fills_only(*old(self), *final(self), ino, off as int, buf@.len() as int),
            r is Ok ==> fills_all(*old(self), *final(self), ino, off as int, buf@.len() as int),
            r is Ok && takes_a_block(*old(self), ino, off, buf@) ==> final(self).inodes@[ino].blocks
                == 8,
            match r {
                Ok(_) => final(self)@ == written(old(self)@, ino, off as int, buf@),
                Err(e) => e.is(ENOSPC) && old(self).full(room(buf@.len() as int)) && partly_written(
                    old(self)@,
                    final(self)@,
                    ino,
                    off as int,
                    buf@.len() as int,
                ),
            },
    {
        let ghost s0 = *self;
        let ghost rb = s0.rb();
        let ghost i0 = s0.inodes@[ino];
        let end: u64 = off + buf.len() as u64;
        let mut i = match self.inodes.remove(&ino) {
            Some(i) => i,
            None => return Err(eio("missing inode")),
        };
        proof {
            lemma_frame_refl(s0.vol, ino);
        }
        if i.data_kind == DataKind::Inline {
            match promote_inline(&mut self.vol, &mut i, Ghost(rb)) {
                Ok(_) => {},
                Err(e) => {
                    self.inodes.insert(ino, i);
                    proof {
                        assert(self.inodes@ =~= s0.inodes@);
                        lemma_apart_put(s0, *self, ino);
                        lemma_same_view(s0, *self);
                        assert(self@.nodes.insert(ino, self@.nodes[ino]) =~= self@.nodes);
                    }
                    return Err(e);
                },
            }
        }
        let ghost vm = self.vol;
        let ghost em = i.extents@;
        proof {
            assert forall|p: int| p >= 0 implies #[trigger] ubyte(vm, em, p) == fbyte(
                s0.vol,
                s0.record_cache,
                rb,
                i0,
                p,
            ) by {
                assert(!covers(s0.record_cache, rb, ino, p));
            }
        }
        let res = write_raw(&mut self.vol, &mut i.extents, Ghost(ino), off, buf, Ghost(rb));
        if end > i.size {
            i.size = end;
        }
        i.blocks = count_sectors(&i.extents, Ghost(rb));
        i.data_kind = kind_for(i.extents.len());
        i.mtime = self.clock;
        i.ctime = self.clock;
        let ghost i1 = i;
        self.put_inode(ino, i);
        proof {
            assert(self.inodes@ =~= s0.inodes@.insert(ino, i1));
            lemma_frame_trans(s0.vol, vm, self.vol, ino);
            assert forall|p: int| p >= i1.size implies #[trigger] fbyte(
                self.vol,
                self.record_cache,
                rb,
                i1,
                p,
            ) == 0 by {
                assert(!covers(self.record_cache, rb, ino, p));
                assert(ubyte(self.vol, i1.extents@, p) == ubyte(vm, em, p));
                assert(fbyte(s0.vol, s0.record_cache, rb, i0, p) == 0);
            }
            assert(tail_zero(self.vol, self.record_cache, rb, i1));
            lemma_rc_other(s0, *self, ino, i1);
            assert(stepped(s0, *self, ino, i1));
            lemma_data_step(s0, *self, ino, i1);
            lemma_raw_readable(self.vol, i1.extents@);
            let d0 = s0@.nodes[ino].data;
            let d1 = content(self.vol, self.record_cache, rb, i1);
            assert forall|p: int| 0 <= p < d1.len() implies #[trigger] d1[p] == ubyte(
                self.vol,
                i1.extents@,
                p,
            ) by {
                assert(!covers(self.record_cache, rb, ino, p));
            }
            assert forall|p: int| 0 <= p < d1.len() implies #[trigger] ubyte(vm, em, p) == (if p
                < d0.len() {
                d0[p]
            } else {
                0
            }) by {
                assert(fbyte(s0.vol, s0.record_cache, rb, i0, p) == ubyte(vm, em, p));
            }
            if res is Ok {
                assert(d1 =~= overwritten(d0, off as int, buf@)) by {
                    assert forall|p: int| 0 <= p < d1.len() implies d1[p] == overwritten(
                        d0,
                        off as int,
                        buf@,
                    )[p] by {
                        assert(ubyte(self.vol, i1.extents@, p) == written_byte(
                            vm,
                            em,
                            p,
                            off as int,
                            buf@,
                        ));
                        assert(ubyte(vm, em, p) == if p < d0.len() {
                            d0[p]
                        } else {
                            0
                        });
                    }
                }
            } else {
                assert(self@.nodes[ino].data == d1);
                assert forall|p: int|
                    0 <= p < d0.len() && !(off <= p < off + buf@.len()) implies #[trigger] d1[p]
                    == d0[p] by {
                    assert(ubyte(self.vol, i1.extents@, p) == ubyte(vm, em, p));
                }
            }
            if res is Ok {
                assert(fills_all(s0, *self, ino, off as int, buf@.len() as int)) by {
                    assert forall|l: int|
                        off as int / 4096 <= l < (off + buf@.len() + 4095) / 4096 || lookup(
                            i0.extents@,
                            l,
                        ) is Some implies #[trigger] lookup(i1.extents@, l) is Some by {
                        if lookup(i0.extents@, l) is Some {
                            lemma_find_some(i0.extents@, l);
                            assert(em == i0.extents@);
                        }
                    }
                }
                if takes_a_block(s0, ino, off, buf@) {
                    assert forall|l: int| #[trigger] lookup(i1.extents@, l) is Some <==> l == 0 by {
                        if lookup(i1.extents@, l) is Some && l != 0 {
                            assert(lookup(em, l) is Some);
                            assert(lookup(i0.extents@, l) is Some);
                            lemma_find_some(i0.extents@, l);
                        }
                    }
                    lemma_one_block(i1.extents@, rb);
                }
            }
        }
        res
    }
}

/// Two writes in a row are one.
pub proof fn lemma_overwritten_twice(d: Seq<u8>, off: int, a: Seq<u8>, b: Seq<u8>)
    requires
        0 <= off,
        off + a.len() <= d.len(),
    ensures
        overwritten(overwritten(d, off, a), off + a.len(), b) == overwritten(d, off, a + b),
{
    assert(overwritten(overwritten(d, off, a), off + a.len(), b) =~= overwritten(d, off, a + b));
}

/// Growing a file first makes no difference to a write.
pub proof fn lemma_overwritten_grown(d: Seq<u8>, off: int, buf: Seq<u8>, n: nat)
    requires
        0 <= off,
        n == if d.len() >= off + buf.len() {
            d.len()
        } else {
            (off + buf.len()) as nat
        },
    ensures
        overwritten(padded(d, n), off, buf) == overwritten(d, off, buf),
{
    assert(overwritten(padded(d, n), off, buf) =~= overwritten(d, off, buf));
}

/// The bytes of `data` in the record at logical block `start`.
pub open spec fn record_part(data: Seq<u8>, start: int, rb: int) -> Seq<u8> {
    data.subrange(start * 4096, if data.len() < (start + rb) * 4096 {
        data.len() as int
    } else {
        (start + rb) * 4096
    })
}

/// A file whose data left the inode when it was written from byte `off` on: its first record and
/// those from byte `off` on are stored compressed where that saves a block.
#[verifier::opaque]
pub open spec fn written_packed(i: Inode, data: Seq<u8>, off: int, rb: int) -> bool {
    forall|r: int|
        is_record_start(r, rb) && r * 4096 < data.len() && (r == 0 || r >= record_start(
            off / 4096,
            rb,
        ))
            ==> packed_well(
            #[trigger] lookup(i.extents@, r),
            record_part(data, r, rb),
            compression_of(i.compression) is Lz4,
        )
}

impl Inner {
    /// Notes a modification of a file with extents that makes it at least `end` bytes long.
    fn extend_file(&mut self, ino: u64, end: u64)
        requires
            old(self).wf(),
            old(self).inodes@.contains_key(ino),
            !(old(self).inodes@[ino].data_kind is Inline),
            end <= MAX_FILE_SIZE,
        ensures
            final(self).load() == old(self).load(),
            final(self).wf(),
            keeps(*old(self), *final(self)),
            apart(*old(self), *final(self), ino),
            final(self).inodes@.contains_key(ino),
            !(final(self).inodes@[ino].data_kind is Inline),
            old(self).inodes@[ino].compresses() ==> final(self).inodes@[ino].compresses(),
            final(self).record_blocks == old(self).record_blocks,
            final(self).inodes@[ino].size == if old(self).inodes@[ino].size >= end {
                old(self).inodes@[ino].size
            } else {
                end
            },
            final(self)@ == old(self)@.with(
                ino,
                (Node {
                    meta: modified_at(old(self)@.nodes[ino].meta, old(self)@.clock),
                    data: padded(
                        old(self)@.nodes[ino].data,
                        final(self).inodes@[ino].size as nat,
                    ),
                    xattr: old(self)@.nodes[ino].xattr,
                }),
            ),
    {
        let ghost s0 = *self;
        let ghost i0 = s0.inodes@[ino];
        let mut i = match self.inodes.remove(&ino) {
            Some(i) => i,
            None => return,
        };
        if end > i.size {
            i.size = end;
        }
        i.mtime = self.clock;
        i.ctime = self.clock;
        let ghost i1 = i;
        self.put_inode(ino, i);
        proof {
            assert(self.inodes@ =~= s0.inodes@.insert(ino, i1));
            lemma_frame_refl(s0.vol, ino);
            assert forall|p: int| #[trigger] fbyte(self.vol, self.record_cache, self.rb(), i1, p)
                == fbyte(s0.vol, s0.record_cache, s0.rb(), i0, p) by {}
            assert forall|p: int| p >= i1.size implies #[trigger] fbyte(
                self.vol,
                self.record_cache,
                self.rb(),
                i1,
                p,
            ) == 0 by {
                assert(fbyte(s0.vol, s0.record_cache, s0.rb(), i0, p) == 0);
            }
            assert(stepped(s0, *self, ino, i1));
            lemma_data_step(s0, *self, ino, i1);
            assert(content(self.vol, self.record_cache, self.rb(), i1) =~= padded(
                s0@.nodes[ino].data,
                i1.size as nat,
            )) by {
                let d1 = content(self.vol, self.record_cache, self.rb(), i1);
                assert forall|p: int| 0 <= p < d1.len() implies d1[p] == padded(
                    s0@.nodes[ino].data,
                    i1.size as nat,
                )[p] by {
                    assert(fbyte(self.vol, self.record_cache, self.rb(), i1, p) == fbyte(
                        s0.vol,
                        s0.record_cache,
                        s0.rb(),
                        i0,
                        p,
                    ));
                }
            }
        }
    }

    /// Overwrites a stretch of the record in memory.
    fn patch_record(&mut self, ino: u64, within: usize, src: &[u8])
        requires
            old(self).wf(),
            old(self).writable,
            old(self).record_cache matches Some(c) && c.ino == ino && within + src@.len()
                <= old(self).rb() * 4096 && c.start * 4096 + within + src@.len()
                <= old(self).inodes@[ino].size,
        ensures
            final(self).load() <= old(self).load() + 64,
            final(self).wf(),
            keeps(*old(self), *final(self)),
            kinds_kept(*old(self), *final(self)),
            final(self)@ == old(self)@.with(
                ino,
                (Node {
                    data: overwritten(
                        old(self)@.nodes[ino].data,
                        (old(self).record_cache->0).start * 4096 + within,
                        src@,
                    ),
                    ..old(self)@.nodes[ino]
                }),
            ),
    {
        let ghost s0 = *self;
        let ghost i0 = s0.inodes@[ino];
        match self.record_cache.take() {
            Some(c) => {
                let mut c = c;
                copy_into(c.data.as_mut_slice(), within, src);
                c.dirty = true;
                let ghost start = c.start;
                self.record_cache = Some(c);
                self.mark_dirty(ino);
                proof {
                    assert(s0.inodes@.contains_key(ino));
                    assert(self.inodes@ =~= s0.inodes@.insert(ino, i0));
                    lemma_frame_refl(s0.vol, ino);
                    assert forall|p: int| p >= 0 implies #[trigger] fbyte(
                        self.vol,
                        self.record_cache,
                        self.rb(),
                        i0,
                        p,
                    ) == (if start * 4096 + within <= p < start * 4096 + within + src@.len() {
                        src@[p - (start * 4096 + within)]
                    } else {
                        fbyte(s0.vol, s0.record_cache, s0.rb(), i0, p)
                    }) by {}
                    assert forall|p: int| p >= i0.size implies #[trigger] fbyte(
                        self.vol,
                        self.record_cache,
                        self.rb(),
                        i0,
                        p,
                    ) == 0 by {
                        assert(fbyte(s0.vol, s0.record_cache, s0.rb(), i0, p) == 0);
                    }
                    assert(stepped(s0, *self, ino, i0));
                    lemma_data_step(s0, *self, ino, i0);
                    let d1 = content(self.vol, self.record_cache, self.rb(), i0);
                    let d2 = overwritten(
                        s0@.nodes[ino].data,
                        start * 4096 + within,
                        src@,
                    );
                    assert(d1 =~= d2) by {
                        assert forall|p: int| 0 <= p < d1.len() implies d1[p] == d2[p] by {
                            assert(d1[p] == fbyte(
                                self.vol,
                                self.record_cache,
                                self.rb(),
                                i0,
                                p,
                            ));
                        }
                    }
                }
            },
            None => {},
        }
    }

    /// Writes into a file with records.
    #[verifier::rlimit(60)]
    fn write_records(&mut self, ino: u64, off: u64, buf: &[u8]) -> (r: Result<()>)
        requires
            old(self).wf(),
            old(self).writable,
            old(self).inodes@.contains_key(ino),
            old(self).inodes@[ino].compresses(),
            !(old(self).inodes@[ino].data_kind is Inline),
            off + buf@.len() <= MAX_FILE_SIZE,
            buf@.len() > 0,
        ensures
            final(self).wf(),
            keeps(*old(self), *final(self)),
            apart(*old(self), *final(self), ino),
            final(self).load() <= old(self).load() + room(buf@.len() as int),
            match r {
                Ok(_) => final(self)@ == written(old(self)@, ino, off as int, buf@),
                Err(e) => storage_failed(*old(self), e, room(buf@.len() as int), 0) && partly_written(
                    old(self)@,
                    final(self)@,
                    ino,
                    off as int,
                    buf@.len() as int,
                ),
            },
    {
        let ghost s0 = *self;
        let ghost n0 = s0@.nodes[ino];
        let n: usize = buf.len();
        let end: u64 = off + n as u64;
        assert(s0@.nodes.contains_key(ino));
        self.extend_file(ino, end);
        let ghost s1 = *self;
        let ghost n1 = s1@.nodes[ino];
        let ghost d1 = n1.data;
        let rb = self.record_blocks;
        let rec_bytes: usize = rb as usize * 4096;
        let mut done: usize = 0;
        let ghost mut k: int = 0;
        let ghost mut at: int = 0;
        let ghost first = off as int / 4096 - 32;
        proof {
            assert(buf@.take(0) =~= Seq::<u8>::empty());
            assert(overwritten(d1, off as int, buf@.take(0)) =~= d1);
            assert(s1@.nodes.insert(ino, n1) =~= s1@.nodes);
        }
        while done < n
            invariant
                self.wf(),
                s0.wf(),
                self.writable,
                s0.writable,
                s0 == *old(self),
                keeps(s0, *self),
                keeps(s1, *self),
                apart(s0, *self, ino),
                s0.sound() ==> s1.sound(),
                s0@.nodes.contains_key(ino),
                n0 == s0@.nodes[ino],
                n1 == s1@.nodes[ino],
                s1@ == s0@.with(ino, n1),
                n1.meta == modified_at(n0.meta, s0@.clock),
                n1.xattr == n0.xattr,
                d1 == n1.data,
                d1 == padded(n0.data, d1.len()),
                d1.len() == if n0.data.len() >= end {
                    n0.data.len()
                } else {
                    end as nat
                },
                self.inodes@.contains_key(ino),
                self.inodes@[ino].compresses(),
                !(self.inodes@[ino].data_kind is Inline),
                self.inodes@[ino].size == d1.len(),
                self.inodes@[ino].size <= MAX_FILE_SIZE,
                rb == self.record_blocks,
                record_size_ok(rb as int),
                rec_bytes == rb * 4096,
                done <= n,
                self.load() <= s0.load() + 64 * k,
                k >= 0,
                done == 0 ==> k == 0,
                done > 0 ==> k > 0 && is_record_start(at, rb as int) && 2 * (k - 1) <= at - first
                    && at * 4096 < end,
                0 < done < n ==> off + done == (at + rb) * 4096,
                first == off as int / 4096 - 32,
                n == buf@.len(),
                end == off + n,
                end <= MAX_FILE_SIZE,
                self@ == s1@.with(
                    ino,
                    (Node { data: overwritten(d1, off as int, buf@.take(done as int)), ..n1 }),
                ),
            decreases n - done,
        {
            let pos: u64 = off + done as u64;
            let l: u64 = pos / 4096;
            proof {
                lemma_record_start(l as int, rb as int);
            }
            let start: u64 = l - l % rb as u64;
            let within: usize = (pos - start * 4096) as usize;
            let chunk: usize = if rec_bytes - within < n - done {
                rec_bytes - within
            } else {
                n - done
            };
            let ghost s2 = *self;
            match self.cached_record(ino, start) {
                Ok(_) => {},
                Err(e) => {
                    proof {
                        lemma_apart_kinds(s2, *self, ino);
                        lemma_apart(s0, s2, *self, ino);
                        let data = overwritten(d1, off as int, buf@.take(done as int));
                        assert(self@.nodes[ino].data == data);
                        assert(self@ == s0@.with(ino, self@.nodes[ino])) by {
                            assert(self@.nodes =~= s0@.nodes.insert(ino, self@.nodes[ino]));
                        }
                    }
                    return Err(e);
                },
            }
            let ghost s3 = *self;
            self.patch_record(
                ino,
                within,
                vstd::slice::slice_subrange(buf, done, done + chunk),
            );
            proof {
                lemma_apart_kinds(s2, s3, ino);
                lemma_apart_kinds(s3, *self, ino);
                lemma_apart(s0, s2, s3, ino);
                lemma_apart(s0, s3, *self, ino);
                let a = buf@.take(done as int);
                let b = buf@.subrange(done as int, done + chunk);
                lemma_overwritten_twice(d1, off as int, a, b);
                assert(a + b =~= buf@.take(done + chunk));
                assert(start * 4096 + within == off + done);
                let n2 = Node { data: overwritten(d1, off as int, buf@.take(done + chunk)), ..n1 };
                assert(self@.nodes =~= s1@.nodes.insert(ino, n2));
                assert(self.inodes@.contains_key(ino));
            }
            proof {
                if k > 0 {
                    lemma_next_record(at, rb as int);
                }
                k = k + 1;
                at = start as int;
            }
            done = done + chunk;
        }
        proof {
            assert(buf@.take(n as int) =~= buf@);
            lemma_overwritten_grown(n0.data, off as int, buf@, d1.len());
            assert(self@.nodes =~= written(s0@, ino, off as int, buf@).nodes);
        }
        Ok(())
    }
}

/// Byte `p` of a file with contents `full`; zero behind its end.
pub open spec fn byte_or_zero(full: Seq<u8>, p: int) -> u8 {
    if p < full.len() {
        full[p]
    } else {
        0
    }
}

/// The `n` bytes from `s` on of a file that begins with `head` and had `buf` written at `off`.
fn overlaid_part(head: &[u8], off: u64, buf: &[u8], s: u64, n: usize) -> (rec: Vec<u8>)
    requires
        s == 0 && head@.len() <= n || head@.len() <= s,
        s + n <= overwritten(head@, off as int, buf@).len(),
        off + buf@.len() <= MAX_FILE_SIZE,
        head@.len() <= INLINE_MAX,
        n <= 0x20000,
    ensures
        rec@ == overwritten(head@, off as int, buf@).subrange(s as int, s + n),
{
    let end: u64 = off + buf.len() as u64;
    let mut rec: Vec<u8> = zero_vec(n);
    if s == 0 {
        copy_into(rec.as_mut_slice(), 0, head);
    }
    let lo: u64 = if off < s {
        s
    } else {
        off
    };
    let hi: u64 = if end < s + n as u64 {
        end
    } else {
        s + n as u64
    };
    if lo < hi {
        copy_into(
            rec.as_mut_slice(),
            (lo - s) as usize,
            vstd::slice::slice_subrange(buf, (lo - off) as usize, (hi - off) as usize),
        );
    }
    assert(rec@ =~= overwritten(head@, off as int, buf@).subrange(s as int, s + n));
    rec
}

impl Inner {
    /// Writes into a small file that moves from its inode into records.
    #[verifier::rlimit(80)]
    fn write_first_records(&mut self, ino: u64, off: u64, buf: &[u8]) -> (r: Result<()>)
        requires
            old(self).wf(),
            old(self).writable,
            old(self).inodes@.contains_key(ino),
            old(self).inodes@[ino].compresses(),
            old(self).inodes@[ino].data_kind is Inline,
            INLINE_MAX < off + buf@.len() <= MAX_FILE_SIZE,
            buf@.len() > 0,
        ensures
            final(self).wf(),
            keeps(*old(self), *final(self)),
            apart(*old(self), *final(self), ino),
            final(self).load() <= old(self).load() + room(buf@.len() as int),
            match r {
                Ok(_) => final(self)@ == written(old(self)@, ino, off as int, buf@) && written_packed(
                    final(self).inodes@[ino],
                    final(self)@.nodes[ino].data,
                    off as int,
                    final(self).rb(),
                ),
                Err(e) => e.is(ENOSPC) && old(self).full(room(buf@.len() as int)) && partly_written(
                    old(self)@,
                    final(self)@,
                    ino,
                    off as int,
                    buf@.len() as int,
                ),
            },
    {
        let ghost s0 = *self;
        let ghost i0 = s0.inodes@[ino];
        let total: u64 = off + buf.len() as u64;
        let rb = self.record_blocks;
        let rec_bytes: u64 = rb as u64 * 4096;
        let mut i = match self.inodes.remove(&ino) {
            Some(i) => i,
            None => return Err(eio("missing inode")),
        };
        let ghost full = overwritten(i0.inline_data@, off as int, buf@);
        let algo = Compression::from_u8(i.compression);
        let n: usize = if total < rec_bytes {
            total as usize
        } else {
            rec_bytes as usize
        };
        let rec = overlaid_part(i.inline_data.as_slice(), off, buf, 0, n);
        let mut packed = match store_record(
            &mut self.vol,
            &mut i.extents,
            Ghost(ino),
            0,
            rec.as_slice(),
            algo,
            rb,
        ) {
            Ok(p) => p,
            Err(e) => {
                self.inodes.insert(ino, i);
                proof {
                    assert(self.inodes@ =~= s0.inodes@);
                    lemma_apart_put(s0, *self, ino);
                    lemma_same_view(s0, *self);
                    assert(self@.nodes.insert(ino, self@.nodes[ino]) =~= self@.nodes);
                }
                return Err(e);
            },
        };
        let l: u64 = off / 4096;
        proof {
            lemma_record_start(l as int, rb as int);
            if !packed {
                lemma_still_raw(i0.extents@, i.extents@);
            }
            lemma_raw_readable(s0.vol, i0.extents@);
            assert forall|p: int| p >= 0 implies #[trigger] ubyte(self.vol, i.extents@, p) == (if p
                < rb * 4096 {
                byte_or_zero(full, p)
            } else {
                0
            }) by {
                assert(ubyte(self.vol, i.extents@, p) == patched_byte(
                    s0.vol,
                    i0.extents@,
                    p,
                    0,
                    rb as int,
                    rec@,
                ));
                lemma_no_extents(s0.vol, i0.extents@, p);
            }
        }
        let mut start: u64 = l - l % rb as u64;
        if start == 0 {
            start = rb as u64;
        }
        proof {
            assert forall|p: int| p >= 0 implies #[trigger] ubyte(self.vol, i.extents@, p) == (if p
                < start * 4096 {
                byte_or_zero(full, p)
            } else {
                0
            }) by {
                if rb * 4096 <= p < start * 4096 {
                    assert(p < off);
                }
            }
            lemma_starts(rb as int, start as int);
        }
        proof {
            assert(rec@ =~= record_part(full, 0, rb as int));
            assert forall|r: int|
                is_record_start(r, rb as int) && r < start && r * 4096 < total && (r == 0 || r
                    >= start) implies packed_well(
                #[trigger] lookup(i.extents@, r),
                record_part(full, r, rb as int),
                algo is Lz4,
            ) by {}
        }
        let mut res: Result<()> = Ok(());
        let mut go = true;
        let ghost first = start as int;
        let ghost mut k: int = 0;
        while go && start * 4096 < total
            invariant
                s0.wf(),
                i0 == s0.inodes@[ino],
                s0.inodes@.contains_key(ino),
                i0.data_kind is Inline,
                i0.ino == ino,
                full == overwritten(i0.inline_data@, off as int, buf@),
                full.len() == total,
                total == off + buf@.len(),
                INLINE_MAX < total <= MAX_FILE_SIZE,
                i0.inline_data@.len() <= INLINE_MAX,
                record_size_ok(rb as int),
                rec_bytes == rb * 4096,
                rb <= start <= MAX_FILE_BLOCKS,
                is_record_start(start as int, rb as int) || start == MAX_FILE_BLOCKS,
                i.inline_data@ == i0.inline_data@,
                self.vol.wf(),
                exts_wf(i.extents@, rb as int),
                exts_claimed(self.vol.owner@, ino, i.extents@),
                stays_tight(s0.vol.owner@, i0.extents@, self.vol.owner@, i.extents@, ino),
                frame(s0.vol, self.vol, ino),
                exts_readable(self.vol, i.extents@),
                !packed ==> all_raw(i.extents@),
                forall|p: int|
                    p >= 0 ==> #[trigger] ubyte(self.vol, i.extents@, p) == if p < start * 4096 {
                        byte_or_zero(full, p)
                    } else {
                        0
                    },
                go <==> res is Ok,
                algo == compression_of(i0.compression),
                first == if record_start(off as int / 4096, rb as int) == 0 {
                    rb as int
                } else {
                    record_start(off as int / 4096, rb as int)
                },
                forall|r: int|
                    is_record_start(r, rb as int) && r < start && r * 4096 < total && (r == 0 || r
                        >= first) ==> packed_well(
                        #[trigger] lookup(i.extents@, r),
                        record_part(full, r, rb as int),
                        algo is Lz4,
                    ),
                res matches Err(e) ==> e.is(ENOSPC) && self.vol.full(64),
                2 * k <= start - first,
                k > 0 ==> 2 * (k - 1) <= start - rb - first && (start - rb) * 4096 < total,
                self.vol.end() <= s0.vol.end() + 64 * (k + 1),
                first * 4096 + 131072 >= off,
                first >= 0,
                i == (Inode { extents: i.extents, ..i0 }),
                *self == (Inner { vol: self.vol, inodes: self.inodes, ..s0 }),
                self.inodes@ == s0.inodes@.remove(ino),
            decreases
                    MAX_FILE_BLOCKS - start + if go {
                        1int
                    } else {
                        0int
                    },
        {
            let n: usize = if total - start * 4096 < rec_bytes {
                (total - start * 4096) as usize
            } else {
                rec_bytes as usize
            };
            let rec = overlaid_part(i.inline_data.as_slice(), off, buf, start * 4096, n);
            let ghost v1 = self.vol;
            let ghost e1 = i.extents@;
            match store_record(
                &mut self.vol,
                &mut i.extents,
                Ghost(ino),
                start,
                rec.as_slice(),
                algo,
                rb,
            ) {
                Ok(p) => {
                    proof {
                        if !p {
                            lemma_still_raw(e1, i.extents@);
                        }
                        lemma_frame_trans(s0.vol, v1, self.vol, ino);
                        assert forall|p: int| p >= 0 implies #[trigger] ubyte(
                            self.vol,
                            i.extents@,
                            p,
                        ) == (if p < (start + rb) * 4096 {
                            byte_or_zero(full, p)
                        } else {
                            0
                        }) by {
                            assert(ubyte(self.vol, i.extents@, p) == patched_byte(
                                v1,
                                e1,
                                p,
                                start as int,
                                rb as int,
                                rec@,
                            ));
                        }
                        lemma_starts(rb as int, start + rb);
                        lemma_next_start(start as int, rb as int);
                        assert(rec@ =~= record_part(full, start as int, rb as int));
                        assert forall|r: int|
                            is_record_start(r, rb as int) && r < start + rb && r * 4096 < total && (
                            r == 0 || r >= first) implies packed_well(
                            #[trigger] lookup(i.extents@, r),
                            record_part(full, r, rb as int),
                            algo is Lz4,
                        ) by {
                            lemma_between_starts(r, start as int, rb as int);
                            if r < start {
                                assert(lookup(i.extents@, r) == lookup(e1, r));
                            }
                        }
                    }
                    packed = packed || p;
                    proof {
                        k = k + 1;
                    }
                    start = start + rb as u64;
                },
                Err(e) => {
                    res = Err(e);
                    go = false;
                },
            }
        }
        i.inline_data = Vec::new();
        i.size = total;
        if packed {
            i.flags = i.flags | FLAG_COMPRESSED;
            proof {
                lemma_compressed_flag(i0.flags);
            }
        }
        i.blocks = count_sectors(&i.extents, Ghost(rb as int));
        i.data_kind = kind_for(i.extents.len());
        i.mtime = self.clock;
        i.ctime = self.clock;
        let ghost i1 = i;
        self.put_inode(ino, i);
        proof {
            assert(self.inodes@ =~= s0.inodes@.insert(ino, i1));
            assert forall|p: int| p >= 0 implies #[trigger] fbyte(
                self.vol,
                self.record_cache,
                self.rb(),
                i1,
                p,
            ) == ubyte(self.vol, i1.extents@, p) by {
                assert(!covers(self.record_cache, self.rb(), ino, p));
            }
            assert forall|p: int| p >= i1.size implies #[trigger] fbyte(
                self.vol,
                self.record_cache,
                self.rb(),
                i1,
                p,
            ) == 0 by {
                assert(ubyte(self.vol, i1.extents@, p) == 0);
            }
            lemma_rc_other(s0, *self, ino, i1);
            assert(stepped(s0, *self, ino, i1));
            lemma_data_step(s0, *self, ino, i1);
            let d1 = content(self.vol, self.record_cache, self.rb(), i1);
            let d0 = s0@.nodes[ino].data;
            assert(d0 =~= i0.inline_data@);
            assert forall|p: int| 0 <= p < d1.len() implies #[trigger] d1[p] == ubyte(
                self.vol,
                i1.extents@,
                p,
            ) by {
                assert(fbyte(self.vol, self.record_cache, self.rb(), i1, p) == ubyte(
                    self.vol,
                    i1.extents@,
                    p,
                ));
            }
            if res is Ok {
                assert(d1 =~= full);
                assert(written_packed(i1, d1, off as int, rb as int)) by {
                    reveal(written_packed);
                }
            } else {
                assert(self@.nodes[ino].data == d1);
                assert forall|p: int|
                    0 <= p < d0.len() && !(off <= p < off + buf@.len()) implies #[trigger] d1[p]
                    == d0[p] by {
                    assert(ubyte(self.vol, i1.extents@, p) == byte_or_zero(full, p));
                }
            }
        }
        res
    }

    /// Writes `buf` into file `ino` at byte `offset`; a gap before it reads as zeros.
    pub fn write_data(&mut self, ino: u64, offset: u64, buf: &[u8]) -> (r: Result<usize>)
        requires
            old(self).wf(),
        ensures
            final(self).wf(),
            keeps(*old(self), *final(self)),
            apart(*old(self), *final(self), ino),
            final(self).load() <= old(self).load() + room(buf@.len() as int),
            write_agrees(*old(self), *final(self), ino, offset, buf@, r),
            leaves_inline(*old(self), ino, offset, buf@) && r is Ok ==> written_packed(
                final(self).inodes@[ino],
                final(self)@.nodes[ino].data,
                offset as int,
                final(self).rb(),
            ),
            r is Ok && takes_a_block(*old(self), ino, offset, buf@)
                ==> final(self).inodes@[ino].blocks == 8,
            r is Ok ==> fills_all(*old(self), *final(self), ino, offset as int, buf@.len() as int),
            stays_inline(*old(self), ino, offset, buf@) ==> r is Ok && final(self).vol == old(self).vol && final(self).inodes@[ino].data_kind is Inline,
    {
        reveal(leaves_inline);
        proof {
            lemma_apart_put(*self, *self, ino);
        }
        match self.require_write() {
            Ok(_) => {},
            Err(e) => return Err(e),
        }
        let n: usize = buf.len();
        if n == 0 {
            return Ok(0);
        }
        if offset > MAX_FILE_SIZE || n as u64 > MAX_FILE_SIZE - offset {
            return Err(Error::from_errno(EFBIG));
        }
        let end: u64 = offset + n as u64;
        let (inline, packed) = match self.inodes.get(&ino) {
            Some(i) => (i.data_kind == DataKind::Inline, i.uses_compression()),
            None => return Err(eio("missing inode")),
        };
        assert(self@.nodes.contains_key(ino));
        if inline && end <= INLINE_MAX as u64 {
            self.write_inline(ino, offset as usize, buf);
            proof {
                assert(self@.nodes.contains_key(ino));
                assert(inode_shape(self.inodes@[ino], self.rb()));
            }
            return Ok(n);
        }
        let done = if packed {
            if inline {
                self.write_first_records(ino, offset, buf)
            } else {
                self.write_records(ino, offset, buf)
            }
        } else {
            self.write_blocks(ino, offset, buf)
        };
        match done {
            Ok(_) => Ok(n),
            Err(e) => Err(e),
        }
    }
}

/// A write goes to a file in its inode that still fits there afterwards: it takes no block.
pub open spec fn stays_inline(s: Inner, ino: u64, off: u64, buf: Seq<u8>) -> bool {
    &&& s@.writable
    &&& s.inodes@.contains_key(ino)
    &&& s.inodes@[ino].data_kind is Inline
    &&& 0 < buf.len()
    &&& off + buf.len() <= INLINE_MAX
}

/// A write goes to a file in its inode that may be compressed and that no longer fits there
/// afterwards.
#[verifier::opaque]
pub open spec fn leaves_inline(s: Inner, ino: u64, off: u64, buf: Seq<u8>) -> bool {
    &&& s@.writable
    &&& s.inodes@.contains_key(ino)
    &&& s.inodes@[ino].data_kind is Inline
    &&& s.inodes@[ino].compresses()
    &&& 0 < buf.len()
    &&& off + buf.len() > INLINE_MAX
}

/// What `write_data` returns and changes.
pub open spec fn write_agrees(
    s0: Inner,
    s1: Inner,
    ino: u64,
    off: u64,
    buf: Seq<u8>,
    r: Result<usize>,
) -> bool {
    if !s0@.writable {
        s1@ == s0@ && (r matches Err(e) && e.is(EROFS))
    } else if buf.len() == 0 {
        s1@ == s0@ && (r matches Ok(n) && n == 0)
    } else if off + buf.len() > MAX_FILE_SIZE {
        s1@ == s0@ && (r matches Err(e) && e.is(EFBIG))
    } else if !s0@.nodes.contains_key(ino) {
        s1@ == s0@ && (r matches Err(e) && e.is(EIO))
    } else {
        &&& fills_only(s0, s1, ino, off as int, buf.len() as int)
        &&& match r {
            Ok(n) => n == buf.len() && s1@ == written(s0@, ino, off as int, buf),
            Err(e) => storage_failed(s0, e, room(buf.len() as int), 0) && partly_written(
                s0@,
                s1@,
                ino,
                off as int,
                buf.len() as int,
            ),
        }
    }
}

/// What cutting an inode with extents down to `n` bytes does.
pub open spec fn shrunk(v0: Volume, i0: Inode, v1: Volume, i1: Inode, n: int, rb: int) -> bool {
    &&& file_ok(v1, i1.extents@, i0.ino, rb)
    &&& frame(v0, v1, i0.ino)
    &&& inode_shape(i1, rb)
    &&& i1.size == n
    &&& i1 == (Inode {
        size: i1.size,
        blocks: i1.blocks,
        flags: i1.flags,
        data_kind: i1.data_kind,
        inline_data: i1.inline_data,
        extents: i1.extents,
        ..i0
    })
    &&& forall|p: int|
        p >= 0 ==> #[trigger] fbyte(v1, None, rb, i1, p) == if p < n {
            fbyte(v0, None, rb, i0, p)
        } else {
            0
        }
    &&& exts_readable(v0, i0.extents@) ==> exts_readable(v1, i1.extents@)
    &&& stays_tight(v0.owner@, i0.extents@, v1.owner@, i1.extents@, i0.ino)
    &&& ends_at(i1.extents@, n)
    &&& i1.compresses() ==> i0.compresses()
}

/// A file that ends in its first block has no more than one extent.
proof fn lemma_short(s: Seq<Extent>, rb: int, n: int)
    requires
        exts_wf(s, rb),
        ends_at(s, n),
        n <= 4096,
    ensures
        s.len() <= 1,
{
    if s.len() > 1 {
        assert(ext_wf(s[0], rb));
        assert(ext_wf(s[1], rb));
        let l = s[1].logical as int;
        lemma_find(s, 1, l);
        assert(lookup(s, l) is Some);
        assert(l < 1);
    }
}

/// Moves the data of a file with few bytes and no more than one extent into its inode.
fn move_inline(vol: &mut Volume, i: &mut Inode, rb: u32)
    requires
        file_ok(*old(vol), old(i).extents@, old(i).ino, rb as int),
        inode_shape(*old(i), rb as int),
        !(old(i).data_kind is Inline),
        old(i).size <= INLINE_MAX,
        ends_at(old(i).extents@, old(i).size as int),
        forall|p: int|
            p >= old(i).size ==> #[trigger] fbyte(*old(vol), None, rb as int, *old(i), p) == 0,
    ensures
        final(vol).end() <= old(vol).end(),
        exts_readable(*old(vol), old(i).extents@) ==> final(i).data_kind is Inline,
        shrunk(
            *old(vol),
            *old(i),
            *final(vol),
            *final(i),
            old(i).size as int,
            rb as int,
        ),
{
    let ghost v0 = *vol;
    let ghost i0 = *i;
    let ghost ino = i.ino;
    proof {
        lemma_frame_refl(v0, ino);
        assert forall|p: int| p >= 0 implies #[trigger] fbyte(v0, None, rb as int, i0, p) == (if p
            < i0.size {
            fbyte(v0, None, rb as int, i0, p)
        } else {
            0
        }) by {}
    }
    let rec = match load_record(vol, &i.extents, Ghost(ino), 0, rb) {
        Ok(d) => d,
        Err(_) => {
            proof {
                lemma_unchanged_file(v0, *vol, i0.extents@, ino, rb as int);
                assert forall|p: int| p >= 0 implies #[trigger] fbyte(
                    *vol,
                    None,
                    rb as int,
                    i0,
                    p,
                ) == fbyte(v0, None, rb as int, i0, p) by {
                    assert(ubyte(*vol, i0.extents@, p) == ubyte(v0, i0.extents@, p));
                }
            }
            return;
        },
    };
    let n: usize = i.size as usize;
    let ghost v1 = *vol;
    proof {
        lemma_unchanged_file(v0, v1, i0.extents@, ino, rb as int);
    }
    free_all(vol, &mut i.extents, Ghost(ino), Ghost(rb as int));
    i.inline_data = copy_bytes(vstd::slice::slice_subrange(rec.as_slice(), 0, n));
    i.blocks = 0;
    i.data_kind = DataKind::Inline;
    proof {
        lemma_frame_trans(v0, v1, *vol, ino);
        assert forall|p: int| p >= 0 implies #[trigger] fbyte(*vol, None, rb as int, *i, p) == (if p
            < n {
            fbyte(v0, None, rb as int, i0, p)
        } else {
            0
        }) by {
            if p < n {
                assert(rec@[p] == ubyte(v0, i0.extents@, p));
            }
        }
        lemma_raw_readable(*vol, i.extents@);
        assert(sum_plen(i.extents@) == 0);
    }
}

/// Cuts a file with extents down to `n` bytes.
fn shrink(vol: &mut Volume, i: &mut Inode, n: u64, rb: u32) -> (r: Result<()>)
    requires
        file_ok(*old(vol), old(i).extents@, old(i).ino, rb as int),
        inode_shape(*old(i), rb as int),
        !(old(i).data_kind is Inline),
        n <= MAX_FILE_SIZE,
    ensures
        final(vol).end() <= old(vol).end() + 64,
        match r {
            Ok(_) => shrunk(*old(vol), *old(i), *final(vol), *final(i), n as int, rb as int) && (n
                <= INLINE_MAX && exts_readable(*old(vol), old(i).extents@)
                ==> final(i).data_kind is Inline),
            Err(e) => {
                &&& unchanged(*old(vol), *final(vol))
                &&& final(vol).wf()
                &&& *final(i) == *old(i)
                &&& ({
                    ||| e.is(EIO) && !exts_readable(*old(vol), old(i).extents@)
                    ||| e.is(ENOSPC) && old(vol).full(64)
                })
            },
        },
{
    let ghost v0 = *vol;
    let ghost i0 = *i;
    let ghost ino = i.ino;
    if i.uses_compression() {
        if n == 0 {
            free_all(vol, &mut i.extents, Ghost(ino), Ghost(rb as int));
            proof {
                assert forall|p: int| #[trigger] ubyte(*vol, i.extents@, p) == 0 by {
                    lemma_no_extents(*vol, i.extents@, p);
                }
                lemma_raw_readable(*vol, i.extents@);
            }
        } else {
            let algo = Compression::from_u8(i.compression);
            match cut_packed(vol, &mut i.extents, Ghost(ino), n, algo, rb) {
                Ok(packed) => {
                    if packed {
                        i.flags = i.flags | FLAG_COMPRESSED;
                        proof {
                            lemma_compressed_flag(i0.flags);
                        }
                    } else {
                        proof {
                            lemma_still_raw(i0.extents@, i.extents@);
                        }
                    }
                },
                Err(e) => return Err(e),
            }
        }
    } else {
        cut_raw(vol, &mut i.extents, Ghost(ino), n, Ghost(rb as int));
    }
    i.size = n;
    i.blocks = count_sectors(&i.extents, Ghost(rb as int));
    i.data_kind = kind_for(i.extents.len());
    let ghost v1 = *vol;
    let ghost i1 = *i;
    proof {
        assert forall|p: int| p >= 0 implies #[trigger] fbyte(v1, None, rb as int, i1, p) == (if p
            < n {
            fbyte(v0, None, rb as int, i0, p)
        } else {
            0
        }) by {
            assert(ubyte(v1, i1.extents@, p) == if p < n {
                ubyte(v0, i0.extents@, p)
            } else {
                0
            });
        }
        assert(shrunk(v0, i0, v1, i1, n as int, rb as int));
        if n <= INLINE_MAX {
            lemma_short(i1.extents@, rb as int, n as int);
        }
    }
    if n <= INLINE_MAX as u64 && i.extents.len() <= 1 {
        move_inline(vol, i, rb);
        proof {
            lemma_frame_trans(v0, v1, *vol, ino);
            assert forall|p: int| p >= 0 implies #[trigger] fbyte(*vol, None, rb as int, *i, p) == (
            if p < n {
                fbyte(v0, None, rb as int, i0, p)
            } else {
                0
            }) by {
                assert(fbyte(*vol, None, rb as int, *i, p) == if p < n {
                    fbyte(v1, None, rb as int, i1, p)
                } else {
                    0
                });
            }
        }
    }
    Ok(())
}

/// The file after its length was set to `n`: cut off, or filled up with zeros.
pub open spec fn truncated(v: FsView, ino: u64, n: nat) -> FsView {
    let f = v.nodes[ino];
    if f.data.len() == n {
        v
    } else {
        v.with(
            ino,
            Node {
                meta: modified_at(f.meta, v.clock),
                data: resized(f.data, n),
                xattr: f.xattr,
            },
        )
    }
}

/// A file that was cut down to `n` bytes has no blocks left behind its end, and where so few bytes
/// are left that they fit into the inode, they are there.
#[verifier::opaque]
pub open spec fn given_back(s0: Inner, s1: Inner, ino: u64, n: u64) -> bool {
    &&& ends_at(s1.inodes@[ino].extents@, n as int)
    &&& n <= INLINE_MAX && s0.sound() ==> s1.inodes@[ino].data_kind is Inline
}

/// What `truncate_data` returns and changes.
pub open spec fn truncate_agrees(s0: Inner, s1: Inner, ino: u64, n: u64, r: Result<()>) -> bool {
    if !s0@.writable {
        s1@ == s0@ && (r matches Err(e) && e.is(EROFS))
    } else if n > MAX_FILE_SIZE {
        s1@ == s0@ && (r matches Err(e) && e.is(EFBIG))
    } else if !s0@.nodes.contains_key(ino) {
        s1@ == s0@ && (r matches Err(e) && e.is(EIO))
    } else {
        match r {
            Ok(_) => s1@ == truncated(s0@, ino, n as nat),
            Err(e) => storage_failed(s0, e, cut_room(), 0) && s1@ == s0@,
        }
    }
}

impl Inner {
    /// Sets the length of file `ino`.
    #[verifier::rlimit(60)]
    pub fn truncate_data(&mut self, ino: u64, new_size: u64) -> (r: Result<()>)
        requires
            old(self).wf(),
        ensures
            final(self).wf(),
            keeps(*old(self), *final(self)),
            apart(*old(self), *final(self), ino),
            final(self).load() <= old(self).load() + cut_room(),
            truncate_agrees(*old(self), *final(self), ino, new_size, r),
            r is Ok && new_size < old(self)@.nodes[ino].data.len() ==> given_back(
                *old(self),
                *final(self),
                ino,
                new_size,
            ),
            final(self).record_blocks == old(self).record_blocks,
            r is Ok && new_size <= INLINE_MAX && old(self).inodes@.contains_key(ino)
                && old(self).inodes@[ino].data_kind is Inline
                ==> final(self).inodes@[ino].data_kind is Inline,
    {
        reveal(given_back);
        let ghost s0 = *self;
        proof {
            lemma_apart_put(s0, s0, ino);
        }
        match self.require_write() {
            Ok(_) => {},
            Err(e) => return Err(e),
        }
        if new_size > MAX_FILE_SIZE {
            return Err(Error::from_errno(EFBIG));
        }
        match self.get_inode(ino) {
            Ok(_) => {},
            Err(e) => return Err(e),
        }
        let flushed = self.flush_record_cache();
        let ghost s1 = *self;
        proof {
            lemma_apart_kinds(s0, s1, ino);
        }
        match flushed {
            Ok(_) => {},
            Err(e) => return Err(e),
        }
        let ghost i0 = s1.inodes@[ino];
        let ghost rbg = s1.rb();
        let rb = self.record_blocks;
        let mut i = match self.inodes.remove(&ino) {
            Some(i) => i,
            None => return Err(eio("missing inode")),
        };
        assert(s1@.nodes.contains_key(ino));
        let ghost d0 = s1@.nodes[ino].data;
        assert(d0 == content(s1.vol, s1.record_cache, rbg, i0));
        assert(i0.ino == ino);
        if new_size == i.size {
            self.inodes.insert(ino, i);
            proof {
                assert(self.inodes@ =~= s1.inodes@);
                lemma_apart_put(s1, *self, ino);
                lemma_apart(s0, s1, *self, ino);
                lemma_same_view(s1, *self);
            }
            return Ok(());
        }
        proof {
            lemma_frame_refl(s1.vol, ino);
        }
        let mut res: Result<()> = Ok(());
        if i.data_kind == DataKind::Inline {
            if new_size <= INLINE_MAX as u64 {
                i.inline_data.resize(new_size as usize, 0);
                i.size = new_size;
            } else {
                res = promote_inline(&mut self.vol, &mut i, Ghost(rbg));
                match res {
                    Ok(_) => {
                        i.size = new_size;
                        i.blocks = count_sectors(&i.extents, Ghost(rbg));
                        i.data_kind = kind_for(i.extents.len());
                        proof {
                            lemma_raw_readable(self.vol, i.extents@);
                        }
                    },
                    Err(_) => {},
                }
            }
        } else if new_size > i.size {
            i.size = new_size;
        } else {
            res = shrink(&mut self.vol, &mut i, new_size, rb);
        }
        match res {
            Err(e) => {
                self.inodes.insert(ino, i);
                proof {
                    let sa = Inner { vol: self.vol, ..s1 };
                    lemma_vol_still(s1.vol, self.vol);
                    crate::data::lemma_vol_unchanged(s1, sa);
                    assert(self.inodes@ =~= sa.inodes@);
                    lemma_apart_put(s1, *self, ino);
                    lemma_apart(s0, s1, *self, ino);
                    lemma_same_view(sa, *self);
                    if !exts_readable(s1.vol, i0.extents@) {
                        assert(!s1.sound());
                    }
                }
                return Err(e);
            },
            Ok(_) => {},
        }
        let ghost ib = i;
        i.mtime = self.clock;
        i.ctime = self.clock;
        let ghost i1 = i;
        self.put_inode(ino, i);
        proof {
            assert(self.inodes@ =~= s1.inodes@.insert(ino, i1));
            assert forall|p: int| p >= 0 implies #[trigger] fbyte(self.vol, None, rbg, i1, p) == (
            if p < new_size {
                fbyte(s1.vol, None, rbg, i0, p)
            } else {
                0
            }) by {
                assert(fbyte(self.vol, None, rbg, ib, p) == fbyte(self.vol, None, rbg, i1, p));
                if p >= i0.size {
                    assert(fbyte(s1.vol, s1.record_cache, rbg, i0, p) == 0);
                }
                if i0.data_kind is Inline && new_size > INLINE_MAX {
                    assert(fbyte(self.vol, None, rbg, ib, p) == ubyte(
                        self.vol,
                        ib.extents@,
                        p,
                    ));
                }
            }
            assert forall|p: int| p >= i1.size implies #[trigger] fbyte(
                self.vol,
                self.record_cache,
                rbg,
                i1,
                p,
            ) == 0 by {
                assert(fbyte(self.vol, None, rbg, i1, p) == 0);
            }
            lemma_rc_other(s1, *self, ino, i1);
            assert(stepped(s1, *self, ino, i1));
            lemma_data_step(s1, *self, ino, i1);
            lemma_apart(s0, s1, *self, ino);
            let d1 = content(self.vol, self.record_cache, rbg, i1);
            assert(d1 =~= resized(d0, new_size as nat)) by {
                assert forall|p: int| 0 <= p < d1.len() implies d1[p] == resized(
                    d0,
                    new_size as nat,
                )[p] by {
                    assert(d1[p] == fbyte(self.vol, None, rbg, i1, p));
                    if p < i0.size {
                        assert(d0[p] == fbyte(s1.vol, None, rbg, i0, p));
                    } else {
                        assert(fbyte(s1.vol, s1.record_cache, rbg, i0, p) == 0);
                    }
                }
            }
        }
        Ok(())
    }
}

/// Nothing changes where nothing is done.
proof fn lemma_vol_still(v0: Volume, v1: Volume)
    ensures
        v1 == v0 ==> unchanged(v0, v1),
{
}

/// Records start at multiples of the record size.
proof fn lemma_starts(rb: int, start: int)
    requires
        record_size_ok(rb),
    ensures
        start % rb == 0 && 0 <= start <= MAX_FILE_BLOCKS ==> is_record_start(start, rb) || start
            == MAX_FILE_BLOCKS,
        rb % rb == 0,
{
    vstd::arithmetic::div_mod::lemma_mod_self_0(rb);
}

/// Of two records, the one that begins before the end of the other begins no later.
proof fn lemma_between_starts(r: int, start: int, rb: int)
    requires
        record_size_ok(rb),
        r % rb == 0,
        start % rb == 0,
        r < start + rb,
    ensures
        r <= start,
{
    vstd::arithmetic::div_mod::lemma_fundamental_div_mod(r, rb);
    vstd::arithmetic::div_mod::lemma_fundamental_div_mod(start, rb);
    let a = r / rb;
    let b = start / rb;
    assert(a <= b) by (nonlinear_arith)
        requires
            rb * a < rb * b + rb,
            rb > 0,
    ;
    assert(rb * a <= rb * b) by (nonlinear_arith)
        requires
            a <= b,
            rb > 0,
    ;
}

proof fn lemma_next_start(start: int, rb: int)
    requires
        record_size_ok(rb),
        is_record_start(start, rb),
    ensures
        (start + rb) % rb == 0,
        start + rb <= MAX_FILE_BLOCKS,
{
    vstd::arithmetic::div_mod::lemma_mod_add_multiples_vanish(start, rb);
}

/// A file without compressed records can always be read.
pub proof fn lemma_raw_readable(v: Volume, s: Seq<Extent>)
    requires
        all_raw(s),
    ensures
        exts_readable(v, s),
{
}

} // verus!
