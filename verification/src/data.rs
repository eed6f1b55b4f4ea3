//! File data: reading, writing and truncating files of the mounted volume.


use vstd::prelude::*;

use crate::blocks::{all_raw, lemma_unchanged_file, read_raw};
use crate::bytes::copy_into;
use crate::compress::{compression_of, Compression};
use crate::error::{eio, Error, Result, EIO, ENOSPC, EROFS};
use crate::extents::{count_sectors, exts_readable, lookup, no_new_packed, record_size_ok, ubyte};
use crate::format::{Extent, FLAG_COMPRESSED, MAX_DIRECT_EXTENTS};
use crate::inner::{
    content, covers, fbyte, inode_ok, keeps, lemma_owns_only, lemma_stepped, node_of, rc_ok,
    tail_zero, Inner, RecordCache,
};
use crate::inode::{DataKind, Inode};
use crate::model::{meta_of, FsView};
use crate::ops::{same_outcome, Outcome};
use crate::records::{
    is_record_start, lemma_record_start, load_record, packed_well, patched_byte, store_record,
};
use crate::types::MAX_FILE_SIZE;
use crate::volume::{base_kept, frame, same_blocks, table_kept, Volume};

verus! {

broadcast use vstd::std_specs::hash::group_hash_axioms;

/// Setting the flag of compressed records.
pub proof fn lemma_compressed_flag(flags: u32)
    ensures
        (flags | FLAG_COMPRESSED) & FLAG_COMPRESSED != 0,
{
    assert((flags | 8u32) & 8u32 != 0) by (bit_vector);
}

/// The failures that the storage below can cause in an operation that takes up to `room` blocks and
/// creates up to `new` inodes: the volume has less than that left, or a compressed record is
/// corrupt.
pub open spec fn storage_failed(s0: Inner, e: Error, room: int, new: int) -> bool {
    (e.is(ENOSPC) && (s0.full(room) || (new > 0 && s0.inodes_left() < new))) || (e.is(EIO) && !s0.sound())
}

/// An operation that takes up to `room` blocks and creates up to `new` inodes did what `want` says
/// and returned what `want` says, or the storage below failed.
pub open spec fn done<T>(
    s0: Inner,
    s1: Inner,
    want: (FsView, Outcome<T>),
    got: std::result::Result<T, Error>,
    room: int,
    new: int,
) -> bool {
    &&& s1.load() <= s0.load() + room
    &&& ({
        ||| s1@ == want.0 && same_outcome(want.1, got)
        ||| (got matches Err(e) && storage_failed(s0, e, room, new))
    })
}

/// Puts `ino` on a list, where it is not on it yet.
pub fn list_once(list: &mut Vec<u64>, ino: u64)
    ensures
        forall|x: u64| #[trigger] final(list)@.contains(x) <==> x == ino || old(list)@.contains(x),
{
    let mut i: usize = 0;
    while i < list.len()
        invariant
            i <= list@.len(),
            list@ == old(list)@,
        decreases list@.len() - i,
    {
        if list[i] == ino {
            assert(list@.contains(ino));
            return;
        }
        i = i + 1;
    }
    list.push(ino);
    assert forall|x: u64| #[trigger] list@.contains(x) <==> x == ino || old(list)@.contains(x) by {
        if old(list)@.contains(x) {
            let k = old(list)@.index_of(x);
            assert(list@[k] == x);
        }
        if x == ino {
            assert(list@[list@.len() - 1] == x);
        }
        if list@.contains(x) {
            let k = list@.index_of(x);
            if k < old(list)@.len() {
                assert(old(list)@[k] == x);
            }
        }
    }
}

/// The kind of an inode with `n` extents.
pub fn kind_for(n: usize) -> (k: DataKind)
    ensures
        k == if n > MAX_DIRECT_EXTENTS {
            DataKind::ExtentTree
        } else {
            DataKind::Extents
        },
{
    if n > MAX_DIRECT_EXTENTS {
        DataKind::ExtentTree
    } else {
        DataKind::Extents
    }
}

/// The same inodes, as far as the way their data is kept goes.
pub open spec fn kinds_kept(s0: Inner, s1: Inner) -> bool {
    &&& s1.inodes@.dom() == s0.inodes@.dom()
    &&& s1.record_blocks == s0.record_blocks
    &&& forall|x: u64| #[trigger]
        s0.inodes@.contains_key(x) ==> {
            let i0 = s0.inodes@[x];
            let i1 = s1.inodes@[x];
            &&& i1.data_kind is Inline <==> i0.data_kind is Inline
            &&& i1.size == i0.size
            &&& i1.compression == i0.compression
            &&& i0.compresses() ==> i1.compresses()
        }
}

/// Files that are kept in their inodes stay there, but for inode `ino`.
#[verifier::opaque]
pub open spec fn apart(s0: Inner, s1: Inner, ino: u64) -> bool {
    forall|x: u64| #[trigger]
        s0.inodes@.contains_key(x) && x != ino && s0.inodes@[x].data_kind is Inline
            ==> s1.inodes@.contains_key(x) && s1.inodes@[x].data_kind is Inline
}

/// A change of one inode.
pub proof fn lemma_apart_put(s0: Inner, s1: Inner, ino: u64)
    requires
        s1.inodes@ == s0.inodes@ || s1.inodes@ == s0.inodes@.insert(ino, s1.inodes@[ino]),
    ensures
        apart(s0, s1, ino),
{
    reveal(apart);
}

pub proof fn lemma_apart_kinds(s0: Inner, s1: Inner, ino: u64)
    requires
        kinds_kept(s0, s1),
    ensures
        apart(s0, s1, ino),
{
    reveal(apart);
    assert forall|x: u64| #[trigger]
        s0.inodes@.contains_key(x) && x != ino && s0.inodes@[x].data_kind is Inline implies
        s1.inodes@.contains_key(x) && s1.inodes@[x].data_kind is Inline by {
        assert(s1.inodes@.dom().contains(x));
    }
}

pub proof fn lemma_apart(s0: Inner, s1: Inner, s2: Inner, ino: u64)
    requires
        apart(s0, s1, ino),
        apart(s1, s2, ino),
    ensures
        apart(s0, s2, ino),
{
    reveal(apart);
    assert forall|x: u64| #[trigger]
        s0.inodes@.contains_key(x) && x != ino && s0.inodes@[x].data_kind is Inline implies
        s2.inodes@.contains_key(x) && s2.inodes@[x].data_kind is Inline by {
        assert(s1.inodes@.contains_key(x));
    }
}

/// Another record in memory, with every byte as it was, changes nothing that shows.
pub proof fn lemma_rc_swapped(s0: Inner, s1: Inner)
    requires
        s0.wf(),
        s1 == (Inner { record_cache: s1.record_cache, ..s0 }),
        rc_ok(s1.vol, s1.record_cache, s1.rb(), s1.inodes@),
        forall|x: u64, p: int|
            s0.inodes@.contains_key(x) && p >= 0 ==> #[trigger] fbyte(
                s0.vol,
                s1.record_cache,
                s0.rb(),
                s0.inodes@[x],
                p,
            ) == fbyte(s0.vol, s0.record_cache, s0.rb(), s0.inodes@[x], p),
    ensures
        s1.wf(),
        s1@ == s0@,
        s0.sound() ==> s1.sound(),
        kinds_kept(s0, s1),
{
    assert forall|x: u64| #[trigger] s0.inodes@.contains_key(x) implies inode_ok(
        s1.vol,
        s1.record_cache,
        s1.rb(),
        s0.inodes@[x],
    ) && node_of(s1.vol, s1.record_cache, s1.rb(), s0.inodes@[x]) == node_of(
        s0.vol,
        s0.record_cache,
        s0.rb(),
        s0.inodes@[x],
    ) by {
        lemma_same_bytes(s0, s1, s0.inodes@[x], s0.inodes@[x]);
    }
    assert(s1@.nodes =~= s0@.nodes);
}

/// A volume on which nothing changed.
pub proof fn lemma_vol_unchanged(s0: Inner, s1: Inner)
    requires
        s0.wf(),
        s1 == (Inner { vol: s1.vol, ..s0 }),
        s1.vol.wf(),
        same_blocks(s0.vol, s1.vol),
    ensures
        s1.wf(),
        s1@ == s0@,
        s0.sound() <==> s1.sound(),
        kinds_kept(s0, s1),
{
    let v0 = s0.vol;
    let v1 = s1.vol;
    let rc = s0.record_cache;
    let rb = s0.rb();
    let t = s0.table();
    crate::inner::lemma_table_kept(v0.owner@, v1.owner@, t);
    assert forall|x: u64| #[trigger] s0.inodes@.contains_key(x) implies inode_ok(
        v1,
        rc,
        rb,
        s0.inodes@[x],
    ) && node_of(v1, rc, rb, s0.inodes@[x]) == node_of(v0, rc, rb, s0.inodes@[x]) && (
    exts_readable(v0, s0.inodes@[x].extents@) <==> exts_readable(v1, s0.inodes@[x].extents@)) && (
    forall|p: int| #[trigger]
        ubyte(v1, s0.inodes@[x].extents@, p) == ubyte(v0, s0.inodes@[x].extents@, p)) by {
        let other: u64 = if x == 0 {
            1
        } else {
            0
        };
        assert(frame(v0, v1, other));
        crate::inner::lemma_inode_kept(v0, v1, rc, rc, rb, s0.inodes@[x], other);
        lemma_unchanged_file(v0, v1, s0.inodes@[x].extents@, x, rb);
    }
    assert(s1@.nodes =~= s0@.nodes);
    assert(s1.area_ok());
    assert(crate::inner::synced(v1, t, s1.inodes@, s1.dirty_inodes@, s1.sb.next_inode)) by {
        assert forall|x: u64| #[trigger]
            s1.inodes@.contains_key(x) && !s1.dirty_inodes@.contains(
                x,
            ) implies crate::inner::persisted(v1, t, s1.inodes@[x]) by {
            crate::inner::lemma_persisted_kept(v0, v1, t, s0.inodes@[x]);
        }
        assert forall|x: u64|
            0 < x < s1.sb.next_inode && !#[trigger] s1.inodes@.contains_key(
                x,
            ) implies crate::inode::parsed_inode(crate::inner::slot(v1, t, x as int)) is None by {
            crate::inner::lemma_slot_kept(v0, v1, t, x as int);
        }
    }
    if let Some(c) = rc {
        assert forall|q: int| !c.dirty && 0 <= q < rb * 4096 implies #[trigger] c.data@[q] == ubyte(
            v1,
            s1.inodes@[c.ino].extents@,
            c.start * 4096 + q,
        ) by {
            assert(s0.inodes@.contains_key(c.ino));
        }
    }
}

/// Inserting what is there changes nothing.
pub proof fn lemma_with_same(v: FsView, ino: u64)
    requires
        v.nodes.contains_key(ino),
    ensures
        v.with(ino, v.nodes[ino]) == v,
{
    assert(v.nodes.insert(ino, v.nodes[ino]) =~= v.nodes);
}

impl Inner {
    /// Notes that the inode table does not hold inode `ino` as it is.
    pub(crate) fn mark_dirty(&mut self, ino: u64)
        ensures
            forall|x: u64| #[trigger]
                final(self).dirty_inodes@.contains(x) <==> x == ino || old(self).dirty_inodes@.contains(x),
            *final(self) == (Inner { dirty_inodes: final(self).dirty_inodes, ..*old(self) }),
    {
        list_once(&mut self.dirty_inodes, ino);
    }

    pub(crate) fn require_write(&self) -> (r: Result<()>)
        ensures
            match r {
                Ok(_) => self.writable,
                Err(e) => !self.writable && e.is(EROFS),
            },
    {
        if !self.writable {
            Err(Error::from_errno(EROFS))
        } else {
            Ok(())
        }
    }

    /// The inode with number `ino`; fails with `EIO` where there is none.
    pub fn get_inode(&self, ino: u64) -> (r: Result<&Inode>)
        ensures
            match r {
                Ok(i) => self.inodes@.contains_key(ino) && *i == self.inodes@[ino],
                Err(e) => !self.inodes@.contains_key(ino) && e.is(EIO),
            },
    {
        match self.inodes.get(&ino) {
            Some(i) => Ok(i),
            None => Err(eio("missing inode")),
        }
    }

    /// Stores the record in memory, where it is dirty, and forgets it.
    #[verifier::rlimit(40)]
    pub fn flush_record_cache(&mut self) -> (r: Result<()>)
        requires
            old(self).wf(),
        ensures
            final(self).wf(),
            final(self)@ == old(self)@,
            keeps(*old(self), *final(self)),
            final(self).load() <= old(self).load(),
            kinds_kept(*old(self), *final(self)),
            final(self).sync_mode == old(self).sync_mode,
            final(self).record_blocks == old(self).record_blocks,
            old(self).record_cache is None ==> r is Ok && *final(self) == *old(self),
            forall|x: u64| #[trigger]
                old(self).dirty_inodes@.contains(x) ==> final(self).dirty_inodes@.contains(x),
            final(self).sb@ == old(self).sb@,
            base_kept(old(self).vol, final(self).vol),
            table_kept(old(self).vol, final(self).vol),
            match r {
                Ok(_) => final(self).record_cache is None && (match old(self).record_cache {
                    Some(c) => c.dirty ==> packed_well(
                        lookup(final(self).inodes@[c.ino].extents@, c.start as int),
                        c.data@,
                        compression_of(old(self).inodes@[c.ino].compression) is Lz4,
                    ),
                    None => true,
                }),
                Err(e) => e.is(ENOSPC) && old(self).full(0),
            },
    {
        let ghost s0 = *self;
        let c = match self.record_cache.take() {
            None => return Ok(()),
            Some(c) => c,
        };
        let ghost i0 = s0.inodes@[c.ino];
        let ino = c.ino;
        if !c.dirty {
            proof {
                assert forall|x: u64, p: int|
                    s0.inodes@.contains_key(x) && p >= 0 implies #[trigger] fbyte(
                    s0.vol,
                    None,
                    s0.rb(),
                    s0.inodes@[x],
                    p,
                ) == fbyte(s0.vol, s0.record_cache, s0.rb(), s0.inodes@[x], p) by {
                    if covers(s0.record_cache, s0.rb(), s0.inodes@[x].ino, p) {
                        assert(c.data@[p - c.start * 4096] == ubyte(s0.vol, i0.extents@, p));
                    }
                }
                lemma_rc_swapped(s0, *self);
            }
            return Ok(());
        }
        let mut i = match self.inodes.remove(&ino) {
            Some(i) => i,
            None => return Err(eio("missing inode")),
        };
        let algo = Compression::from_u8(i.compression);
        let rb = self.record_blocks;
        match store_record(
            &mut self.vol,
            &mut i.extents,
            Ghost(ino),
            c.start,
            c.data.as_slice(),
            algo,
            rb,
        ) {
            Ok(packed) => {
                if packed {
                    i.flags = i.flags | FLAG_COMPRESSED;
                    proof {
                        lemma_compressed_flag(i0.flags);
                    }
                }
                i.blocks = count_sectors(&i.extents, Ghost(rb as int));
                i.data_kind = kind_for(i.extents.len());
                let ghost i1 = i;
                self.inodes.insert(ino, i);
                self.mark_dirty(ino);
                proof {
                    assert(self.inodes@ =~= s0.inodes@.insert(ino, i1));
                    assert forall|p: int| p >= 0 implies #[trigger] fbyte(
                        self.vol,
                        None,
                        self.rb(),
                        i1,
                        p,
                    ) == fbyte(s0.vol, s0.record_cache, s0.rb(), i0, p) by {
                        assert(ubyte(self.vol, i1.extents@, p) == patched_byte(
                            s0.vol,
                            i0.extents@,
                            p,
                            c.start as int,
                            rb as int,
                            c.data@,
                        ));
                    }
                    if !packed {
                        lemma_still_raw(i0.extents@, i1.extents@);
                    }
                    lemma_meta_claims(s0.vol, self.vol, i0, i1, ino);
                    lemma_same_bytes(s0, *self, i0, i1);
                    lemma_owns_only(s0, ino);
                    lemma_stepped(s0, *self, ino, i1);
                    lemma_with_same(s0@, ino);
                }
                Ok(())
            },
            Err(e) => {
                self.inodes.insert(ino, i);
                self.record_cache = Some(c);
                proof {
                    assert(self.inodes@ =~= s0.inodes@);
                    lemma_same_view(s0, *self);
                }
                Err(e)
            },
        }
    }
}

impl Inner {
    /// Brings the record of inode `ino` that starts at block `start` into memory.
    pub(crate) fn cached_record(&mut self, ino: u64, start: u64) -> (r: Result<()>)
        requires
            old(self).wf(),
            old(self).inodes@.contains_key(ino),
            !(old(self).inodes@[ino].data_kind is Inline),
            old(self).inodes@[ino].compresses(),
            is_record_start(start as int, old(self).rb()),
        ensures
            final(self).wf(),
            final(self)@ == old(self)@,
            keeps(*old(self), *final(self)),
            final(self).load() <= old(self).load(),
            kinds_kept(*old(self), *final(self)),
            match r {
                Ok(_) => final(self).record_cache matches Some(c) && c.ino == ino && c.start
                    == start,
                Err(e) => storage_failed(*old(self), e, 0, 0),
            },
    {
        let hit = match &self.record_cache {
            Some(c) => c.ino == ino && c.start == start,
            None => false,
        };
        if hit {
            return Ok(());
        }
        match self.flush_record_cache() {
            Ok(_) => {},
            Err(e) => return Err(e),
        }
        let ghost s1 = *self;
        let rb = self.record_blocks;
        let data = match self.inodes.get(&ino) {
            Some(i) => load_record(&mut self.vol, &i.extents, Ghost(ino), start, rb),
            None => Err(eio("missing inode")),
        };
        proof {
            lemma_vol_unchanged(s1, *self);
        }
        let ghost s2 = *self;
        let data = match data {
            Ok(d) => d,
            Err(e) => {
                assert(!s1.sound());
                return Err(e);
            },
        };
        self.record_cache = Some(RecordCache { ino, start, data, dirty: false });
        proof {
            let i = s1.inodes@[ino];
            assert(s1.inodes@.contains_key(ino));
            lemma_unchanged_file(s1.vol, s2.vol, i.extents@, ino, rb as int);
            let c = self.record_cache->0;
            assert forall|q: int| 0 <= q < rb * 4096 implies #[trigger] c.data@[q] == ubyte(
                s2.vol,
                i.extents@,
                c.start * 4096 + q,
            ) by {
                assert(ubyte(s2.vol, i.extents@, c.start * 4096 + q) == ubyte(
                    s1.vol,
                    i.extents@,
                    c.start * 4096 + q,
                ));
            }
            assert forall|x: u64, p: int|
                s2.inodes@.contains_key(x) && p >= 0 implies #[trigger] fbyte(
                s2.vol,
                self.record_cache,
                s2.rb(),
                s2.inodes@[x],
                p,
            ) == fbyte(s2.vol, s2.record_cache, s2.rb(), s2.inodes@[x], p) by {
                if covers(self.record_cache, s2.rb(), s2.inodes@[x].ino, p) {
                    assert(c.data@[p - c.start * 4096] == ubyte(s2.vol, i.extents@, p));
                }
            }
            lemma_rc_swapped(s2, *self);
        }
        Ok(())
    }

    /// Reads from file `ino`, from byte `offset` on, as much as there is and fits into `buf`.
    #[verifier::rlimit(40)]
    pub fn read_data(&mut self, ino: u64, offset: u64, buf: &mut [u8]) -> (r: Result<usize>)
        requires
            old(self).wf(),
        ensures
            final(self).wf(),
            final(self)@ == old(self)@,
            keeps(*old(self), *final(self)),
            final(self).load() <= old(self).load(),
            kinds_kept(*old(self), *final(self)),
            final(buf)@.len() == old(buf)@.len(),
            read_agrees(*old(self), *final(self), ino, offset, old(buf)@, final(buf)@, r),
    {
        let ghost s0 = *self;
        let ghost b0 = buf@;
        let (size, inline, packed) = match self.inodes.get(&ino) {
            Some(i) => (i.size, i.data_kind == DataKind::Inline, i.uses_compression()),
            None => return Err(eio("missing inode")),
        };
        let ghost i0 = s0.inodes@[ino];
        let ghost data = s0@.nodes[ino].data;
        assert(s0.inodes@.contains_key(ino));
        if offset >= size {
            assert(buf@ =~= read_buf(data, offset as int, b0));
            return Ok(0);
        }
        let n: usize = if size - offset < buf.len() as u64 {
            (size - offset) as usize
        } else {
            buf.len()
        };
        if n == 0 {
            assert(buf@ =~= read_buf(data, offset as int, b0));
            return Ok(0);
        }
        if inline {
            match self.inodes.get(&ino) {
                Some(i) => {
                    let start: usize = offset as usize;
                    copy_into(
                        buf,
                        0,
                        vstd::slice::slice_subrange(i.inline_data.as_slice(), start, start + n),
                    );
                },
                None => {},
            }
            assert(buf@ =~= read_buf(data, offset as int, b0));
            return Ok(n);
        }
        if packed {
            let rb = self.record_blocks;
            let rec_bytes: u64 = rb as u64 * 4096;
            let mut done: usize = 0;
            while done < n
                invariant
                    self.wf(),
                    self.load() <= s0.load(),
                    self@ == s0@,
                    s0.wf(),
                    s0 == *old(self),
                    keeps(s0, *self),
                    kinds_kept(s0, *self),
                    rb == self.record_blocks,
                    record_size_ok(rb as int),
                    rec_bytes == rb * 4096,
                    s0.inodes@.contains_key(ino),
                    i0 == s0.inodes@[ino],
                    !(i0.data_kind is Inline),
                    i0.compresses(),
                    data == s0@.nodes[ino].data,
                    data.len() == size,
                    size == i0.size,
                    size <= MAX_FILE_SIZE,
                    done <= n,
                    offset + n <= size,
                    n <= b0.len(),
                    buf@.len() == b0.len(),
                    b0 == old(buf)@,
                    forall|k: int|
                        0 <= k < buf@.len() ==> #[trigger] buf@[k] == if k < done {
                            data[offset + k]
                        } else {
                            b0[k]
                        },
                decreases n - done,
            {
                let pos: u64 = offset + done as u64;
                let l: u64 = pos / 4096;
                proof {
                    lemma_record_start(l as int, rb as int);
                }
                let start: u64 = l - l % rb as u64;
                let within: usize = (pos - start * 4096) as usize;
                let chunk: usize = if rec_bytes as usize - within < n - done {
                    rec_bytes as usize - within
                } else {
                    n - done
                };
                let ghost s1 = *self;
                match self.cached_record(ino, start) {
                    Ok(_) => {},
                    Err(e) => return Err(e),
                }
                let ghost before = buf@;
                match &self.record_cache {
                    Some(c) => {
                        copy_into(
                            buf,
                            done,
                            vstd::slice::slice_subrange(c.data.as_slice(), within, within + chunk),
                        );
                    },
                    None => {},
                }
                proof {
                    let i = self.inodes@[ino];
                    let c = self.record_cache->0;
                    assert(self.inodes@.contains_key(ino));
                    assert(self@.nodes[ino].data == content(
                        self.vol,
                        self.record_cache,
                        self.rb(),
                        i,
                    ));
                    assert forall|k: int| 0 <= k < buf@.len() implies #[trigger] buf@[k] == (if k
                        < done + chunk {
                        data[offset + k]
                    } else {
                        b0[k]
                    }) by {
                        if done <= k < done + chunk {
                            let p = offset + k;
                            assert(covers(self.record_cache, self.rb(), ino, p));
                            assert(buf@[k] == c.data@[within + (k - done)]);
                            assert(data[p] == fbyte(
                                self.vol,
                                self.record_cache,
                                self.rb(),
                                i,
                                p,
                            ));
                        } else {
                            assert(buf@[k] == before[k]);
                        }
                    }
                }
                done = done + chunk;
            }
            assert(buf@ =~= read_buf(data, offset as int, b0));
            return Ok(n);
        }
        let ghost rb = s0.rb();
        let out = match self.inodes.get(&ino) {
            Some(i) => read_raw(&mut self.vol, &i.extents, Ghost(ino), offset, n, Ghost(rb)),
            None => Vec::new(),
        };
        copy_into(buf, 0, out.as_slice());
        proof {
            lemma_vol_unchanged(s0, *self);
            assert forall|k: int| 0 <= k < n implies #[trigger] out@[k] == data[offset + k] by {
                let p = offset + k;
                assert(!covers(s0.record_cache, rb, ino, p));
                assert(data[p] == fbyte(s0.vol, s0.record_cache, rb, i0, p));
            }
            assert(buf@ =~= read_buf(data, offset as int, b0));
        }
        Ok(n)
    }
}

/// Number of bytes that a read of `len` bytes at `off` gets.
pub open spec fn read_len(size: int, off: int, len: int) -> int {
    if off >= size {
        0
    } else if size - off < len {
        size - off
    } else {
        len
    }
}

/// The buffer after a read.
pub open spec fn read_buf(data: Seq<u8>, off: int, buf: Seq<u8>) -> Seq<u8> {
    let n = read_len(data.len() as int, off, buf.len() as int);
    Seq::new(
        buf.len(),
        |k: int|
            if k < n {
                data[off + k]
            } else {
                buf[k]
            },
    )
}

/// What `read_data` returns.
pub open spec fn read_agrees(
    s0: Inner,
    s1: Inner,
    ino: u64,
    off: u64,
    b0: Seq<u8>,
    b1: Seq<u8>,
    r: Result<usize>,
) -> bool {
    match r {
        Ok(n) => {
            &&& s0@.nodes.contains_key(ino)
            &&& n == read_len(s0@.nodes[ino].data.len() as int, off as int, b0.len() as int)
            &&& b1 == read_buf(s0@.nodes[ino].data, off as int, b0)
        },
        Err(e) => (!s0@.nodes.contains_key(ino) && e.is(EIO)) || (s0@.nodes.contains_key(ino)
            && storage_failed(s0, e, 0, 0)),
    }
}

/// No compressed extent came in.
pub proof fn lemma_still_raw(s: Seq<Extent>, t: Seq<Extent>)
    requires
        no_new_packed(s, t),
    ensures
        all_raw(s) ==> all_raw(t),
{
    assert forall|k: int| all_raw(s) && 0 <= k < t.len() implies (#[trigger] t[k]).compress == 0 by {
        let x = t[k];
        if x.compress != 0 {
            assert(t.contains(x));
            assert(s.contains(x));
            let m = s.index_of(x);
            assert(s[m].compress == 0);
        }
    }
}

/// The blocks of an inode that hold no file data stay its own in a step on its data.
pub proof fn lemma_meta_claims(v0: Volume, v1: Volume, i0: Inode, i1: Inode, ino: u64)
    requires
        crate::inner::meta_claimed(v0.owner@, i0),
        frame(v0, v1, ino),
        i1.ino == i0.ino,
        i1.xattr_block == i0.xattr_block,
        i1.extent_tree == i0.extent_tree,
        i1.extent_tree_blocks == i0.extent_tree_blocks,
    ensures
        crate::inner::meta_claimed(v1.owner@, i1),
{
    if i0.xattr_block != 0 {
        assert(v0.owner@.contains_key(i0.xattr_block as int));
    }
    assert forall|b: int|
        i1.extent_tree != 0 && i1.extent_tree <= b < i1.extent_tree
            + i1.extent_tree_blocks implies #[trigger] v1.owner@.contains_key(b) && v1.owner@[b]
        == crate::volume::Owner::Tree(i1.ino) by {
        assert(v0.owner@.contains_key(b));
    }
}

/// A file whose bytes are the same is the same file.
pub proof fn lemma_same_bytes(s0: Inner, s1: Inner, i0: Inode, i1: Inode)
    requires
        inode_ok(s0.vol, s0.record_cache, s0.rb(), i0),
        i1.size == i0.size,
        meta_of(i1) == meta_of(i0),
        i1.xattr == i0.xattr,
        forall|p: int|
            p >= 0 ==> #[trigger] fbyte(s1.vol, s1.record_cache, s1.rb(), i1, p) == fbyte(
                s0.vol,
                s0.record_cache,
                s0.rb(),
                i0,
                p,
            ),
    ensures
        node_of(s1.vol, s1.record_cache, s1.rb(), i1) == node_of(
            s0.vol,
            s0.record_cache,
            s0.rb(),
            i0,
        ),
        tail_zero(s1.vol, s1.record_cache, s1.rb(), i1),
{
    assert forall|p: int| p >= i1.size implies #[trigger] fbyte(
        s1.vol,
        s1.record_cache,
        s1.rb(),
        i1,
        p,
    ) == 0 by {
        assert(fbyte(s0.vol, s0.record_cache, s0.rb(), i0, p) == 0);
    }
    assert(content(s1.vol, s1.record_cache, s1.rb(), i1) =~= content(
        s0.vol,
        s0.record_cache,
        s0.rb(),
        i0,
    ));
}

/// Whether only the parts of a volume that do not show differ.
pub proof fn lemma_same_view(s0: Inner, s1: Inner)
    requires
        s0.wf(),
        s1.inodes@ == s0.inodes@,
        s1 == (Inner { inodes: s1.inodes, ..s0 }),
    ensures
        s1.wf(),
        s1@ == s0@,
        s0.sound() ==> s1.sound(),
{
    assert(s1@.nodes =~= s0@.nodes);
}

} // verus!
