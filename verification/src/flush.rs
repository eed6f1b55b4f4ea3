//! Writing a mounted volume back to its image.

use vstd::prelude::*;

use crate::allocator::Allocator;
use crate::allocmap::{
    area_blocks, area_len, area_stands, is_area_head, lemma_area_head, old_area, one_taken,
    write_alloc_blocks, MAX_MAP_RUNS,
};
use crate::bytes::{padded, splice};
use crate::error::{eio, Error, Result, EFBIG, EIO, ENOSPC, ERANGE};
use crate::extents::{exts_readable, find_ext, lemma_find_some, ubyte};
use crate::format::{SuperView, SHRINK_SLACK_BLOCKS};
use crate::inner::{
    bare, drained, holds, in_place, inode_ok, keeps, lemma_inode_own, lemma_persisted_own,
    lemma_slot_kept, lemma_table_kept, node_of, own_kept, persisted, places_ok, slot, synced,
    table_ext_claimed, Inner,
};
use crate::inode::{parsed_inode, Inode};
use crate::journal::{
    begin_bytes, committed_bytes, op_bytes, ops_bytes, record_written, JournalOp, OP_INODE,
};
use crate::model::{meta_of, FsView};
use crate::options::SyncMode;
use crate::persist::{
    attrs_too_large, extents_too_many, inode_room, lemma_parts_kept, parts_stand, plain,
};
use crate::store::{block_limit, extends, image_block, max_blocks, Image};
use crate::types::Timespec;
use crate::volume::{
    accounted, base_kept, same_blocks, table_kept, unchanged, Owner, Owners, Volume,
};
use crate::open::{recovers, reopens, rested_image_reopens};
use crate::recovery::{lemma_recovers, lemma_recovers_same};
use crate::disk::clear;

verus! {

broadcast use {crate::store::group_extends, vstd::std_specs::hash::group_hash_axioms};

impl Volume {
    /// Nothing waits in the cache to be written.
    pub open spec fn clean(&self) -> bool {
        forall|b: int| b >= 0 ==> #[trigger] self.d(b) == image_block(self.image@, b)
    }

    /// Writes all changed blocks to the image.
    pub fn write_back(&mut self)
        requires
            old(self).wf(),
        ensures
            old(self).whole() ==> final(self).whole() && final(self).image@.len()
                == old(self).image@.len(),
            extends(old(self).image, final(self).image),
            final(self).wf(),
            final(self).clean(),
            unchanged(*old(self), *final(self)),
    {
        let ghost v0 = *self;
        self.cache.flush(&mut self.image);
        proof {
            assert forall|b: int| b >= 0 implies #[trigger] self.d(b) == v0.d(b) by {
                assert(crate::cache::disk_block(self.cache, self.image@, b)
                    == crate::cache::disk_block(v0.cache, v0.image@, b));
            }
            assert forall|b: int| b >= 0 implies #[trigger] self.d(b) == image_block(
                self.image@,
                b,
            ) by {
                assert(image_block(self.image@, b) == crate::cache::disk_block(
                    v0.cache,
                    v0.image@,
                    b,
                ));
            }
            assert forall|b: int| 0 <= b < v0.lo() implies #[trigger] image_block(self.image@, b)
                == image_block(v0.image@, b) by {}
        }
    }
}

/// The owners after the free-space map moved to the `n` blocks from `start` on.
pub open spec fn map_moved(m: Owners, start: int, n: int) -> Owners {
    Map::new(
        |b: int| start <= b < start + n || (m.contains_key(b) && m[b] != Owner::Area),
        |b: int|
            if start <= b < start + n {
                Owner::Area
            } else {
                m[b]
            },
    )
}

/// The free-space map on disk: `n` blocks from `start` on hold map `a`.
pub open spec fn map_at(image: Seq<u8>, start: int, n: int, a: Allocator) -> bool {
    &&& start > 0
    &&& 0 < n <= 0x10_0000
    &&& n == area_len(image_block(image, start))
    &&& (start + n) * 4096 <= image.len()
    &&& area_stands(image, start, n, a.bytes())
    &&& 24 + 16 * a.free@.len() <= n * 4080
    &&& a.free@.len() <= u32::MAX
}

/// All blocks with an owner, but for those of the free-space map, are left alone.
pub open spec fn files_kept(v0: Volume, v1: Volume) -> bool {
    &&& v1.lo() == v0.lo()
    &&& v1.lost == v0.lost
    &&& forall|b: int| #[trigger]
        v0.owner@.contains_key(b) && !(v0.owner@[b] is Fresh) && v0.owner@[b] != Owner::Area
            ==> v1.owner@.contains_key(b) && v1.owner@[b] == v0.owner@[b] && v1.d(b) == v0.d(b)
    &&& forall|b: int| #[trigger]
        v1.owner@.contains_key(b) && v1.owner@[b] != Owner::Area ==> v0.owner@.contains_key(b)
            && v0.owner@[b] == v1.owner@[b]
}

/// The blocks of the free-space map are those of the area at block `area`, and no others.
pub open spec fn area_only(v: Volume, area: u64) -> bool {
    forall|b: int| #[trigger]
        v.owner@.contains_key(b) && v.owner@[b] == Owner::Area ==> area != 0 && area <= b < area
            + area_len(v.d(area as int))
}

/// The blocks before the data area are the same.
pub open spec fn front_kept(v0: Volume, v1: Volume) -> bool {
    forall|b: int|
        0 <= b < v0.lo() ==> #[trigger] image_block(v1.image@, b) == image_block(v0.image@, b)
}

impl Volume {
    /// Writes the free-space map into blocks of its own, in place of the one at `existing`.
    #[verifier::rlimit(60)]
    fn write_map(&mut self, existing: u64) -> (r: Result<u64>)
        requires
            old(self).wf(),
            old(self).clean(),
            existing != 0 ==> {
                let n = area_len(old(self).d(existing as int));
                &&& is_area_head(old(self).d(existing as int))
                &&& n > 0
                &&& (existing + 1) * 4096 <= old(self).image@.len()
                &&& forall|b: int|
                    existing <= b < existing + n ==> #[trigger] old(self).owner@.contains_key(b)
                        && old(self).owner@[b] == Owner::Area
            },
            area_only(*old(self), existing),
        ensures
            extends(old(self).image, final(self).image),
            final(self).wf(),
            existing == 0 && old(self).alloc.free@.len() == 1 && old(self).alloc.free@[0].1 > 1
                ==> r is Ok && one_taken(old(self).alloc, final(self).alloc) && (old(self).whole()
                ==> final(self).whole() && final(self).image@.len() == old(self).image@.len()),
            final(self).end() <= old(self).end() + 2 * area_blocks(
                24 + 16 * (old(self).alloc.free@.len() as int + 1),
            ),
            match r {
                Ok(start) => {
                    let n = area_len(final(self).d(start as int));
                    &&& old(self).alloc.free@.len() <= MAX_MAP_RUNS
                    &&& final(self).clean()
                    &&& files_kept(*old(self), *final(self))
                    &&& final(self).cache.capacity == old(self).cache.capacity
                    &&& front_kept(*old(self), *final(self))
                    &&& final(self).image@.len() >= old(self).image@.len()
                    &&& final(self).owner@ == map_moved(old(self).owner@, start as int, n)
                    &&& is_area_head(final(self).d(start as int))
                    &&& map_at(final(self).image@, start as int, n, final(self).alloc)
                },
                Err(e) => {
                    &&& *final(self) == *old(self)
                    &&& ({
                        ||| e.is(EFBIG) && old(self).alloc.free@.len() > MAX_MAP_RUNS
                        ||| e.is(ENOSPC) && old(self).alloc.free@.len() <= MAX_MAP_RUNS && old(self).full(
                            2 * area_blocks(24 + 16 * (old(self).alloc.free@.len() as int + 1)),
                        )
                    })
                },
            },
    {
        let ghost v0 = *self;
        let ghost m0 = v0.owner@;
        proof {
            if existing != 0 {
                let n = area_len(v0.d(existing as int));
                assert(v0.d(existing as int) == image_block(v0.image@, existing as int));
                assert(m0.contains_key(existing as int));
                assert(m0.contains_key(existing + n - 1));
                assert forall|b: int| existing <= b < existing + n implies !#[trigger] v0.alloc.is_free(
                    b,
                ) by {
                    assert(m0.contains_key(b));
                }
            }
        }
        let start = match write_alloc_blocks(&mut self.image, &mut self.alloc, existing) {
            Ok(s) => s,
            Err(e) => return Err(e),
        };
        let ghost n: int = area_len(image_block(self.image@, start as int));
        let count: u64 = crate::allocmap::old_area_len(&self.image, start);
        proof {
            lemma_area_head(self.alloc.bytes(), n);
            assert(image_block(self.image@, start + 0) == crate::allocmap::area_block(
                self.alloc.bytes(),
                n,
                0,
            ));
            assert(count == n);
        }
        let ghost c0 = self.cache;
        let mut i: u64 = 0;
        let limit = block_limit();
        while i < count
            invariant
                i <= count,
                count == n,
                start + n <= limit,
                limit == max_blocks(),
                c0.wf(v0.image@),
                self.cache.wf(v0.image@),
                *self == (Volume { cache: self.cache, ..*self }),
                forall|b: u64| #[trigger]
                    self.cache.map@.contains_key(b) <==> c0.map@.contains_key(b) && !(start <= b
                        < start + i),
                forall|b: u64| #[trigger]
                    self.cache.map@.contains_key(b) ==> self.cache.map@[b] == c0.map@[b],
                extends(v0.image, self.image),
                self.image@.len() >= v0.image@.len(),
                self.image.wf(),
                self.alloc.wf(),
                self.alloc.first_data == v0.alloc.first_data,
                self.alloc.total_blocks >= v0.alloc.total_blocks,
                v0.alloc.free@.len() <= MAX_MAP_RUNS,
                existing == 0 && v0.alloc.free@.len() == 1 && v0.alloc.free@[0].1 > 1 ==> one_taken(
                    v0.alloc,
                    self.alloc,
                ) && (v0.alloc.total_blocks * 4096 <= v0.image@.len() ==> self.image@.len()
                    == v0.image@.len()),
                self.alloc.used_end() <= v0.alloc.used_end() + 2 * area_blocks(
                    24 + 16 * (v0.alloc.free@.len() as int + 1),
                ),
                n == area_len(image_block(self.image@, start as int)),
                v0.alloc.first_data <= start,
                n <= 0x10_0000,
                start + n <= self.alloc.total_blocks,
                24 + 16 * self.alloc.free@.len() <= n * 4080,
                (start + n) * 4096 <= self.image@.len(),
                crate::allocmap::area_claimed(
                    v0.alloc,
                    self.alloc,
                    start as int,
                    n,
                    existing as int,
                    old_area(v0.image@, existing as int),
                ),
                area_stands(self.image@, start as int, n, self.alloc.bytes()),
                crate::allocmap::same_blocks_outside(v0.image@, self.image@, start as int, n),
                is_area_head(image_block(self.image@, start as int)),
                self.owner == v0.owner,
                self.lost == v0.lost,
                self.cache.capacity == v0.cache.capacity,
            decreases count - i,
        {
            self.cache.invalidate(start + i);
            i = i + 1;
        }
        self.owner = Ghost(map_moved(m0, start as int, n));
        proof {
            let old_n = old_area(v0.image@, existing as int);
            assert forall|b: int| #[trigger]
                m0.contains_key(b) && m0[b] != Owner::Area implies !(start <= b < start + n)
                && !(existing <= b < existing + old_n) by {
                if existing <= b < existing + old_n {
                    assert(v0.d(existing as int) == image_block(v0.image@, existing as int));
                    assert(m0[b] == Owner::Area);
                }
                if start <= b < start + n {
                    assert(!self.alloc.is_free(b));
                }
            }
            assert forall|b: u64| #[trigger] self.cache.map@.contains_key(b) implies b
                < max_blocks() && self.cache.map@[b].data@.len() == 4096 && (
            self.cache.map@[b].dirty || self.cache.map@[b].data@ == image_block(
                self.image@,
                b as int,
            )) by {
                assert(c0.map@.contains_key(b));
                assert(image_block(self.image@, b as int) == image_block(v0.image@, b as int));
            }
            assert forall|b: int| b >= 0 implies #[trigger] self.d(b) == image_block(
                self.image@,
                b,
            ) by {
                if 0 <= b <= u64::MAX && self.cache.map@.contains_key(b as u64) {
                    assert(c0.map@.contains_key(b as u64));
                    assert(v0.d(b) == image_block(v0.image@, b));
                    assert(image_block(self.image@, b) == image_block(v0.image@, b));
                }
            }
            assert forall|b: int| #[trigger] self.owner@.contains_key(b) implies self.lo() <= b
                < self.alloc.total_blocks && !self.alloc.is_free(b) by {
                if start <= b < start + n {
                    assert(!self.alloc.is_free(b));
                } else {
                    assert(m0.contains_key(b));
                    assert(self.alloc.is_free(b) <==> v0.alloc.is_free(b));
                }
            }
            reveal(accounted);
            assert forall|b: int|
                self.lo() <= b < self.alloc.total_blocks && !#[trigger] self.alloc.is_free(
                    b,
                ) implies self.owner@.contains_key(b) || self.lost@.contains(b) by {
                if !(start <= b < start + n) {
                    if existing != 0 {
                        assert(v0.d(existing as int) == image_block(v0.image@, existing as int));
                    }
                    if m0.contains_key(b) && m0[b] == Owner::Area {
                        assert(existing <= b < existing + area_len(v0.d(existing as int)));
                        assert(old_n == area_len(v0.d(existing as int)));
                        assert(self.alloc.is_free(b));
                    }
                    assert(!v0.alloc.is_free(b));
                }
            }
            assert forall|b: int| #[trigger]
                m0.contains_key(b) && !(m0[b] is Fresh) && m0[b]
                    != Owner::Area implies self.owner@.contains_key(b) && self.owner@[b] == m0[b]
                && self.d(b) == v0.d(b) by {
                assert(b >= 0);
                assert(self.d(b) == image_block(self.image@, b));
                assert(v0.d(b) == image_block(v0.image@, b));
                assert(image_block(self.image@, b) == image_block(v0.image@, b));
            }
            assert forall|b: int| 0 <= b < v0.lo() implies #[trigger] image_block(self.image@, b)
                == image_block(v0.image@, b) by {}
            assert(self.d(start as int) == image_block(self.image@, start as int));
        }
        Ok(start)
    }

    /// Gives unused space at the end of the image back to the host.
    fn shrink(&mut self)
        requires
            old(self).wf(),
            old(self).clean(),
        ensures
            old(self).whole() ==> final(self).image@.len() == if tail_unused(old(self).alloc) {
                final(self).alloc.total_blocks * 4096
            } else {
                old(self).image@.len() as int
            },
            extends(old(self).image, final(self).image),
            final(self).wf(),
            final(self).clean(),
            final(self).owner == old(self).owner,
            final(self).lost == old(self).lost,
            final(self).cache.capacity == old(self).cache.capacity,
            final(self).lo() == old(self).lo(),
            final(self).alloc.total_blocks <= old(self).alloc.total_blocks,
            final(self).end() <= old(self).end(),
            final(self).image@.len() <= old(self).image@.len(),
            final(self).image@ == old(self).image@.take(final(self).image@.len() as int),
            final(self).image@.len() < old(self).image@.len() ==> final(self).image@.len()
                >= final(self).alloc.total_blocks * 4096,
            tail_cut_off(old(self).alloc, final(self).alloc, final(self).image@.len() as int),
            forall|b: int|
                0 <= b < final(self).alloc.total_blocks ==> #[trigger] final(self).d(b)
                    == old(self).d(b),
            forall|b: int|
                0 <= b < final(self).alloc.total_blocks ==> #[trigger] image_block(
                    final(self).image@,
                    b,
                ) == image_block(old(self).image@, b),
    {
        let ghost v0 = *self;
        let shrunk = self.alloc.maybe_shrink(&mut self.image);
        self.cache.drop_from(self.alloc.total_blocks);
        proof {
            reveal(accounted);
            let i0 = v0.image@;
            let i1 = self.image@;
            let total = self.alloc.total_blocks as int;
            assert(i1 =~= i0.take(i1.len() as int));
            assert forall|b: int| 0 <= b < total implies #[trigger] image_block(i1, b)
                == image_block(i0, b) by {
                assert(image_block(i1, b) =~= image_block(i0, b));
            }
            assert(self.cache.wf(i1)) by {
                assert(self.cache.wf(i0));
                assert forall|b: u64| #[trigger] self.cache.map@.contains_key(b) implies b
                    < max_blocks() && self.cache.map@[b].data@.len() == 4096 && (
                self.cache.map@[b].dirty || self.cache.map@[b].data@ == image_block(
                    i1,
                    b as int,
                )) by {
                    assert(v0.cache.map@.contains_key(b));
                    assert(image_block(i1, b as int) == image_block(i0, b as int));
                }
            }
            assert forall|b: int| b >= 0 implies #[trigger] self.d(b) == image_block(i1, b) by {
                if 0 <= b <= u64::MAX && self.cache.map@.contains_key(b as u64) {
                    assert(v0.cache.map@.contains_key(b as u64));
                    assert(v0.d(b) == image_block(i0, b));
                    assert(image_block(i1, b) == image_block(i0, b));
                }
            }
            assert forall|b: int| 0 <= b < total implies #[trigger] self.d(b) == v0.d(b) by {
                assert(self.d(b) == image_block(i1, b));
                assert(v0.d(b) == image_block(i0, b));
                assert(image_block(i1, b) == image_block(i0, b));
            }
            assert forall|b: int| #[trigger] self.owner@.contains_key(b) implies self.lo() <= b
                < self.alloc.total_blocks && !self.alloc.is_free(b) by {
                assert(v0.owner@.contains_key(b));
                assert(!v0.alloc.is_free(b));
                if b >= total {
                    lemma_cut_is_free(v0.alloc, self.alloc, b);
                }
            }
        }
    }
}

/// More than the slack lies unused at the end of a volume.
pub open spec fn tail_unused(a: Allocator) -> bool {
    a.free@.len() > 0 && a.free@.last().0 + a.free@.last().1 == a.total_blocks && a.free@.last().1
        > SHRINK_SLACK_BLOCKS
}

/// What lay unused at the end of the volume with map `a0` is no part of the image any more, but
/// for the slack.
pub open spec fn tail_cut_off(a0: Allocator, a1: Allocator, image_len: int) -> bool {
    if tail_unused(a0) {
        &&& a1.total_blocks == a0.free@.last().0 + SHRINK_SLACK_BLOCKS
        &&& a1.free@ == a0.free@.drop_last().push((a0.free@.last().0, SHRINK_SLACK_BLOCKS))
        &&& image_len <= a1.total_blocks * 4096
    } else {
        a1 == a0
    }
}

/// What a shrinking map cuts off is free.
proof fn lemma_cut_is_free(a0: Allocator, a1: Allocator, b: int)
    requires
        a0.wf(),
        a1 != a0 ==> a0.free@.len() > 0 && a0.free@.last().0 + a0.free@.last().1
            == a0.total_blocks && a1.total_blocks >= a0.free@.last().0,
        a1.total_blocks <= b < a0.total_blocks,
    ensures
        a0.is_free(b),
{
    let k = a0.free@.len() - 1;
    assert(crate::allocator::in_run(a0.free@[k], b));
}

/// A superblock with other times, another place of the free-space map, and another state of the
/// journal.
pub open spec fn same_super(a: SuperView, b: SuperView) -> bool {
    b == (SuperView {
        total_blocks: b.total_blocks,
        mtime: b.mtime,
        alloc_block: b.alloc_block,
        journal_seq: b.journal_seq,
        journal_head: b.journal_head,
        journal_tail: b.journal_tail,
        journal_committed: b.journal_committed,
        ..a
    })
}

/// A step of writing back: no file changes.
#[verifier::rlimit(40)]
proof fn lemma_flush_step(s0: Inner, s1: Inner)
    requires
        s0.wf(),
        s1.vol.wf(),
        files_kept(s0.vol, s1.vol),
        s1.area_ok(),
        area_only(s1.vol, s1.sb.alloc_block),
        same_super(s0.sb@, s1.sb@),
        s1.journal.start_block == s0.journal.start_block,
        s1.journal.blocks == s0.journal.blocks,
        s1.journal.head == s1.sb.journal_head,
        s1 == (Inner { vol: s1.vol, sb: s1.sb, journal: s1.journal, ..s0 }),
    ensures
        s1.wf(),
        s1@ == s0@,
        s0.sound() ==> s1.sound(),
{
    let v0 = s0.vol;
    let v1 = s1.vol;
    let t = s0.table();
    let rc = s0.record_cache;
    let rb = s0.rb();
    assert(s1.table() == t) by {
        assert(s1.sb@.table == s0.sb@.table);
    }
    lemma_table_kept(v0.owner@, v1.owner@, t);
    assert(s1.super_ok()) by {
        assert(s1.sb@.uuid == s0.sb@.uuid);
        assert(s1.sb@.version == s0.sb@.version);
        assert(s1.sb@.block_size == s0.sb@.block_size);
        assert(s1.sb@.first_data_block == s0.sb@.first_data_block);
        assert(s1.sb@.journal_blocks == s0.sb@.journal_blocks);
        assert(s1.sb@.next_inode == s0.sb@.next_inode);
        assert(s1.sb@.record_blocks == s0.sb@.record_blocks);
        assert(s1.sb@.default_compression == s0.sb@.default_compression);
    }
    assert(s1.sb@.free_inode_count == s0.sb@.free_inode_count);
    assert forall|x: u64| #[trigger] s0.inodes@.contains_key(x) implies inode_ok(
        v1,
        rc,
        rb,
        s0.inodes@[x],
    ) && node_of(v1, rc, rb, s0.inodes@[x]) == node_of(v0, rc, rb, s0.inodes@[x]) && (
    exts_readable(v0, s0.inodes@[x].extents@) ==> exts_readable(v1, s0.inodes@[x].extents@))
        && own_kept(v0, v1, x) && (forall|p: int| #[trigger]
        ubyte(v1, s0.inodes@[x].extents@, p) == ubyte(v0, s0.inodes@[x].extents@, p)) by {
        assert(own_kept(v0, v1, x));
        lemma_inode_own(v0, v1, rc, rc, rb, s0.inodes@[x]);
    }
    assert(s1@.nodes =~= s0@.nodes);
    assert(synced(v1, t, s1.inodes@, s1.dirty_inodes@, s1.sb.next_inode)) by {
        assert forall|x: u64| #[trigger]
            s1.inodes@.contains_key(x) && !s1.dirty_inodes@.contains(x) implies persisted(
            v1,
            t,
            s1.inodes@[x],
        ) by {
            lemma_slot_kept(v0, v1, t, x as int);
            lemma_persisted_own(v0, v1, t, t, s0.inodes@[x]);
        }
        assert forall|x: u64|
            0 < x < s1.sb.next_inode && !#[trigger] s1.inodes@.contains_key(
                x,
            ) implies parsed_inode(slot(v1, t, x as int)) is None by {
            assert(!s0.inodes@.contains_key(x));
            lemma_slot_kept(v0, v1, t, x as int);
        }
    }
    if let Some(c) = rc {
        assert forall|q: int| !c.dirty && 0 <= q < rb * 4096 implies #[trigger] c.data@[q] == ubyte(
            v1,
            s1.inodes@[c.ino].extents@,
            c.start * 4096 + q,
        ) by {
            assert(s0.inodes@.contains_key(c.ino));
        }
    }
    assert(places_ok(v1, s1.inodes@, t, s1.sb.alloc_block)) by {
        assert forall|b: int| #[trigger] v1.owner@.contains_key(b) implies in_place(
            v1,
            s1.inodes@,
            t,
            s1.sb.alloc_block,
            b,
            v1.owner@[b],
        ) by {
            let o = v1.owner@[b];
            if o != Owner::Area {
                assert(v0.owner@.contains_key(b) && v0.owner@[b] == o);
                assert(in_place(v0, s0.inodes@, t, s0.sb.alloc_block, b, o));
            }
        }
    }
}

/// Blocks that a write does not touch are the same.
pub proof fn lemma_spliced_block(i0: Seq<u8>, i1: Seq<u8>, off: int, data: Seq<u8>, b: int)
    requires
        0 <= off,
        0 <= b,
        off + data.len() <= i0.len() ==> i1 == splice(i0, off, data),
        off + data.len() > i0.len() ==> i1 == splice(
            padded(i0, crate::store::grown_len(off + data.len()) as nat),
            off,
            data,
        ),
        (b + 1) * 4096 <= off || off + data.len() <= b * 4096,
    ensures
        image_block(i1, b) == image_block(i0, b),
{
    let g = crate::store::grown_len(off + data.len());
    assert(g >= off + data.len());
    assert(image_block(i1, b) =~= image_block(i0, b));
}

/// A volume whose image changed before the data area only.
proof fn lemma_front_step(v0: Volume, v1: Volume)
    requires
        v0.wf(),
        v0.clean(),
        v1 == (Volume { image: v1.image, ..v0 }),
        v1.image.wf(),
        forall|b: int|
            b >= v0.lo() ==> #[trigger] image_block(v1.image@, b) == image_block(v0.image@, b),
    ensures
        v1.wf(),
        v1.clean(),
        files_kept(v0, v1),
        forall|b: int| b >= v0.lo() ==> #[trigger] v1.d(b) == v0.d(b),
{
    assert forall|b: u64| #[trigger] v1.cache.map@.contains_key(b) implies v1.lo() <= b
        && v1.cache.map@[b].data@.len() == 4096 && (v1.cache.map@[b].dirty
        || v1.cache.map@[b].data@ == image_block(v1.image@, b as int)) by {
        assert(v0.cache.map@.contains_key(b));
        assert(image_block(v1.image@, b as int) == image_block(v0.image@, b as int));
    }
    assert forall|b: int| b >= v0.lo() implies #[trigger] v1.d(b) == v0.d(b) by {
        assert(image_block(v1.image@, b) == image_block(v0.image@, b));
    }
    assert forall|b: int| b >= 0 implies #[trigger] v1.d(b) == image_block(v1.image@, b) by {
        if b >= v0.lo() {
            assert(v1.d(b) == v0.d(b));
            assert(v0.d(b) == image_block(v0.image@, b));
            assert(image_block(v1.image@, b) == image_block(v0.image@, b));
        } else {
            assert(!v0.cache.map@.contains_key(b as u64));
        }
    }
}

/// The free-space map on disk is left alone.
proof fn lemma_area_same(s0: Inner, s1: Inner)
    requires
        s0.wf(),
        s1.sb.alloc_block == s0.sb.alloc_block,
        s1.vol.owner@ == s0.vol.owner@,
        forall|b: int| b >= s0.vol.lo() ==> #[trigger] s1.vol.d(b) == s0.vol.d(b),
        s1.vol.image@.len() >= s0.vol.image@.len(),
    ensures
        s1.area_ok(),
        area_only(s1.vol, s1.sb.alloc_block),
{
    let a = s0.sb.alloc_block;
    if a != 0 {
        assert(s0.vol.owner@.contains_key(a as int));
        assert(s1.vol.d(a as int) == s0.vol.d(a as int));
    }
    assert forall|b: int| #[trigger]
        s1.vol.owner@.contains_key(b) && s1.vol.owner@[b] == Owner::Area implies a != 0 && a <= b < a
        + area_len(s1.vol.d(a as int)) by {
        assert(in_place(s0.vol, s0.inodes@, s0.table(), a, b, s0.vol.owner@[b]));
    }
}

/// The journal has no room for the dirty inodes.
pub open spec fn journal_short(s: Inner) -> bool {
    &&& !(s.sync_mode is Deferred)
    &&& 272 * s.dirty_inodes@.len() + 40 > s.journal.blocks * 4096 || s.journal.seq == u64::MAX
}

/// The dirty inodes, as a transaction records them.
pub open spec fn dirty_ops(s: Inner) -> Seq<JournalOp> {
    Seq::new(
        s.dirty_inodes@.len(),
        |k: int|
            JournalOp {
                kind: OP_INODE,
                key: s.dirty_inodes@[k],
                data: s.inodes@[s.dirty_inodes@[k]]@.bytes(),
            },
    )
}

/// A transaction on disk, with its commit record.
pub open spec fn tx_bytes(seq: u64, ops: Seq<JournalOp>) -> Seq<u8> {
    committed_bytes(seq, begin_bytes(seq) + ops_bytes(ops))
}

/// The `n` blocks of the journal of an image.
pub open spec fn journal_bytes(image: Seq<u8>, n: int) -> Seq<u8> {
    Seq::new((n * 4096) as nat, |p: int| image_block(image, 1 + p / 4096)[p % 4096])
}

/// The journal of an image holds `bytes` from byte `at` on.
pub open spec fn tx_at_offset(image: Seq<u8>, n: int, at: int, bytes: Seq<u8>) -> bool {
    &&& 0 <= at
    &&& at + bytes.len() <= n * 4096
    &&& journal_bytes(image, n).subrange(at, at + bytes.len()) == bytes
}

/// The journal of an image holds a committed transaction of these operations.
pub open spec fn logged(image: Seq<u8>, n: int, seq: u64, ops: Seq<JournalOp>) -> bool {
    exists|at: int| tx_at_offset(image, n, at, tx_bytes(seq, ops))
}

/// An operation of a transaction records inode `key` of a volume: its metadata and its size.
pub open spec fn records_inode(v: FsView, op: JournalOp) -> bool {
    &&& op.kind == OP_INODE
    &&& v.nodes.contains_key(op.key)
    &&& exists|i: Inode|
        op.data == (#[trigger] i@.bytes()) && i.ino == op.key && meta_of(i) == v.nodes[op.key].meta
            && i.size == v.nodes[op.key].data.len()
}

/// A list of operations records every dirty inode of a volume.
pub open spec fn lists_dirty(s: Inner, ops: Seq<JournalOp>) -> bool {
    &&& forall|k: int| 0 <= k < ops.len() ==> records_inode(s@, #[trigger] ops[k])
    &&& forall|x: u64| #[trigger]
        s.dirty_inodes@.contains(x) ==> exists|k: int|
            0 <= k < ops.len() && (#[trigger] ops[k]).key == x
}

/// The journal of volume `s1` holds, with its commit record, a transaction that records every
/// inode that was dirty in `s0`, as the inode table holds it. Before that was written, all the data
/// was; and once it was, a mount would find `s1`. In mode `Full` it is on the disk of the host before
/// the inode table is written.
pub open spec fn journaled(s0: Inner, s1: Inner) -> bool {
    &&& exists|seq: u64, ops: Seq<JournalOp>| journaled_as(s0, s1, seq, ops)
    &&& exists|m: Inner| #[trigger] data_first(s0, m, s1)
    &&& drained(s0) && s0.sb.journal_blocks * 4096 <= u32::MAX ==> exists|c: Inner| #[trigger]
        commit_holds(s0, c, s1)
    &&& s0.sync_mode is Full ==> exists|f: Image| #[trigger] forced(s0, f, s1)
}

/// Volume `s0` was written back through its journal: the host file passes through a state, that of
/// `f`, in which the inode table is still that of `s0`, the journal holds the record of every inode
/// that was dirty, and the last operation has the host write what it was given to its disk.
pub open spec fn forced(s0: Inner, f: Image, s1: Inner) -> bool {
    &&& f.wf()
    &&& extends(f, s1.vol.image)
    &&& f.log@.len() > 0
    &&& f.log@.last() is SyncData
    &&& exists|seq: u64, ops: Seq<JournalOp>| #[trigger]
        journaled_as(s0, s1, seq, ops) && logged(f@, s1.sb.journal_blocks as int, seq, ops)
    &&& forall|b: int| #[trigger]
        s0.vol.owner@.contains_key(b) && s0.vol.owner@[b] is Table ==> image_block(f@, b)
            == s0.vol.d(b)
}

/// The journal record `full` was written behind volume `s0`, and is on the disk of the host in the
/// state of `f`; `c` came after that.
pub open spec fn record_forced(s0: Inner, f: Image, c: Inner, at: int, full: Seq<u8>) -> bool {
    &&& f.wf()
    &&& extends(f, c.vol.image)
    &&& f.log@.len() > 0
    &&& f.log@.last() is SyncData
    &&& tx_at_offset(f@, c.sb.journal_blocks as int, at, full)
    &&& forall|b: int|
        b >= s0.vol.lo() ==> #[trigger] image_block(f@, b) == image_block(s0.vol.image@, b)
}

/// Volume `s0` was written back through its journal: the host file passes through a state, that of
/// `c`, in which the inode table is still that of `s0`, and in which a mount finds `s1`.
pub open spec fn commit_holds(s0: Inner, c: Inner, s1: Inner) -> bool {
    &&& c.vol.image.wf()
    &&& extends(c.vol.image, s1.vol.image)
    &&& recovers(s1, c.vol.image@)
    &&& forall|b: int| #[trigger]
        s0.vol.owner@.contains_key(b) && s0.vol.owner@[b] is Table ==> image_block(c.vol.image@, b)
            == s0.vol.d(b)
}

pub open spec fn journaled_as(s0: Inner, s1: Inner, seq: u64, ops: Seq<JournalOp>) -> bool {
    &&& lists_dirty(s0, ops)
    &&& logged(s1.vol.image@, s1.sb.journal_blocks as int, seq, ops)
    &&& forall|k: int|
        0 <= k < ops.len() ==> (#[trigger] ops[k]).data == slot(
            s1.vol,
            s1.table(),
            ops[k].key as int,
        )
}

/// The dirty inodes are recorded as they are.
proof fn lemma_ops_listed(s0: Inner, s1: Inner)
    requires
        s1.wf(),
        s1@ == s0@,
        forall|x: u64| #[trigger]
            s0.dirty_inodes@.contains(x) ==> s1.dirty_inodes@.contains(x),
    ensures
        lists_dirty(s0, dirty_ops(s1)),
{
    let ops = dirty_ops(s1);
    assert forall|k: int| 0 <= k < ops.len() implies records_inode(s0@, #[trigger] ops[k]) by {
        let x = s1.dirty_inodes@[k];
        assert(s1.dirty_inodes@.contains(x));
        assert(s1.inodes@.contains_key(x));
        let i = s1.inodes@[x];
        assert(s1@.nodes.contains_key(x));
        assert(ops[k].data == i@.bytes());
    }
    assert forall|x: u64| #[trigger] s0.dirty_inodes@.contains(x) implies exists|k: int|
        0 <= k < ops.len() && (#[trigger] ops[k]).key == x by {
        let k = s1.dirty_inodes@.index_of(x);
        assert(ops[k].key == x);
    }
}

/// A transaction that was written into the journal stands there.
proof fn lemma_logged(i0: Seq<u8>, i1: Seq<u8>, at: int, full: Seq<u8>, n: int)
    requires
        0 <= at,
        at + full.len() <= n * 4096,
        i1 == splice(
            if 4096 + at + full.len() <= i0.len() {
                i0
            } else {
                padded(i0, crate::store::grown_len(4096 + at + full.len()) as nat)
            },
            4096 + at,
            full,
        ),
    ensures
        tx_at_offset(i1, n, at, full),
{
    let j = journal_bytes(i1, n).subrange(at, at + full.len());
    assert forall|q: int| 0 <= q < full.len() implies j[q] == full[q] by {
        let p = at + q;
        assert(j[q] == image_block(i1, 1 + p / 4096)[p % 4096]);
        assert((1 + p / 4096) * 4096 + p % 4096 == 4096 + p);
        assert(i1[4096 + p] == full[q]);
    }
    assert(j =~= full);
}

impl Inner {
    /// Writes the dirty inodes into the journal; fails with `EIO` where they do not fit. All file
    /// data stands in the image before.
    #[verifier::rlimit(40)]
    pub fn journal_inodes(&mut self) -> (r: Result<()>)
        requires
            old(self).wf(),
            old(self).writable,
            old(self).vol.clean(),
            old(self).record_cache is None,
        ensures
            old(self).vol.whole() ==> final(self).vol.whole() && final(self).vol.image@.len()
                == old(self).vol.image@.len(),
            extends(old(self).vol.image, final(self).vol.image),
            final(self).wf(),
            final(self)@ == old(self)@,
            final(self).vol.clean(),
            final(self).record_cache is None,
            final(self).sync_mode == old(self).sync_mode,
            final(self).record_blocks == old(self).record_blocks,
            super_kept(*old(self), *final(self)),
            final(self).sb.alloc_block == old(self).sb.alloc_block,
            final(self).dirty_inodes == old(self).dirty_inodes,
            final(self).inodes == old(self).inodes,
            final(self).vol.alloc == old(self).vol.alloc,
            final(self).vol.owner == old(self).vol.owner,
            forall|b: int| #[trigger]
                old(self).vol.owner@.contains_key(b) ==> final(self).vol.d(b) == old(self).vol.d(b),
            final(self).journal.blocks == old(self).journal.blocks,
            final(self).sb.journal_blocks == old(self).sb.journal_blocks,
            r is Err && old(self).journal.seq < u64::MAX ==> 272 * old(self).dirty_inodes@.len()
                + 40 > old(self).journal.blocks * 4096,
            keeps(*old(self), Inner { sb: old(self).sb, ..*final(self) }),
            *final(self) == (Inner {
                vol: final(self).vol,
                sb: final(self).sb,
                journal: final(self).journal,
                ..*old(self)
            }),
            final(self).vol == (Volume { image: final(self).vol.image, ..old(self).vol }),
            final(self).vol.image@.len() >= old(self).vol.image@.len(),
            forall|b: int|
                b >= old(self).vol.lo() ==> #[trigger] image_block(final(self).vol.image@, b)
                    == image_block(old(self).vol.image@, b),
            r is Err ==> final(self).sb == old(self).sb,
            match r {
                Ok(_) => {
                    let full = tx_bytes(final(self).journal.seq, dirty_ops(*old(self)));
                    let at = old(self).journal.slot(full.len() as int);
                    &&& final(self).journal.seq > 0
                    &&& record_written(
                        old(self).vol.image,
                        final(self).vol.image,
                        at,
                        full,
                        old(self).sync_mode is Full,
                    )
                    &&& tx_at_offset(
                        final(self).vol.image@,
                        final(self).sb.journal_blocks as int,
                        at,
                        full,
                    )
                    &&& final(self).sb@ == (SuperView {
                        journal_seq: final(self).journal.seq,
                        journal_head: final(self).journal.head,
                        journal_tail: if at == 0 {
                            0
                        } else {
                            old(self).sb.journal_tail
                        },
                        journal_committed: final(self).journal.seq,
                        ..old(self).sb@
                    })
                    &&& final(self).journal.head == if at + full.len() <= u32::MAX {
                        (at + full.len()) as u32
                    } else {
                        u32::MAX
                    }
                },
                Err(e) => e.is(EIO) && (272 * final(self).dirty_inodes@.len() + 40
                    > final(self).journal.blocks * 4096 || final(self).journal.seq == u64::MAX),
            },
    {
        let ghost s0 = *self;
        let n: usize = self.dirty_inodes.len();
        let area: u64 = self.journal.area_bytes();
        if self.journal.seq == u64::MAX {
            return Err(eio("journal sequence exhausted"));
        }
        let limit = block_limit();
        if n as u64 > area / 272 {
            return Err(eio("journal transaction too large"));
        }
        let mut tx = self.journal.begin();
        let ghost seq = tx.seq;
        proof {
            crate::bytes::lemma_le();
        }
        let mut k: usize = 0;
        assert(tx.buf@ =~= begin_bytes(seq) + ops_bytes(dirty_ops(s0).take(0)));
        while k < n
            invariant
                k <= n,
                n == self.dirty_inodes@.len(),
                n <= area / 272,
                area <= 0xffff_ffff * 4096,
                *self == (Inner { journal: self.journal, ..s0 }),
                s0.wf(),
                tx.seq == seq,
                tx.buf@.len() == 16 + 272 * k,
                tx.buf@ == begin_bytes(seq) + ops_bytes(dirty_ops(s0).take(k as int)),
            decreases n - k,
        {
            let ino = self.dirty_inodes[k];
            assert(s0.dirty_inodes@.contains(ino));
            match self.inodes.get(&ino) {
                Some(i) => {
                    let raw = i.encode();
                    let ghost before = tx.buf@;
                    tx.write_inode(ino, raw.as_slice());
                    proof {
                        crate::bytes::lemma_le();
                        let op = JournalOp { kind: OP_INODE, key: ino, data: raw@ };
                        assert(op_bytes(op).len() == 272);
                        let ops = dirty_ops(s0);
                        assert(ops.take(k + 1).drop_last() =~= ops.take(k as int));
                        assert(ops.take(k + 1).last() == op);
                        assert(tx.buf@ =~= begin_bytes(seq) + ops_bytes(ops.take(k + 1)));
                    }
                },
                None => {},
            }
            k = k + 1;
        }
        assert(dirty_ops(s0).take(n as int) =~= dirty_ops(s0));
        let sync = self.sync_mode == SyncMode::Full;
        let ghost full = committed_bytes(seq, tx.buf@);
        proof {
            crate::bytes::lemma_le();
            assert(full.len() == tx.buf@.len() + 16);
            assert(s0.vol.alloc.first_data <= s0.vol.alloc.total_blocks);
        }
        let ghost at = self.journal.slot(full.len() as int);
        let res = self.journal.commit(&mut self.vol.image, &mut self.sb, tx, sync);
        proof {
            if res is Ok {
                let i0 = s0.vol.image@;
                let i1 = self.vol.image@;
                assert forall|b: int| b >= s0.vol.lo() implies #[trigger] image_block(i1, b)
                    == image_block(i0, b) by {
                    lemma_spliced_block(i0, i1, 4096 + at, full, b);
                }
                lemma_logged(i0, i1, at, full, s0.sb.journal_blocks as int);
                assert(full == tx_bytes(seq, dirty_ops(s0)));
                assert(tx_at_offset(i1, s0.sb.journal_blocks as int, at, full));
                lemma_front_step(s0.vol, self.vol);
                lemma_area_same(s0, *self);
            } else {
                lemma_front_step(s0.vol, self.vol);
                lemma_area_same(s0, *self);
            }
            lemma_flush_step(s0, *self);
        }
        res
    }

    /// Writes both copies of the superblock.
    fn write_super(&mut self)
        requires
            old(self).wf(),
            old(self).writable,
            old(self).vol.clean(),
        ensures
            old(self).vol.whole() ==> final(self).vol.whole() && final(self).vol.image@.len()
                == old(self).vol.image@.len(),
            extends(old(self).vol.image, final(self).vol.image),
            final(self).wf(),
            final(self)@ == old(self)@,
            final(self).vol.clean(),
            keeps(*old(self), *final(self)),
            *final(self) == (Inner { vol: final(self).vol, ..*old(self) }),
            final(self).vol == (Volume { image: final(self).vol.image, ..old(self).vol }),
            final(self).vol.image@.len() >= old(self).vol.image@.len(),
            final(self).vol.image@.len() >= (2 + old(self).sb.journal_blocks) * 4096,
            image_block(final(self).vol.image@, 0) == old(self).sb@.bytes(),
            image_block(final(self).vol.image@, 1 + old(self).sb.journal_blocks) == old(self).sb@.bytes(),
            forall|b: int|
                1 <= b < 1 + old(self).sb.journal_blocks ==> #[trigger] image_block(
                    final(self).vol.image@,
                    b,
                ) == image_block(old(self).vol.image@, b),
            forall|b: int|
                b >= old(self).vol.lo() ==> #[trigger] image_block(final(self).vol.image@, b)
                    == image_block(old(self).vol.image@, b),
    {
        let ghost s0 = *self;
        let encoded = self.sb.encode();
        assert(s0.vol.alloc.first_data <= s0.vol.alloc.total_blocks);
        self.vol.image.write_all_at(encoded.as_slice(), 0);
        let ghost i1 = self.vol.image@;
        let backup = self.sb.backup_block();
        let res = self.vol.image.write_block(backup, encoded.as_slice());
        proof {
            let i0 = s0.vol.image@;
            let i2 = self.vol.image@;
            assert(image_block(i1, 0) =~= encoded@);
            assert(res is Ok);
            assert(image_block(i2, 0) == image_block(i1, 0));
            assert forall|b: int| 1 <= b < 1 + s0.sb.journal_blocks implies #[trigger] image_block(
                i2,
                b,
            ) == image_block(i0, b) by {
                lemma_spliced_block(i0, i1, 0, encoded@, b);
                assert(image_block(i2, b) == image_block(i1, b));
            }
            assert forall|b: int| b >= s0.vol.lo() implies #[trigger] image_block(i2, b)
                == image_block(i0, b) by {
                lemma_spliced_block(i0, i1, 0, encoded@, b);
                assert(image_block(i2, b) == image_block(i1, b));
            }
            lemma_front_step(s0.vol, self.vol);
            lemma_area_same(s0, *self);
            lemma_flush_step(s0, *self);
        }
    }
}

/// The mounted volume stands in its image: nothing of it is in memory only.
pub open spec fn rests(s: Inner) -> bool {
    &&& s.wf()
    &&& s.dirty_inodes@.len() == 0
    &&& s.record_cache is None
    &&& s.vol.clean()
    &&& s.vol.image@.len() >= (2 + s.sb.journal_blocks) * 4096
    &&& s.sb.journal_tail == s.sb.journal_head
    &&& exists|total: u64| super_at(s, total)
    &&& exists|n: int, a: Allocator| map_covers(s, n, a)
}

/// A volume stands in its image, whatever its superblock there says.
pub open spec fn lies(s: Inner) -> bool {
    &&& s.wf()
    &&& s.dirty_inodes@.len() == 0
    &&& s.record_cache is None
    &&& s.vol.clean()
    &&& exists|n: int, a: Allocator| map_holds(s, n, a)
}

/// A volume that rests stands in its image.
pub proof fn lemma_rests_lies(s: Inner)
    requires
        rests(s),
    ensures
        lies(s),
{
    let (n, a) = choose|n: int, a: Allocator| map_covers(s, n, a);
    assert(map_holds(s, n, a));
}

/// A volume that stands in one image stands in another one that has the same in every block that
/// is in use.
pub proof fn lemma_lies_elsewhere(s0: Inner, s1: Inner)
    requires
        lies(s0),
        s1 == (Inner { vol: s1.vol, ..s0 }),
        s1.vol == (Volume { image: s1.vol.image, cache: s1.vol.cache, ..s0.vol }),
        s1.vol.image.wf(),
        s1.vol.cache.wf(s1.vol.image@),
        s1.vol.cache.map@ == Map::<u64, crate::cache::Entry>::empty(),
        forall|b: int| #[trigger]
            s0.vol.owner@.contains_key(b) ==> image_block(s1.vol.image@, b) == image_block(
                s0.vol.image@,
                b,
            ) && (s0.vol.owner@[b] == Owner::Area ==> (b + 1) * 4096 <= s1.vol.image@.len()),
    ensures
        lies(s1),
        s1@ == s0@,
        s0.sound() ==> s1.sound(),
        forall|b: int| #[trigger] s0.vol.owner@.contains_key(b) ==> s1.vol.d(b) == s0.vol.d(b),
{
    let (n, a) = choose|n: int, a: Allocator| map_holds(s0, n, a);
    let start = s0.sb.alloc_block as int;
    assert forall|b: int| b >= 0 implies #[trigger] s1.vol.d(b) == image_block(
        s1.vol.image@,
        b,
    ) by {}
    assert forall|b: int| #[trigger] s0.vol.owner@.contains_key(b) implies s1.vol.d(b)
        == s0.vol.d(b) by {
        assert(s0.vol.d(b) == image_block(s0.vol.image@, b));
    }
    assert(s0.vol.d(start) == image_block(s0.vol.image@, start));
    assert forall|b: int| start <= b < start + n implies #[trigger] s0.vol.owner@.contains_key(b)
        && s0.vol.owner@[b] == Owner::Area by {}
    assert(s0.vol.owner@.contains_key(start + 0));
    assert(s0.vol.owner@.contains_key(start + n - 1));
    assert(s1.area_ok());
    assert(area_only(s1.vol, s1.sb.alloc_block)) by {
        assert forall|b: int| #[trigger]
            s1.vol.owner@.contains_key(b) && s1.vol.owner@[b] == Owner::Area implies start <= b
            < start + area_len(s1.vol.d(start)) by {
            assert(in_place(s0.vol, s0.inodes@, s0.table(), s0.sb.alloc_block, b, Owner::Area));
        }
    }
    lemma_flush_step(s0, s1);
    assert(map_at(s1.vol.image@, start, n, a)) by {
        assert forall|i: int| 0 <= i < n implies #[trigger] image_block(s1.vol.image@, start + i)
            == crate::allocmap::area_block(a.bytes(), n, i) by {
            assert(s0.vol.owner@.contains_key(start + i));
            assert(image_block(s0.vol.image@, start + i) == crate::allocmap::area_block(
                a.bytes(),
                n,
                i,
            ));
        }
    }
    assert(map_holds(s1, n, a));
}

/// A volume that rests has no more than the slack unused at its end.
pub proof fn unused_tail_is_cut(s: Inner)
    requires
        rests(s),
    ensures
        !tail_unused(s.vol.alloc),
{
}

/// Both copies of the superblock are those of the volume, but for the number of blocks.
pub open spec fn super_at(s: Inner, total: u64) -> bool {
    let sb = (SuperView { total_blocks: total, ..s.sb@ }).bytes();
    &&& image_block(s.vol.image@, 0) == sb
    &&& image_block(s.vol.image@, 1 + s.sb.journal_blocks) == sb
}

/// The free-space map on disk is map `a`, which has no block as free that is in use.
pub open spec fn map_holds(s: Inner, n: int, a: Allocator) -> bool {
    &&& map_at(s.vol.image@, s.sb.alloc_block as int, n, a)
    &&& a.wf()
    &&& a.first_data == s.vol.alloc.first_data
    &&& forall|b: int| #[trigger]
        s.vol.owner@.contains_key(b) ==> b < a.total_blocks && !a.is_free(b)
}

/// The free-space map on disk is map `a`. What was unused at the end was cut off after that.
pub open spec fn map_covers(s: Inner, n: int, a: Allocator) -> bool {
    &&& map_holds(s, n, a)
    &&& tail_cut_off(a, s.vol.alloc, s.vol.image@.len() as int)
}

/// A volume as it is once the record in memory is stored.
pub open spec fn settled(s0: Inner, m: Inner) -> bool {
    &&& m.wf()
    &&& m@ == s0@
    &&& m.record_cache is None
    &&& m.load() <= s0.load()
}

/// Blocks that the inodes in a list take at most, apart from their data.
pub open spec fn inodes_room(inodes: Map<u64, Inode>, list: Seq<u64>) -> int
    decreases list.len(),
{
    if list.len() == 0 {
        0
    } else {
        inodes_room(inodes, list.drop_last()) + inode_room(inodes[list.last()])
    }
}

/// Blocks that writing a volume back takes at most: for its dirty inodes, and for the free-space
/// map.
pub open spec fn flush_room(m: Inner) -> int {
    inodes_room(m.inodes@, m.dirty_inodes@) + 2 * area_blocks(24 + 16 * (MAX_MAP_RUNS as int + 1))
}

/// The volume has less room left than writing it back takes.
pub open spec fn cramped(s0: Inner, m: Inner) -> bool {
    settled(s0, m) && m.full(flush_room(m))
}

/// Writing volume `s0` back took no more blocks than it may.
#[verifier::opaque]
pub open spec fn grew_little(s0: Inner, s1: Inner) -> bool {
    exists|m: Inner|
        #![trigger settled(s0, m)]
        settled(s0, m) && s1.load() <= m.load() + flush_room(m)
}

/// Volume `s0` was written back, data first: the host file passes through a state, that of `m`, in
/// which the data of every file stands where the inodes of `s1` say, while the journal and the inode
/// table are still those of `s0`.
pub open spec fn data_first(s0: Inner, m: Inner, s1: Inner) -> bool {
    &&& m.wf()
    &&& m.vol.clean()
    &&& m.record_cache is None
    &&& m@ == s1@
    &&& m.inodes == s1.inodes
    &&& extends(m.vol.image, s1.vol.image)
    &&& forall|b: int|
        1 <= b < 1 + s0.sb.journal_blocks ==> #[trigger] image_block(m.vol.image@, b)
            == image_block(s0.vol.image@, b)
    &&& forall|b: int| #[trigger]
        s0.vol.owner@.contains_key(b) && s0.vol.owner@[b] is Table ==> image_block(m.vol.image@, b)
            == s0.vol.d(b)
}

/// The superblock as it is after a volume was written back: the rest of it is the same.
pub open spec fn super_kept(s0: Inner, s1: Inner) -> bool {
    s1.sb@ == (SuperView {
        mtime: s1.sb.mtime,
        alloc_block: s1.sb.alloc_block,
        total_blocks: s1.sb.total_blocks,
        journal_seq: s1.sb.journal_seq,
        journal_head: s1.sb.journal_head,
        journal_tail: s1.sb.journal_tail,
        journal_committed: s1.sb.journal_committed,
        ..s0.sb@
    })
}

/// Number of blocks of a volume whose first free-space map was written, and whose unused tail was
/// cut; before that it had one free run, at its end.
pub open spec fn first_total(a: Allocator) -> int {
    let end = a.free@[0].0 + 1;
    if a.total_blocks - end > SHRINK_SLACK_BLOCKS {
        end + SHRINK_SLACK_BLOCKS
    } else {
        a.total_blocks as int
    }
}

/// A volume without a free-space map on disk and with one free run, at its end.
pub open spec fn untouched(s: Inner) -> bool {
    let a = s.vol.alloc;
    s.sb.alloc_block == 0 && a.free@.len() == 1 && a.free@[0].1 > 1 && a.free@[0].0 + a.free@[0].1
        == a.total_blocks
}

/// The free-space map of the volume stands on disk.
pub open spec fn mapped(s: Inner) -> bool {
    exists|n: int| #[trigger]
        map_at(s.vol.image@, s.sb.alloc_block as int, n, s.vol.alloc)
}

/// The blocks of a map on disk belong to it.
proof fn lemma_mapped_behind(s: Inner, n: int)
    requires
        s.wf(),
        s.vol.clean(),
        map_at(s.vol.image@, s.sb.alloc_block as int, n, s.vol.alloc),
    ensures
        s.vol.lo() <= s.sb.alloc_block,
        forall|b: int|
            s.sb.alloc_block <= b < s.sb.alloc_block + n ==> #[trigger] s.vol.owner@.contains_key(
                b,
            ) && s.vol.owner@[b] == Owner::Area,
{
    let start = s.sb.alloc_block as int;
    assert(s.vol.d(start) == image_block(s.vol.image@, start));
    assert(s.vol.owner@.contains_key(start));
}

/// The journal of volume `c` holds, at byte `at`, the transaction of its dirty inodes, and the
/// superblock on disk says so; `tail` is where the journal began before.
pub open spec fn committed(c: Inner, seq: u64, at: int, tail: u32) -> bool {
    let full = tx_bytes(seq, dirty_ops(c));
    &&& seq > 0
    &&& tx_at_offset(c.vol.image@, c.sb.journal_blocks as int, at, full)
    &&& c.sb.journal_tail == if at == 0 {
        0
    } else {
        tail
    }
    &&& c.sb.journal_committed == seq
    &&& c.sb.journal_head == if at + full.len() <= u32::MAX {
        (at + full.len()) as u32
    } else {
        u32::MAX
    }
    &&& c.vol.image@.len() >= (2 + c.sb.journal_blocks) * 4096
    &&& image_block(c.vol.image@, 0) == c.sb@.bytes()
}

/// Volume `s1` is `c` with its dirty inodes in their places.
pub open spec fn settled_from(c: Inner, s1: Inner) -> bool {
    &&& s1.sb@ == (SuperView {
        mtime: s1.sb.mtime,
        total_blocks: s1.sb.total_blocks,
        journal_tail: c.sb.journal_head,
        ..c.sb@
    })
    &&& s1.vol.owner == c.vol.owner
    &&& forall|b: int| #[trigger]
        c.vol.owner@.contains_key(b) && !(c.vol.owner@[b] is Table) ==> image_block(
            s1.vol.image@,
            b,
        ) == image_block(c.vol.image@, b)
    &&& forall|y: u64|
        !c.dirty_inodes@.contains(y) ==> #[trigger] slot(s1.vol, c.table(), y as int) == slot(
            c.vol,
            c.table(),
            y as int,
        )
}

/// The journals of two images are the same.
proof fn lemma_journal_same(i0: Seq<u8>, i1: Seq<u8>, n: int)
    requires
        n >= 0,
        forall|b: int| 1 <= b < 1 + n ==> #[trigger] image_block(i1, b) == image_block(i0, b),
    ensures
        journal_bytes(i1, n) == journal_bytes(i0, n),
{
    assert forall|p: int| 0 <= p < n * 4096 implies journal_bytes(i1, n)[p] == journal_bytes(
        i0,
        n,
    )[p] by {
        assert(image_block(i1, 1 + p / 4096) == image_block(i0, 1 + p / 4096));
    }
    assert(journal_bytes(i1, n) =~= journal_bytes(i0, n));
}

/// A slot of the table is the same where the blocks of the table are.
proof fn lemma_slot_same(s0: Inner, s1: Inner, y: int)
    requires
        s0.wf(),
        s1.vol.owner == s0.vol.owner,
        y >= 0,
        forall|b: int| #[trigger] s0.vol.owner@.contains_key(b) ==> s1.vol.d(b) == s0.vol.d(b),
    ensures
        slot(s1.vol, s0.table(), y) == slot(s0.vol, s0.table(), y),
{
    let t = s0.table();
    lemma_find_some(t, y / 16);
    if let Some(e) = find_ext(t, y / 16) {
        let k = t.index_of(e);
        assert(table_ext_claimed(s0.vol.owner@, t[k]));
        assert(s0.vol.owner@.contains_key(e.physical + (y / 16 - e.logical)));
    }
}

/// What is written first is the data: the journal and the inode table are left alone.
proof fn lemma_data_first(m: Inner, sa: Inner, w: Inner)
    requires
        m.wf(),
        w.vol.clean(),
        base_kept(m.vol, sa.vol),
        base_kept(sa.vol, w.vol),
        table_kept(m.vol, sa.vol),
        forall|b: int| b >= 0 ==> #[trigger] w.vol.d(b) == sa.vol.d(b),
        m.sb.journal_blocks + 2 == m.vol.lo(),
    ensures
        forall|b: int| #[trigger]
            m.vol.owner@.contains_key(b) && m.vol.owner@[b] is Table ==> image_block(
                w.vol.image@,
                b,
            ) == m.vol.d(b),
        forall|b: int|
            1 <= b < 1 + m.sb.journal_blocks ==> #[trigger] image_block(w.vol.image@, b)
                == image_block(m.vol.image@, b),
{
    assert forall|b: int| #[trigger]
        m.vol.owner@.contains_key(b) && m.vol.owner@[b] is Table implies image_block(
        w.vol.image@,
        b,
    ) == m.vol.d(b) by {
        assert(b >= 0);
        assert(w.vol.d(b) == sa.vol.d(b));
    }
    assert forall|b: int| 1 <= b < 1 + m.sb.journal_blocks implies #[trigger] image_block(
        w.vol.image@,
        b,
    ) == image_block(m.vol.image@, b) by {
        assert(image_block(w.vol.image@, b) == image_block(sa.vol.image@, b));
    }
}

/// Volume `m` was written back with a journal: `w` once its data was written, `p` once its
/// free-space map was, `c` once its journal was, and `s1` in the end.
#[verifier::rlimit(60)]
proof fn lemma_journaled(m: Inner, w: Inner, p: Inner, c: Inner, s1: Inner)
    requires
        lists_dirty(m, dirty_ops(w)),
        m.dirty_inodes == w.dirty_inodes,
        w.wf(),
        w.vol.clean(),
        w.record_cache is None,
        w@ == s1@,
        p == (Inner { vol: p.vol, sb: p.sb, ..w }),
        c == (Inner { vol: c.vol, sb: c.sb, journal: c.journal, ..p }),
        s1 == (Inner { vol: s1.vol, sb: s1.sb, dirty_inodes: s1.dirty_inodes, ..c }),
        c.wf(),
        c.vol.clean(),
        mapped(c),
        committed(
            c,
            c.journal.seq,
            p.journal.slot(tx_bytes(c.journal.seq, dirty_ops(p)).len() as int),
            p.sb.journal_tail,
        ),
        settled_from(c, s1),
        rests(s1),
        m.sync_mode is Full ==> exists|f: Image| #[trigger]
            record_forced(
                p,
                f,
                c,
                p.journal.slot(tx_bytes(c.journal.seq, dirty_ops(p)).len() as int),
                tx_bytes(c.journal.seq, dirty_ops(p)),
            ),
        p.sb.journal_tail == m.sb.journal_tail,
        p.sb.journal_head == m.sb.journal_head,
        p.journal.head == p.sb.journal_head,
        c.sb.journal_blocks == m.sb.journal_blocks,
        p.journal.blocks == m.sb.journal_blocks,
        c.vol == (Volume { image: c.vol.image, ..p.vol }),
        forall|b: int|
            b >= p.vol.lo() ==> #[trigger] image_block(c.vol.image@, b) == image_block(
                p.vol.image@,
                b,
            ),
        files_kept(w.vol, p.vol),
        p.vol.clean(),
        extends(w.vol.image, p.vol.image),
        extends(p.vol.image, c.vol.image),
        extends(c.vol.image, s1.vol.image),
        forall|b: int|
            1 <= b < 1 + c.sb.journal_blocks ==> #[trigger] image_block(s1.vol.image@, b)
                == image_block(c.vol.image@, b),
        forall|b: int| #[trigger]
            m.vol.owner@.contains_key(b) && m.vol.owner@[b] is Table ==> w.vol.owner@.contains_key(
                b,
            ) && w.vol.owner@[b] == m.vol.owner@[b] && image_block(w.vol.image@, b) == m.vol.d(b),
        forall|b: int|
            1 <= b < 1 + m.sb.journal_blocks ==> #[trigger] image_block(w.vol.image@, b)
                == image_block(m.vol.image@, b),
    ensures
        journaled(m, s1),
{
    let ops = dirty_ops(w);
    let seq = c.journal.seq;
    let jb = c.sb.journal_blocks as int;
    let full = tx_bytes(seq, ops);
    let at = p.journal.slot(full.len() as int);
    assert(dirty_ops(p) == ops);
    assert(dirty_ops(c) == ops);
    lemma_journal_same(c.vol.image@, s1.vol.image@, jb);
    assert(tx_at_offset(s1.vol.image@, jb, at, full));
    assert forall|k: int| 0 <= k < ops.len() implies (#[trigger] ops[k]).data == slot(
        s1.vol,
        s1.table(),
        ops[k].key as int,
    ) by {
        let x = ops[k].key;
        assert(c.dirty_inodes@.contains(x));
        assert(c.inodes@.contains_key(x));
        assert(!s1.dirty_inodes@.contains(x));
        assert(persisted(s1.vol, s1.table(), s1.inodes@[x]));
    }
    assert(journaled_as(m, s1, seq, ops));
    assert(data_first(m, w, s1));
    if m.sync_mode is Full {
        let f = choose|f: Image| #[trigger] record_forced(p, f, c, at, full);
        assert forall|b: int| #[trigger]
            m.vol.owner@.contains_key(b) && m.vol.owner@[b] is Table implies image_block(f@, b)
            == m.vol.d(b) by {
            assert(w.vol.owner@.contains_key(b));
            assert(p.vol.owner@.contains_key(b));
            assert(p.vol.d(b) == w.vol.d(b));
            assert(w.vol.d(b) == image_block(w.vol.image@, b));
            assert(p.vol.d(b) == image_block(p.vol.image@, b));
            assert(image_block(f@, b) == image_block(p.vol.image@, b));
        }
        assert(logged(f@, jb, seq, ops));
        assert(forced(m, f, s1));
    }
    if drained(m) && m.sb.journal_blocks * 4096 <= u32::MAX {
        lemma_recovers(c, s1, seq, at);
        assert forall|b: int| #[trigger]
            m.vol.owner@.contains_key(b) && m.vol.owner@[b] is Table implies image_block(
            c.vol.image@,
            b,
        ) == m.vol.d(b) by {
            assert(w.vol.owner@.contains_key(b));
            assert(p.vol.owner@.contains_key(b));
            assert(p.vol.d(b) == w.vol.d(b));
            assert(w.vol.d(b) == image_block(w.vol.image@, b));
            assert(p.vol.d(b) == image_block(p.vol.image@, b));
            assert(image_block(c.vol.image@, b) == image_block(p.vol.image@, b));
        }
        assert(commit_holds(m, c, s1));
    }
}

/// What can keep volume `s0` from being written back; `s1` is what is left of the attempt.
#[verifier::opaque]
pub open spec fn flush_failed(s0: Inner, s1: Inner, e: Error) -> bool {
    ||| e.is(ENOSPC) && (s0.full(0) || exists|m: Inner| cramped(s0, m))
    ||| e.is(EIO) && journal_short(s1)
    ||| e.is(ERANGE) && exists|ino: u64|
        s1.inodes@.contains_key(ino) && attrs_too_large(#[trigger] s1.inodes@[ino])
    ||| e.is(EFBIG) && exists|ino: u64|
        s1.inodes@.contains_key(ino) && extents_too_many(#[trigger] s1.inodes@[ino])
    ||| e.is(EFBIG) && s1.vol.alloc.free@.len() > MAX_MAP_RUNS
}

/// The blocks of inodes depend on their extents alone.
proof fn lemma_inodes_room(m0: Map<u64, Inode>, m1: Map<u64, Inode>, list: Seq<u64>)
    requires
        forall|x: u64| #[trigger] list.contains(x) ==> m1[x].extents@.len() == m0[x].extents@.len(),
    ensures
        inodes_room(m1, list) == inodes_room(m0, list),
        inodes_room(m0, list) >= 0,
    decreases list.len(),
{
    if list.len() > 0 {
        let front = list.drop_last();
        assert forall|x: u64| #[trigger] front.contains(x) implies m1[x].extents@.len()
            == m0[x].extents@.len() by {
            let k = front.index_of(x);
            assert(list[k] == x);
            assert(list.contains(x));
        }
        lemma_inodes_room(m0, m1, front);
        assert(list.contains(list.last()));
        assert(list[list.len() - 1] == list.last());
    }
}

/// The free-space map is too large.
pub open spec fn map_failed(s: Inner, e: Error) -> bool {
    ||| e.is(EFBIG) && s.vol.alloc.free@.len() > MAX_MAP_RUNS
    ||| e.is(ENOSPC) && s.vol.full(
        2 * area_blocks(24 + 16 * (s.vol.alloc.free@.len() as int + 1)),
    )
}

/// Writing the volume back takes no blocks but those for the free-space map.
pub open spec fn calm(s: Inner) -> bool {
    &&& s.record_cache is None
    &&& forall|x: u64| #[trigger] s.inodes@.contains_key(x) ==> plain(s.inodes@[x])
}

/// The room for a longer list is no smaller.
proof fn lemma_rooms_grow(m: Map<u64, Inode>, list: Seq<u64>, k: int)
    requires
        0 <= k <= list.len(),
    ensures
        0 <= inodes_room(m, list.take(k)) <= inodes_room(m, list),
    decreases list.len() - k,
{
    lemma_inodes_room(m, m, list.take(k));
    if k == list.len() {
        assert(list.take(k) =~= list);
    } else {
        lemma_rooms_grow(m, list, k + 1);
        assert(list.take(k + 1).drop_last() =~= list.take(k));
    }
}

/// What belongs to the dirty inodes stands where the blocks in use are the same.
proof fn lemma_all_stand(s0: Inner, s1: Inner)
    requires
        s0.wf(),
        forall|x: u64| #[trigger]
            s0.dirty_inodes@.contains(x) ==> parts_stand(s0.vol, s0.inodes@[x]),
        s1.dirty_inodes == s0.dirty_inodes,
        s1.inodes == s0.inodes,
        forall|b: int| #[trigger]
            s0.vol.owner@.contains_key(b) && s0.vol.owner@[b] != Owner::Area ==> s1.vol.d(b)
                == s0.vol.d(b),
    ensures
        forall|x: u64| #[trigger]
            s1.dirty_inodes@.contains(x) ==> parts_stand(s1.vol, s1.inodes@[x]),
{
    assert forall|x: u64| #[trigger] s1.dirty_inodes@.contains(x) implies parts_stand(
        s1.vol,
        s1.inodes@[x],
    ) by {
        assert(s0.dirty_inodes@.contains(x));
        assert(s0.inodes@.contains_key(x));
        assert(inode_ok(s0.vol, s0.record_cache, s0.rb(), s0.inodes@[x]));
        lemma_parts_kept(s0.vol, s1.vol, s0.inodes@[x]);
    }
}

impl Inner {
    /// Writes the free-space map.
    #[verifier::rlimit(60)]
    fn place_map(&mut self) -> (r: Result<()>)
        requires
            old(self).wf(),
            old(self).writable,
            old(self).vol.clean(),
            old(self).record_cache is None,
        ensures
            extends(old(self).vol.image, final(self).vol.image),
            final(self).wf(),
            final(self)@ == old(self)@,
            keeps(*old(self), *final(self)),
            *final(self) == (Inner { vol: final(self).vol, sb: final(self).sb, ..*old(self) }),
            final(self).sb@ == (SuperView {
                alloc_block: final(self).sb.alloc_block,
                total_blocks: final(self).sb.total_blocks,
                ..old(self).sb@
            }),
            final(self).vol.clean(),
            final(self).vol.image@.len() >= old(self).vol.image@.len(),
            files_kept(old(self).vol, final(self).vol),
            forall|b: int|
                1 <= b < 1 + old(self).sb.journal_blocks ==> #[trigger] image_block(
                    final(self).vol.image@,
                    b,
                ) == image_block(old(self).vol.image@, b),
            untouched(*old(self)) ==> r is Ok && one_taken(
                old(self).vol.alloc,
                final(self).vol.alloc,
            ) && (old(self).vol.whole() ==> final(self).vol.whole() && final(self).vol.image@.len()
                == old(self).vol.image@.len()),
            final(self).vol.end() <= old(self).vol.end() + 2 * area_blocks(
                24 + 16 * (MAX_MAP_RUNS as int + 1),
            ),
            match r {
                Ok(_) => mapped(*final(self)),
                Err(e) => map_failed(*final(self), e) && final(self).vol == old(self).vol && (e.is(
                    ENOSPC,
                ) ==> old(self).vol.full(
                    2 * area_blocks(24 + 16 * (MAX_MAP_RUNS as int + 1)),
                )),
            },
    {
        let ghost s1 = *self;
        let start = match self.vol.write_map(self.sb.alloc_block) {
            Ok(b) => b,
            Err(e) => {
                assert(e.is(ENOSPC) ==> area_blocks(
                    24 + 16 * (s1.vol.alloc.free@.len() as int + 1),
                ) <= area_blocks(24 + 16 * (MAX_MAP_RUNS as int + 1)));
                return Err(e);
            },
        };
        self.sb.alloc_block = start;
        self.sb.total_blocks = self.vol.alloc.total_blocks();
        let ghost s2 = *self;
        let ghost n = area_len(s2.vol.d(start as int));
        proof {
            assert(s2.area_ok()) by {
                assert forall|b: int| start <= b < start + n implies #[trigger] s2.vol.owner@.contains_key(
                    b) && s2.vol.owner@[b] == Owner::Area by {}
            }
            lemma_flush_step(s1, s2);
            assert(map_at(s2.vol.image@, start as int, n, s2.vol.alloc));
            assert forall|b: int| 1 <= b < 1 + s1.sb.journal_blocks implies #[trigger] image_block(
                s2.vol.image@,
                b,
            ) == image_block(s1.vol.image@, b) by {}
        }
        Ok(())
    }

    /// Writes the superblock, and shrinks the image.
    #[verifier::rlimit(60)]
    fn write_summary(&mut self)
        requires
            old(self).wf(),
            old(self).writable,
            old(self).vol.clean(),
            old(self).record_cache is None,
            old(self).dirty_inodes@.len() == 0,
            mapped(*old(self)),
        ensures
            extends(old(self).vol.image, final(self).vol.image),
            rests(*final(self)),
            final(self)@ == old(self)@,
            keeps(*old(self), *final(self)),
            *final(self) == (Inner { vol: final(self).vol, sb: final(self).sb, ..*old(self) }),
            final(self).sb@ == (SuperView {
                mtime: final(self).sb.mtime,
                total_blocks: final(self).sb.total_blocks,
                journal_tail: old(self).sb.journal_head,
                ..old(self).sb@
            }),
            final(self).vol.end() <= old(self).vol.end(),
            final(self).vol.owner == old(self).vol.owner,
            forall|b: int| #[trigger]
                old(self).vol.owner@.contains_key(b) ==> image_block(final(self).vol.image@, b)
                    == image_block(old(self).vol.image@, b),
            tail_cut_off(
                old(self).vol.alloc,
                final(self).vol.alloc,
                final(self).vol.image@.len() as int,
            ),
            final(self).sb.total_blocks == final(self).vol.alloc.total_blocks,
            old(self).vol.whole() ==> final(self).vol.image@.len() == if tail_unused(
                old(self).vol.alloc,
            ) {
                final(self).vol.alloc.total_blocks * 4096
            } else {
                old(self).vol.image@.len() as int
            },
            forall|b: int|
                1 <= b < 1 + old(self).sb.journal_blocks ==> #[trigger] image_block(
                    final(self).vol.image@,
                    b,
                ) == image_block(old(self).vol.image@, b),
    {
        let ghost s0 = *self;
        let ghost start = s0.sb.alloc_block;
        let ghost n = choose|n: int| #[trigger]
            map_at(s0.vol.image@, start as int, n, s0.vol.alloc);
        self.sb.mtime = Timespec::now();
        self.sb.total_blocks = self.vol.alloc.total_blocks();
        self.sb.journal_tail = self.sb.journal_head;
        let ghost s2 = *self;
        proof {
            lemma_area_same(s0, s2);
            lemma_flush_step(s0, s2);
        }
        self.write_super();
        let ghost s3 = *self;
        let ghost total = s3.sb.total_blocks;
        proof {
            assert(s0.vol.d(start as int) == image_block(s0.vol.image@, start as int));
            assert(s0.vol.owner@.contains_key(start as int));
            lemma_map_same(s2.vol.image@, s3.vol.image@, start as int, n, s3.vol.alloc, s2.vol.lo());
        }
        self.vol.shrink();
        self.sb.total_blocks = self.vol.alloc.total_blocks();
        proof {
            let i3 = s3.vol.image@;
            let i4 = self.vol.image@;
            let t4 = self.vol.alloc.total_blocks as int;
            assert forall|b: int| #[trigger]
                s3.vol.owner@.contains_key(b) implies self.vol.d(b) == s3.vol.d(b) && b < t4
                && image_block(i4, b) == image_block(s0.vol.image@, b) by {
                assert(self.vol.owner@.contains_key(b));
                assert(image_block(i3, b) == image_block(s2.vol.image@, b));
            }
            assert(files_kept(s3.vol, self.vol));
            assert forall|b: int| start <= b < start + n implies #[trigger] s3.vol.owner@.contains_key(
                b,
            ) && s3.vol.owner@[b] == Owner::Area by {}
            assert(s3.vol.owner@.contains_key(start as int));
            assert(s3.vol.owner@.contains_key(start + n - 1));
            assert(self.vol.d(start as int) == s3.vol.d(start as int));
            assert(self.area_ok());
            assert(area_only(self.vol, self.sb.alloc_block)) by {
                assert forall|b: int| #[trigger]
                    self.vol.owner@.contains_key(b)
                        && self.vol.owner@[b] == Owner::Area implies start <= b < start + area_len(
                    self.vol.d(start as int),
                ) by {
                    assert(in_place(s3.vol, s3.inodes@, s3.table(), start, b, Owner::Area));
                }
            }
            lemma_flush_step(s3, *self);
            lemma_map_cut(i3, i4, start as int, n, s3.vol.alloc, t4);
            assert(map_covers(*self, n, s3.vol.alloc)) by {
                assert forall|b: int| #[trigger] self.vol.owner@.contains_key(b) implies b
                    < s3.vol.alloc.total_blocks && !s3.vol.alloc.is_free(b) by {
                    assert(s3.vol.owner@.contains_key(b));
                }
            }
            let lo = self.vol.lo();
            assert(lo <= t4);
            assert(image_block(i4, 0) == image_block(i3, 0));
            assert(image_block(i4, 1 + self.sb.journal_blocks) == image_block(
                i3,
                1 + self.sb.journal_blocks,
            ));
            assert((SuperView { total_blocks: total, ..self.sb@ }) == s3.sb@);
            assert(super_at(*self, total));
            assert forall|b: int| 1 <= b < 1 + s0.sb.journal_blocks implies #[trigger] image_block(
                i4,
                b,
            ) == image_block(s0.vol.image@, b) by {
                assert(image_block(i3, b) == image_block(s2.vol.image@, b));
            }
        }
    }

    /// Writes what belongs to the dirty inodes to disk.
    fn store_dirty_parts(&mut self) -> (r: Result<()>)
        requires
            old(self).wf(),
            old(self).writable,
            old(self).record_cache is None,
        ensures
            final(self).wf(),
            final(self)@ == old(self)@,
            keeps(*old(self), *final(self)),
            *final(self) == (Inner {
                vol: final(self).vol,
                inodes: final(self).inodes,
                ..*old(self)
            }),
            base_kept(old(self).vol, final(self).vol),
            table_kept(old(self).vol, final(self).vol),
            final(self).load() <= old(self).load() + inodes_room(
                old(self).inodes@,
                old(self).dirty_inodes@,
            ),
            calm(*old(self)) ==> r is Ok && calm(*final(self)) && final(self).vol == old(self).vol,
            match r {
                Ok(_) => forall|x: u64| #[trigger]
                    final(self).dirty_inodes@.contains(x) ==> parts_stand(
                        final(self).vol,
                        final(self).inodes@[x],
                    ),
                Err(e) => {
                    ||| e.is(ENOSPC) && old(self).full(
                        inodes_room(old(self).inodes@, old(self).dirty_inodes@),
                    )
                    ||| e.is(ERANGE) && exists|ino: u64|
                        final(self).inodes@.contains_key(ino) && attrs_too_large(
                            #[trigger] final(self).inodes@[ino],
                        )
                    ||| e.is(EFBIG) && exists|ino: u64|
                        final(self).inodes@.contains_key(ino) && extents_too_many(
                            #[trigger] final(self).inodes@[ino],
                        )
                },
            },
    {
        let ghost s0 = *self;
        let ghost list = self.dirty_inodes@;
        let n: usize = self.dirty_inodes.len();
        let mut k: usize = 0;
        assert(list.take(0).len() == 0);
        while k < n
            invariant
                self.wf(),
                self@ == s0@,
                s0 == *old(self),
                s0.writable,
                keeps(s0, *self),
                *self == (Inner { vol: self.vol, inodes: self.inodes, ..s0 }),
                s0.record_cache is None,
                base_kept(s0.vol, self.vol),
                table_kept(s0.vol, self.vol),
                list == s0.dirty_inodes@,
                n == list.len(),
                k <= n,
                self.inodes@.dom() == s0.inodes@.dom(),
                forall|x: u64| #[trigger]
                    self.inodes@.contains_key(x) ==> self.inodes@[x].extents
                        == s0.inodes@[x].extents,
                forall|j: int|
                    0 <= j < k ==> parts_stand(self.vol, self.inodes@[#[trigger] list[j]]),
                self.vol.end() <= s0.vol.end() + inodes_room(s0.inodes@, list.take(k as int)),
                calm(s0) ==> calm(*self) && self.vol == s0.vol,
            decreases n - k,
        {
            let ghost sa = *self;
            let ino = self.dirty_inodes[k];
            assert(self.dirty_inodes@.contains(ino));
            assert(self.inodes@.contains_key(ino));
            proof {
                let next = list.take(k + 1);
                assert(next.drop_last() =~= list.take(k as int));
                assert(next.last() == ino);
                assert(inode_room(sa.inodes@[ino]) == inode_room(s0.inodes@[ino]));
                lemma_rooms_grow(s0.inodes@, list, k + 1);
            }
            match self.store_parts(ino) {
                Ok(_) => {},
                Err(e) => {
                    assert(self.inodes@.contains_key(ino));
                    return Err(e);
                },
            }
            proof {
                assert forall|j: int| 0 <= j < k + 1 implies parts_stand(
                    self.vol,
                    self.inodes@[#[trigger] list[j]],
                ) by {
                    if list[j] != ino {
                        assert(sa.dirty_inodes@.contains(list[j]));
                        assert(sa.inodes@.contains_key(list[j]));
                    }
                }
                assert forall|x: u64| #[trigger] self.inodes@.contains_key(x) implies self.inodes@[x].extents
                    == s0.inodes@[x].extents && (calm(s0) ==> plain(self.inodes@[x])) by {
                    assert(sa.inodes@.contains_key(x));
                }
            }
            k = k + 1;
        }
        proof {
            assert(list.take(n as int) =~= list);
            assert forall|x: u64| #[trigger] self.dirty_inodes@.contains(x) implies parts_stand(
                self.vol,
                self.inodes@[x],
            ) by {
                let j = list.index_of(x);
                assert(list[j] == x);
            }
        }
        Ok(())
    }

    /// Writes the dirty inodes into the inode table.
    fn persist_dirty(&mut self)
        requires
            old(self).wf(),
            old(self).writable,
            forall|x: u64| #[trigger]
                old(self).dirty_inodes@.contains(x) ==> parts_stand(
                    old(self).vol,
                    old(self).inodes@[x],
                ),
        ensures
            final(self).vol.owner == old(self).vol.owner,
            forall|b: int| #[trigger]
                old(self).vol.owner@.contains_key(b) && !(old(self).vol.owner@[b] is Table)
                    ==> final(self).vol.d(b) == old(self).vol.d(b),
            forall|y: u64| !old(self).dirty_inodes@.contains(y) ==> #[trigger] slot(
                final(self).vol,
                old(self).table(),
                y as int,
            ) == slot(old(self).vol, old(self).table(), y as int),
            old(self).vol.whole() ==> final(self).vol.whole() && final(self).vol.image@.len()
                == old(self).vol.image@.len(),
            extends(old(self).vol.image, final(self).vol.image),
            final(self).wf(),
            final(self)@ == old(self)@,
            keeps(*old(self), *final(self)),
            *final(self) == (Inner {
                vol: final(self).vol,
                dirty_inodes: final(self).dirty_inodes,
                ..*old(self)
            }),
            final(self).dirty_inodes@.len() == 0,
            base_kept(old(self).vol, final(self).vol),
            final(self).vol.alloc == old(self).vol.alloc,
    {
        let ghost s0 = *self;
        while self.dirty_inodes.len() > 0
            invariant
                self.wf(),
                self@ == s0@,
                s0 == *old(self),
                s0.writable,
                keeps(s0, *self),
                *self == (Inner { vol: self.vol, dirty_inodes: self.dirty_inodes, ..s0 }),
                base_kept(s0.vol, self.vol),
                extends(s0.vol.image, self.vol.image),
                s0.vol.whole() ==> self.vol.whole() && self.vol.image@.len() == s0.vol.image@.len(),
                self.vol.owner == s0.vol.owner,
                forall|b: int| #[trigger]
                    s0.vol.owner@.contains_key(b) && !(s0.vol.owner@[b] is Table) ==> self.vol.d(b)
                        == s0.vol.d(b),
                forall|y: u64| !s0.dirty_inodes@.contains(y) ==> #[trigger] slot(
                    self.vol,
                    s0.table(),
                    y as int,
                ) == slot(s0.vol, s0.table(), y as int),
                forall|x: u64| #[trigger]
                    self.dirty_inodes@.contains(x) ==> s0.dirty_inodes@.contains(x),
                self.vol.alloc == s0.vol.alloc,
                forall|x: u64| #[trigger]
                    self.dirty_inodes@.contains(x) ==> parts_stand(self.vol, self.inodes@[x]),
            decreases self.dirty_inodes@.len(),
        {
            let ghost sa = *self;
            let n: usize = self.dirty_inodes.len();
            let ino = self.dirty_inodes[n - 1];
            assert(self.dirty_inodes@.contains(ino));
            assert(self.inodes@.contains_key(ino));
            self.persist_inode(ino);
            proof {
                assert forall|x: u64| #[trigger] self.dirty_inodes@.contains(x) implies parts_stand(
                    self.vol,
                    self.inodes@[x],
                ) by {
                    assert(sa.dirty_inodes@.contains(x));
                    assert(sa.inodes@.contains_key(x));
                }
            }
        }
    }

    /// Writes the dirty inodes into the journal, and a superblock that leads there.
    #[verifier::rlimit(60)]
    fn commit_inodes(&mut self) -> (r: Result<()>)
        requires
            old(self).wf(),
            old(self).writable,
            old(self).vol.clean(),
            old(self).record_cache is None,
            mapped(*old(self)),
        ensures
            extends(old(self).vol.image, final(self).vol.image),
            final(self).wf(),
            final(self)@ == old(self)@,
            final(self).vol.clean(),
            keeps(*old(self), Inner { sb: old(self).sb, ..*final(self) }),
            mapped(*final(self)),
            old(self).vol.whole() ==> final(self).vol.whole() && final(self).vol.image@.len()
                == old(self).vol.image@.len(),
            *final(self) == (Inner {
                vol: final(self).vol,
                sb: final(self).sb,
                journal: final(self).journal,
                ..*old(self)
            }),
            final(self).vol == (Volume { image: final(self).vol.image, ..old(self).vol }),
            forall|b: int|
                b >= old(self).vol.lo() ==> #[trigger] image_block(final(self).vol.image@, b)
                    == image_block(old(self).vol.image@, b),
            final(self).journal.blocks == old(self).journal.blocks,
            super_kept(*old(self), *final(self)),
            final(self).sb.alloc_block == old(self).sb.alloc_block,
            r is Err ==> final(self).sb == old(self).sb,
            r is Err && old(self).journal.seq < u64::MAX ==> 272 * old(self).dirty_inodes@.len()
                + 40 > old(self).journal.blocks * 4096,
            match r {
                Ok(_) => {
                    let full = tx_bytes(final(self).journal.seq, dirty_ops(*old(self)));
                    let at = old(self).journal.slot(full.len() as int);
                    &&& committed(*final(self), final(self).journal.seq, at, old(self).sb.journal_tail)
                    &&& old(self).sync_mode is Full ==> exists|f: Image| #[trigger]
                        record_forced(*old(self), f, *final(self), at, full)
                },
                Err(e) => e.is(EIO) && (272 * final(self).dirty_inodes@.len() + 40
                    > final(self).journal.blocks * 4096 || final(self).journal.seq == u64::MAX),
            },
    {
        let ghost s0 = *self;
        match self.journal_inodes() {
            Ok(_) => {},
            Err(e) => {
                proof {
                    let n = choose|n: int| #[trigger]
                        map_at(s0.vol.image@, s0.sb.alloc_block as int, n, s0.vol.alloc);
                    lemma_mapped_behind(s0, n);
                    lemma_map_same(
                        s0.vol.image@,
                        self.vol.image@,
                        s0.sb.alloc_block as int,
                        n,
                        s0.vol.alloc,
                        s0.vol.lo(),
                    );
                }
                return Err(e);
            },
        }
        let ghost s1 = *self;
        self.write_super();
        proof {
            let jb = s0.sb.journal_blocks as int;
            let ops = dirty_ops(s0);
            let full = tx_bytes(s1.journal.seq, ops);
            let at = s0.journal.slot(full.len() as int);
            assert(dirty_ops(*self) == ops);
            lemma_journal_same(s1.vol.image@, self.vol.image@, jb);
            assert(tx_at_offset(self.vol.image@, jb, at, full));
            if s0.sync_mode is Full {
                assert(record_forced(s0, s1.vol.image, *self, at, full));
            }
            let n = choose|n: int| #[trigger]
                map_at(s0.vol.image@, s0.sb.alloc_block as int, n, s0.vol.alloc);
            lemma_mapped_behind(s0, n);
            assert forall|b: int| b >= s0.vol.lo() implies #[trigger] image_block(
                self.vol.image@,
                b,
            ) == image_block(s0.vol.image@, b) by {
                assert(image_block(self.vol.image@, b) == image_block(s1.vol.image@, b));
                assert(image_block(s1.vol.image@, b) == image_block(s0.vol.image@, b));
            }
            lemma_map_same(
                s0.vol.image@,
                self.vol.image@,
                s0.sb.alloc_block as int,
                n,
                s0.vol.alloc,
                s0.vol.lo(),
            );
        }
        Ok(())
    }

    /// Writes the dirty inodes to their places, then the superblock, and shrinks the image.
    #[verifier::rlimit(60)]
    fn settle(&mut self)
        requires
            old(self).wf(),
            old(self).writable,
            old(self).vol.clean(),
            old(self).record_cache is None,
            mapped(*old(self)),
            forall|x: u64| #[trigger]
                old(self).dirty_inodes@.contains(x) ==> parts_stand(
                    old(self).vol,
                    old(self).inodes@[x],
                ),
        ensures
            extends(old(self).vol.image, final(self).vol.image),
            rests(*final(self)),
            final(self)@ == old(self)@,
            keeps(*old(self), *final(self)),
            *final(self) == (Inner {
                vol: final(self).vol,
                sb: final(self).sb,
                dirty_inodes: final(self).dirty_inodes,
                ..*old(self)
            }),
            settled_from(*old(self), *final(self)),
            final(self).vol.end() <= old(self).vol.end(),
            tail_cut_off(
                old(self).vol.alloc,
                final(self).vol.alloc,
                final(self).vol.image@.len() as int,
            ),
            final(self).sb.total_blocks == final(self).vol.alloc.total_blocks,
            old(self).vol.whole() ==> final(self).vol.image@.len() == if tail_unused(
                old(self).vol.alloc,
            ) {
                final(self).vol.alloc.total_blocks * 4096
            } else {
                old(self).vol.image@.len() as int
            },
            forall|b: int|
                1 <= b < 1 + old(self).sb.journal_blocks ==> #[trigger] image_block(
                    final(self).vol.image@,
                    b,
                ) == image_block(old(self).vol.image@, b),
    {
        let ghost s0 = *self;
        let ghost n = choose|n: int| #[trigger]
            map_at(s0.vol.image@, s0.sb.alloc_block as int, n, s0.vol.alloc);
        proof {
            lemma_mapped_behind(s0, n);
        }
        self.persist_dirty();
        let ghost s1 = *self;
        self.flush_blocks();
        let ghost s2 = *self;
        proof {
            let start = s0.sb.alloc_block as int;
            assert forall|b: int| #[trigger]
                s0.vol.owner@.contains_key(b) && !(s0.vol.owner@[b] is Table) implies image_block(
                s2.vol.image@,
                b,
            ) == image_block(s0.vol.image@, b) by {
                assert(b >= 0);
                assert(s2.vol.d(b) == s1.vol.d(b));
                assert(s0.vol.d(b) == image_block(s0.vol.image@, b));
            }
            assert(map_at(s2.vol.image@, start, n, s2.vol.alloc)) by {
                assert(s0.vol.owner@.contains_key(start + 0));
                assert forall|i: int| 0 <= i < n implies #[trigger] image_block(
                    s2.vol.image@,
                    start + i,
                ) == crate::allocmap::area_block(s0.vol.alloc.bytes(), n, i) by {
                    assert(s0.vol.owner@.contains_key(start + i));
                    assert(image_block(s0.vol.image@, start + i) == crate::allocmap::area_block(
                        s0.vol.alloc.bytes(),
                        n,
                        i,
                    ));
                }
            }
            assert(mapped(s2));
            assert forall|b: int| 1 <= b < 1 + s0.sb.journal_blocks implies #[trigger] image_block(
                s2.vol.image@,
                b,
            ) == image_block(s0.vol.image@, b) by {
                assert(image_block(s2.vol.image@, b) == image_block(s1.vol.image@, b));
            }
        }
        self.write_summary();
        proof {
            let t = s0.table();
            assert forall|b: int| #[trigger] s1.vol.owner@.contains_key(b) implies self.vol.d(b)
                == s1.vol.d(b) by {
                assert(b >= 0);
                assert(s2.vol.d(b) == s1.vol.d(b));
                assert(s2.vol.d(b) == image_block(s2.vol.image@, b));
                assert(self.vol.d(b) == image_block(self.vol.image@, b));
            }
            assert forall|y: u64| !s0.dirty_inodes@.contains(y) implies #[trigger] slot(
                self.vol,
                t,
                y as int,
            ) == slot(s0.vol, t, y as int) by {
                assert(slot(s1.vol, t, y as int) == slot(s0.vol, t, y as int));
                lemma_slot_same(s1, *self, y as int);
            }
        }
    }

    /// Writes back what belongs to the files and the free-space map, then the dirty inodes into the
    /// journal, then the inodes to their places and the superblock.
    #[verifier::rlimit(80)]
    fn write_volume(&mut self) -> (r: Result<()>)
        requires
            old(self).wf(),
            old(self).writable,
            old(self).record_cache is None,
        ensures
            final(self).wf(),
            final(self)@ == old(self)@,
            keeps(*old(self), *final(self)),
            final(self).sync_mode == old(self).sync_mode,
            final(self).record_blocks == old(self).record_blocks,
            super_kept(*old(self), *final(self)),
            r is Ok && calm(*old(self)) && untouched(*old(self))
                ==> final(self).vol.alloc.total_blocks == first_total(old(self).vol.alloc)
                && final(self).sb.total_blocks == final(self).vol.alloc.total_blocks && (
            old(self).vol.whole() && old(self).vol.image@.len() == old(self).vol.alloc.total_blocks
                * 4096 ==> final(self).vol.image@.len() == first_total(old(self).vol.alloc) * 4096),
            match r {
                Ok(_) => {
                    &&& rests(*final(self))
                    &&& !(final(self).sync_mode is Deferred) ==> journaled(
                        *old(self),
                        *final(self),
                    )
                    &&& final(self).load() <= old(self).load() + flush_room(*old(self))
                },
                Err(e) => {
                    &&& ({
                        ||| e.is(ENOSPC) && old(self).full(flush_room(*old(self)))
                        ||| e.is(EIO) && journal_short(*final(self))
                        ||| e.is(ERANGE) && exists|ino: u64|
                            final(self).inodes@.contains_key(ino) && attrs_too_large(
                                #[trigger] final(self).inodes@[ino],
                            )
                        ||| e.is(EFBIG) && exists|ino: u64|
                            final(self).inodes@.contains_key(ino) && extents_too_many(
                                #[trigger] final(self).inodes@[ino],
                            )
                        ||| e.is(EFBIG) && final(self).vol.alloc.free@.len() > MAX_MAP_RUNS
                    })
                    &&& calm(*old(self)) && 272 * old(self).dirty_inodes@.len() + 40 <= old(self).journal.blocks * 4096 && old(self).journal.seq < u64::MAX ==> map_failed(
                        *final(self),
                        e,
                    ) && final(self).vol.alloc == old(self).vol.alloc
                },
            },
    {
        let ghost mode = self.sync_mode;
        let ghost jb = self.sb.journal_blocks;
        let ghost m = *self;
        proof {
            lemma_inodes_room(m.inodes@, m.inodes@, m.dirty_inodes@);
        }
        match self.store_dirty_parts() {
            Ok(_) => {},
            Err(e) => return Err(e),
        }
        let ghost ops = dirty_ops(*self);
        let ghost sa = *self;
        self.flush_blocks();
        let ghost w = *self;
        proof {
            lemma_ops_listed(m, sa);
            assert(dirty_ops(w) == ops);
            lemma_all_stand(sa, w);
            lemma_data_first(m, sa, w);
        }
        match self.place_map() {
            Ok(_) => {},
            Err(e) => return Err(e),
        }
        let ghost p = *self;
        proof {
            lemma_all_stand(w, p);
            assert(dirty_ops(p) == ops);
        }
        if self.sync_mode != SyncMode::Deferred {
            match self.commit_inodes() {
                Ok(_) => {},
                Err(e) => return Err(e),
            }
            proof {
                assert forall|b: int| #[trigger] p.vol.owner@.contains_key(b) implies self.vol.d(b)
                    == p.vol.d(b) by {
                    assert(b >= p.vol.lo());
                    assert(image_block(self.vol.image@, b) == image_block(p.vol.image@, b));
                    assert(p.vol.d(b) == image_block(p.vol.image@, b));
                    assert(self.vol.d(b) == image_block(self.vol.image@, b));
                }
                lemma_all_stand(p, *self);
            }
        }
        let ghost c = *self;
        self.settle();
        proof {
            if !(mode is Deferred) {
                lemma_journaled(m, w, p, c, *self);
            }
        }
        Ok(())
    }

    /// Writes everything back to the image. A volume that is mounted read-only has nothing to
    /// write.
    #[verifier::rlimit(60)]
    pub fn flush_all(&mut self) -> (r: Result<()>)
        requires
            old(self).wf(),
        ensures
            final(self).wf(),
            final(self)@ == old(self)@,
            keeps(*old(self), *final(self)),
            old(self).writable && r is Ok && final(self).sound() && clear(*final(self)) ==> reopens(
                *final(self),
                final(self).vol.image@,
            ),
            final(self).sync_mode == old(self).sync_mode,
            final(self).record_blocks == old(self).record_blocks,
            super_kept(*old(self), *final(self)),
            r is Ok && old(self).writable && calm(*old(self)) && untouched(*old(self))
                ==> final(self).vol.alloc.total_blocks == first_total(old(self).vol.alloc)
                && final(self).sb.total_blocks == final(self).vol.alloc.total_blocks && (
            old(self).vol.whole() && old(self).vol.image@.len() == old(self).vol.alloc.total_blocks
                * 4096 ==> final(self).vol.image@.len() == first_total(old(self).vol.alloc) * 4096),
            !old(self).writable ==> r is Ok && *final(self) == *old(self),
            old(self).writable ==> match r {
                Ok(_) => {
                    &&& rests(*final(self))
                    &&& final(self).sync_mode is Full ==> ends_in_sync(*final(self))
                    &&& !(final(self).sync_mode is Deferred) ==> journaled(
                        *old(self),
                        *final(self),
                    )
                    &&& grew_little(*old(self), *final(self))
                },
                Err(e) => flush_failed(*old(self), *final(self), e) && (calm(*old(self))
                    && 272 * old(self).dirty_inodes@.len() + 40 <= old(self).journal.blocks * 4096
                    && old(self).journal.seq < u64::MAX ==> map_failed(*final(self), e)
                    && final(self).vol.alloc == old(self).vol.alloc),
            },
    {
        if !self.writable {
            return Ok(());
        }
        let ghost s0 = *self;
        match self.flush_record_cache() {
            Ok(_) => {},
            Err(e) => {
                assert(flush_failed(s0, *self, e)) by {
                    reveal(flush_failed);
                }
                return Err(e);
            },
        }
        let ghost m = *self;
        assert(settled(s0, m));
        match self.write_volume() {
            Ok(_) => {},
            Err(e) => {
                assert(flush_failed(s0, *self, e)) by {
                    reveal(flush_failed);
                    if e.is(ENOSPC) {
                        assert(cramped(s0, m));
                    }
                }
                return Err(e);
            },
        }
        let ghost s1 = *self;
        if self.sync_mode == SyncMode::Full {
            self.sync_image();
        }
        proof {
            reveal(grew_little);
            if self.sound() && clear(*self) {
                rested_image_reopens(*self);
            }
            if !(self.sync_mode is Deferred) {
                let (seq, ops) = choose|seq: u64, ops: Seq<JournalOp>|
                    journaled_as(m, s1, seq, ops);
                assert(lists_dirty(s0, ops)) by {
                    assert forall|x: u64| #[trigger] s0.dirty_inodes@.contains(x) implies exists|k:
                        int| 0 <= k < ops.len() && (#[trigger] ops[k]).key == x by {
                        assert(m.dirty_inodes@.contains(x));
                    }
                }
                assert(journaled_as(s0, *self, seq, ops));
                let w = choose|w: Inner| #[trigger] data_first(m, w, s1);
                if s0.sync_mode is Full {
                    let f = choose|f: Image| #[trigger] forced(m, f, s1);
                    let (q, o) = choose|q: u64, o: Seq<JournalOp>| #[trigger]
                        journaled_as(m, s1, q, o) && logged(
                            f@,
                            s1.sb.journal_blocks as int,
                            q,
                            o,
                        );
                    assert(lists_dirty(s0, o)) by {
                        assert forall|x: u64| #[trigger] s0.dirty_inodes@.contains(
                            x,
                        ) implies exists|k: int| 0 <= k < o.len() && (#[trigger] o[k]).key == x by {
                            assert(m.dirty_inodes@.contains(x));
                        }
                    }
                    assert(journaled_as(s0, *self, q, o));
                    assert forall|b: int| #[trigger]
                        s0.vol.owner@.contains_key(b)
                            && s0.vol.owner@[b] is Table implies image_block(f@, b) == s0.vol.d(b) by {
                        assert(m.vol.owner@.contains_key(b));
                    }
                    assert(forced(s0, f, *self));
                }
                if drained(s0) && s0.sb.journal_blocks * 4096 <= u32::MAX {
                    let c = choose|c: Inner| #[trigger] commit_holds(m, c, s1);
                    lemma_recovers_same(s1, *self, c.vol.image@);
                    assert(commit_holds(s0, c, *self)) by {
                        assert forall|b: int| #[trigger]
                            s0.vol.owner@.contains_key(b)
                                && s0.vol.owner@[b] is Table implies image_block(c.vol.image@, b)
                            == s0.vol.d(b) by {
                            assert(m.vol.owner@.contains_key(b));
                        }
                    }
                }
                assert(data_first(s0, w, *self)) by {
                    assert forall|b: int|
                        1 <= b < 1 + s0.sb.journal_blocks implies #[trigger] image_block(
                        w.vol.image@,
                        b,
                    ) == image_block(s0.vol.image@, b) by {
                        assert(image_block(m.vol.image@, b) == image_block(s0.vol.image@, b));
                    }
                    assert forall|b: int| #[trigger]
                        s0.vol.owner@.contains_key(b)
                            && s0.vol.owner@[b] is Table implies image_block(w.vol.image@, b)
                        == s0.vol.d(b) by {
                        assert(m.vol.owner@.contains_key(b));
                    }
                }
            }
        }
        Ok(())
    }

    /// Writes the changed blocks of the cache to the image.
    fn flush_blocks(&mut self)
        requires
            old(self).wf(),
        ensures
            old(self).vol.whole() ==> final(self).vol.whole() && final(self).vol.image@.len()
                == old(self).vol.image@.len(),
            extends(old(self).vol.image, final(self).vol.image),
            final(self).wf(),
            final(self)@ == old(self)@,
            keeps(*old(self), *final(self)),
            final(self).vol.clean(),
            final(self).vol.alloc == old(self).vol.alloc,
            base_kept(old(self).vol, final(self).vol),
            final(self).vol.owner == old(self).vol.owner,
            forall|b: int|
                b >= 0 ==> #[trigger] final(self).vol.d(b) == old(self).vol.d(b),
            *final(self) == (Inner { vol: final(self).vol, ..*old(self) }),
    {
        let ghost s0 = *self;
        self.vol.write_back();
        proof {
            crate::data::lemma_vol_unchanged(s0, *self);
        }
    }

    /// Has the host write the image to its disk.
    fn sync_image(&mut self)
        requires
            old(self).wf(),
        ensures
            extends(old(self).vol.image, final(self).vol.image),
            final(self).wf(),
            final(self)@ == old(self)@,
            holds(*old(self), *final(self)),
            bare(*old(self)) ==> bare(*final(self)),
            rests(*old(self)) ==> rests(*final(self)),
            ends_in_sync(*final(self)),
            final(self).sync_mode == old(self).sync_mode,
            final(self).vol.image@ == old(self).vol.image@,
            final(self).sb == old(self).sb,
            *final(self) == (Inner { vol: final(self).vol, ..*old(self) }),
            same_blocks(old(self).vol, final(self).vol),
            forall|b: int| #[trigger] final(self).vol.d(b) == old(self).vol.d(b),
    {
        let ghost s0 = *self;
        self.vol.image.sync();
        proof {
            assert forall|b: int| #[trigger] self.vol.d(b) == s0.vol.d(b) by {}
            assert(self.vol.wf());
            assert(same_blocks(s0.vol, self.vol));
            crate::data::lemma_vol_unchanged(s0, *self);
            if rests(s0) {
                let total = choose|total: u64| super_at(s0, total);
                assert(super_at(*self, total));
                let (n, a) = choose|n: int, a: Allocator| map_covers(s0, n, a);
                assert(map_covers(*self, n, a));
            }
        }
    }

    /// Writes everything back, and has the host write the image to its disk.
    pub fn sync(&mut self) -> (r: Result<()>)
        requires
            old(self).wf(),
        ensures
            final(self).wf(),
            final(self)@ == old(self)@,
            holds(*old(self), *final(self)),
            bare(*old(self)) ==> bare(*final(self)),
            !old(self).writable ==> final(self).vol.image@ == old(self).vol.image@,
            old(self).writable && r is Ok && final(self).sound() && clear(*final(self)) ==> reopens(
                *final(self),
                final(self).vol.image@,
            ),
            match r {
                Ok(_) => {
                    &&& ends_in_sync(*final(self))
                    &&& old(self).writable ==> rests(*final(self))
                    &&& old(self).writable && !(old(self).sync_mode is Deferred) ==> journaled(
                        *old(self),
                        *final(self),
                    )
                },
                Err(e) => old(self).writable && flush_failed(*old(self), *final(self), e),
            },
    {
        match self.flush_all() {
            Ok(_) => {},
            Err(e) => return Err(e),
        }
        let ghost s1 = *self;
        self.sync_image();
        proof {
            if old(self).writable && self.sound() && clear(*self) {
                rested_image_reopens(*self);
            }
            if old(self).writable && !(old(self).sync_mode is Deferred) {
                let (seq, ops) = choose|seq: u64, ops: Seq<JournalOp>|
                    journaled_as(*old(self), s1, seq, ops);
                assert(journaled_as(*old(self), *self, seq, ops));
                let w = choose|w: Inner| #[trigger] data_first(*old(self), w, s1);
                assert(data_first(*old(self), w, *self));
                if old(self).sync_mode is Full {
                    let f = choose|f: Image| #[trigger] forced(*old(self), f, s1);
                    let (q, o) = choose|q: u64, o: Seq<JournalOp>| #[trigger]
                        journaled_as(*old(self), s1, q, o) && logged(
                            f@,
                            s1.sb.journal_blocks as int,
                            q,
                            o,
                        );
                    assert(journaled_as(*old(self), *self, q, o));
                    assert(forced(*old(self), f, *self));
                }
                if drained(*old(self)) && old(self).sb.journal_blocks * 4096 <= u32::MAX {
                    let c = choose|c: Inner| #[trigger] commit_holds(*old(self), c, s1);
                    lemma_recovers_same(s1, *self, c.vol.image@);
                    assert(commit_holds(*old(self), c, *self));
                }
            }
        }
        Ok(())
    }

    /// Writes file data back to the image.
    pub fn flush_cache(&mut self) -> (r: Result<()>)
        requires
            old(self).wf(),
        ensures
            final(self).wf(),
            final(self)@ == old(self)@,
            keeps(*old(self), *final(self)),
            match r {
                Ok(_) => final(self).record_cache is None && final(self).vol.clean(),
                Err(e) => e.is(ENOSPC) && old(self).full(0),
            },
    {
        match self.flush_record_cache() {
            Ok(_) => {},
            Err(e) => return Err(e),
        }
        self.flush_blocks();
        Ok(())
    }

    /// Writes file data back to the image, and has the host write it to its disk.
    pub fn flush_cache_data(&mut self) -> (r: Result<()>)
        requires
            old(self).wf(),
        ensures
            final(self).wf(),
            final(self)@ == old(self)@,
            holds(*old(self), *final(self)),
            bare(*old(self)) ==> bare(*final(self)),
            match r {
                Ok(_) => final(self).record_cache is None && final(self).vol.clean()
                    && final(self).vol.image.log@.len() > 0
                    && final(self).vol.image.log@.last() is SyncData,
                Err(e) => e.is(ENOSPC) && old(self).full(0),
            },
    {
        match self.flush_cache() {
            Ok(_) => {},
            Err(e) => return Err(e),
        }
        let ghost s1 = *self;
        self.vol.image.sync_data();
        proof {
            assert forall|b: int| #[trigger] self.vol.d(b) == s1.vol.d(b) by {}
            assert(self.vol.wf());
            assert(same_blocks(s1.vol, self.vol));
            crate::data::lemma_vol_unchanged(s1, *self);
        }
        Ok(())
    }
}

/// The last thing that was asked of the host was to write the image to its disk.
pub open spec fn ends_in_sync(s: Inner) -> bool {
    s.vol.image.log@.len() > 0 && s.vol.image.log@.last() is SyncAll
}

/// A map on disk is left alone where its blocks are.
proof fn lemma_map_same(i0: Seq<u8>, i1: Seq<u8>, start: int, n: int, a: Allocator, lo: int)
    requires
        map_at(i0, start, n, a),
        lo <= start,
        i1.len() >= i0.len(),
        forall|b: int| b >= lo ==> #[trigger] image_block(i1, b) == image_block(i0, b),
    ensures
        map_at(i1, start, n, a),
{
    assert forall|i: int| 0 <= i < n implies #[trigger] image_block(i1, start + i)
        == crate::allocmap::area_block(a.bytes(), n, i) by {
        assert(image_block(i0, start + i) == crate::allocmap::area_block(a.bytes(), n, i));
        assert(image_block(i1, start + i) == image_block(i0, start + i));
    }
}

/// A map on disk is left alone where the image is cut behind it.
proof fn lemma_map_cut(i0: Seq<u8>, i1: Seq<u8>, start: int, n: int, a: Allocator, total: int)
    requires
        map_at(i0, start, n, a),
        start + n <= total,
        i1.len() == i0.len() || i1.len() >= total * 4096,
        forall|b: int| 0 <= b < total ==> #[trigger] image_block(i1, b) == image_block(i0, b),
    ensures
        map_at(i1, start, n, a),
{
    assert forall|i: int| 0 <= i < n implies #[trigger] image_block(i1, start + i)
        == crate::allocmap::area_block(a.bytes(), n, i) by {
        assert(image_block(i0, start + i) == crate::allocmap::area_block(a.bytes(), n, i));
        assert(image_block(i1, start + i) == image_block(i0, start + i));
    }
}

} // verus!
