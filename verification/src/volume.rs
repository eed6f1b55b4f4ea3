//! A volume: the image behind its block cache, the free-space map, and who owns which block.

use vstd::prelude::*;

use crate::allocator::{is_best_fit, none_fits, taken, Allocator};
use crate::bytes::{copy_into, splice, zero_vec};
use crate::cache::{all_written, disk_block, within, BlockCache};
use crate::compress::blocks_for;
use crate::error::{Error, Result, ENOSPC};
use crate::store::{block_limit, extends, image_block, max_blocks, Image};

verus! {

broadcast use crate::store::group_extends;

/// What a used block is for.
pub ghost enum Owner {
    /// File data: block number `1` of inode `0`.
    Data(u64, int),
    /// The inode table: its block number `0`.
    Table(int),
    /// The extent tree of an inode.
    Tree(u64),
    /// The extended attributes of an inode.
    Xattr(u64),
    /// The free-space map.
    Area,
    /// Allocated, and not yet part of anything.
    Fresh,
}

/// The owner of block `j` of a run whose first block has owner `o`.
pub open spec fn shifted(o: Owner, j: int) -> Owner {
    match o {
        Owner::Data(ino, l) => Owner::Data(ino, l + j),
        Owner::Table(l) => Owner::Table(l + j),
        _ => o,
    }
}

/// Owners of blocks.
pub type Owners = Map<int, Owner>;

/// The owners after the `n` blocks from `start` on went to `o`.
pub open spec fn claimed(m: Owners, start: int, n: int, o: Owner) -> Owners {
    Map::new(
        |b: int| m.contains_key(b) || start <= b < start + n,
        |b: int|
            if start <= b < start + n {
                shifted(o, b - start)
            } else {
                m[b]
            },
    )
}

/// The owners after the `n` blocks from `start` on were given back.
pub open spec fn unclaimed(m: Owners, start: int, n: int) -> Owners {
    Map::new(|b: int| m.contains_key(b) && !(start <= b < start + n), |b: int| m[b])
}

/// Every used block has an owner, or was lost before.
#[verifier::opaque]
pub open spec fn accounted(a: Allocator, m: Owners, lost: Set<int>) -> bool {
    forall|b: int|
        a.first_data <= b < a.total_blocks && !#[trigger] a.is_free(b) ==> m.contains_key(b)
            || lost.contains(b)
}

pub struct Volume {
    pub image: Image,
    pub cache: BlockCache,
    pub alloc: Allocator,
    pub owner: Ghost<Owners>,
    /// Blocks that the image had in use when it was mounted, and that nothing on it refers to.
    pub lost: Ghost<Set<int>>,
}

impl Volume {
    /// Block `b` as it reads through the cache.
    pub open spec fn d(&self, b: int) -> Seq<u8> {
        disk_block(self.cache, self.image@, b)
    }

    /// First block of the data area.
    pub open spec fn lo(&self) -> int {
        self.alloc.first_data as int
    }

    /// The image, the cache and the map are in order; the cache holds data blocks only; and
    /// the used data blocks are those with an owner, and those that were lost before.
    pub open spec fn wf(&self) -> bool {
        &&& self.image.wf()
        &&& self.cache.wf(self.image@)
        &&& self.alloc.wf()
        &&& self.lo() > 0
        &&& forall|b: u64| #[trigger] self.cache.map@.contains_key(b) ==> self.lo() <= b
        &&& forall|b: int| #[trigger]
            self.owner@.contains_key(b) ==> self.lo() <= b < self.alloc.total_blocks
                && !self.alloc.is_free(b)
        &&& accounted(self.alloc, self.owner@, self.lost@)
    }

    /// The image holds every block of the volume, and all that is in memory.
    pub open spec fn whole(&self) -> bool {
        &&& self.alloc.total_blocks * 4096 <= self.image@.len()
        &&& within(self.cache, self.image@.len() as int)
    }

    /// Nothing is left to be written to the image.
    pub open spec fn idle(&self) -> bool {
        all_written(self.cache)
    }

    /// Where the blocks in use end.
    pub open spec fn end(&self) -> int {
        self.alloc.used_end()
    }

    /// Less than `want` blocks are left between the blocks in use and the limit of an image.
    pub open spec fn full(&self, want: int) -> bool {
        self.end() + want > max_blocks()
    }
}

/// The parts of the image before the data area are the same, no space was lost, and the cache may
/// hold as many blocks.
pub open spec fn base_kept(v0: Volume, v1: Volume) -> bool {
    &&& v1.alloc.first_data == v0.alloc.first_data
    &&& v1.lost == v0.lost
    &&& v1.cache.capacity == v0.cache.capacity
    &&& v1.alloc.total_blocks >= v0.alloc.total_blocks
    &&& v1.image@.len() >= v0.image@.len()
    &&& forall|b: int|
        0 <= b < v0.lo() ==> #[trigger] image_block(v1.image@, b) == image_block(v0.image@, b)
}

/// The blocks of the inode table stay what they are.
pub open spec fn table_kept(v0: Volume, v1: Volume) -> bool {
    forall|b: int| #[trigger]
        v0.owner@.contains_key(b) && v0.owner@[b] is Table ==> v1.owner@.contains_key(b)
            && v1.owner@[b] == v0.owner@[b] && v1.d(b) == v0.d(b)
}

/// What a step on behalf of inode `ino` leaves alone: every block with an owner, but for the
/// data of that inode and blocks that are part of nothing.
pub open spec fn others_kept(v0: Volume, v1: Volume, ino: u64) -> bool {
    forall|b: int| #[trigger]
        v0.owner@.contains_key(b) && !(v0.owner@[b] is Fresh) && !(v0.owner@[b] is Data
            && v0.owner@[b]->Data_0 == ino) ==> v1.owner@.contains_key(b) && v1.owner@[b]
            == v0.owner@[b] && v1.d(b) == v0.d(b)
}

/// A step on behalf of inode `ino` gives blocks to nothing but the data of that inode.
pub open spec fn adds_only(v0: Volume, v1: Volume, ino: u64) -> bool {
    forall|b: int| #[trigger]
        v1.owner@.contains_key(b) && !(v1.owner@[b] is Data && v1.owner@[b]->Data_0 == ino)
            ==> v0.owner@.contains_key(b) && v0.owner@[b] == v1.owner@[b]
}

/// The frame of a step on behalf of inode `ino`.
pub open spec fn frame(v0: Volume, v1: Volume, ino: u64) -> bool {
    base_kept(v0, v1) && others_kept(v0, v1, ino) && adds_only(v0, v1, ino)
}

/// Steps on behalf of one inode add up.
pub proof fn lemma_kept_trans(v0: Volume, v1: Volume, v2: Volume, ino: u64)
    requires
        base_kept(v0, v1),
        base_kept(v1, v2),
        others_kept(v0, v1, ino),
        others_kept(v1, v2, ino),
    ensures
        base_kept(v0, v2),
        others_kept(v0, v2, ino),
{
    assert forall|b: int| 0 <= b < v0.lo() implies #[trigger] image_block(v2.image@, b)
        == image_block(v0.image@, b) by {
        assert(image_block(v1.image@, b) == image_block(v0.image@, b));
    }
    assert forall|b: int| #[trigger]
        v0.owner@.contains_key(b) && !(v0.owner@[b] is Fresh) && !(v0.owner@[b] is Data
            && v0.owner@[b]->Data_0 == ino) implies v2.owner@.contains_key(b) && v2.owner@[b]
        == v0.owner@[b] && v2.d(b) == v0.d(b) by {
        assert(v1.owner@.contains_key(b));
    }
}

/// Frames add up.
pub proof fn lemma_frame_trans(v0: Volume, v1: Volume, v2: Volume, ino: u64)
    requires
        frame(v0, v1, ino),
        frame(v1, v2, ino),
    ensures
        frame(v0, v2, ino),
{
    lemma_kept_trans(v0, v1, v2, ino);
    assert forall|b: int| #[trigger]
        v2.owner@.contains_key(b) && !(v2.owner@[b] is Data && v2.owner@[b]->Data_0
            == ino) implies v0.owner@.contains_key(b) && v0.owner@[b] == v2.owner@[b] by {
        assert(v1.owner@.contains_key(b));
    }
}

/// Only block `x` reads differently; owners and map are the same.
pub open spec fn wrote(v0: Volume, v1: Volume, x: int) -> bool {
    &&& base_kept(v0, v1)
    &&& v1.alloc == v0.alloc
    &&& v1.owner == v0.owner
    &&& forall|b: int| b >= 0 && b != x ==> #[trigger] v1.d(b) == v0.d(b)
}

/// All blocks and their owners are the same.
pub open spec fn same_blocks(v0: Volume, v1: Volume) -> bool {
    &&& base_kept(v0, v1)
    &&& v1.alloc == v0.alloc
    &&& v1.owner == v0.owner
    &&& forall|b: int| b >= 0 ==> #[trigger] v1.d(b) == v0.d(b)
}

/// All blocks read the same; owners and map are the same.
pub open spec fn unchanged(v0: Volume, v1: Volume) -> bool {
    &&& same_blocks(v0, v1)
    &&& v0.idle() ==> v1.idle() && v1.image == v0.image
}

impl Volume {
    /// A copy of block `b`.
    pub fn get(&mut self, b: u64) -> (data: Vec<u8>)
        requires
            old(self).wf(),
            old(self).lo() <= b < max_blocks(),
        ensures
            final(self).wf(),
            unchanged(*old(self), *final(self)),
            data@ == old(self).d(b as int),
            data@.len() == 4096,
    {
        let data = self.cache.get(&mut self.image, b);
        assert forall|x: int| 0 <= x < old(self).lo() implies #[trigger] image_block(
            self.image@,
            x,
        ) == image_block(old(self).image@, x) by {}
        data
    }

    /// Replaces block `b`.
    pub fn put(&mut self, b: u64, data: Vec<u8>)
        requires
            old(self).wf(),
            old(self).lo() <= b < max_blocks(),
            data@.len() == 4096,
        ensures
            final(self).wf(),
            wrote(*old(self), *final(self), b as int),
            final(self).d(b as int) == data@,
    {
        self.cache.insert_dirty(&mut self.image, b, data);
        assert forall|x: int| 0 <= x < old(self).lo() implies #[trigger] image_block(
            self.image@,
            x,
        ) == image_block(old(self).image@, x) by {}
    }

    /// Overwrites a stretch of block `b`.
    pub fn patch(&mut self, b: u64, off: usize, src: &[u8])
        requires
            old(self).wf(),
            old(self).lo() <= b < max_blocks(),
            off + src@.len() <= 4096,
        ensures
            old(self).whole() && b < old(self).alloc.total_blocks ==> final(self).whole()
                && final(self).image@.len() == old(self).image@.len(),
            extends(old(self).image, final(self).image),
            final(self).wf(),
            wrote(*old(self), *final(self), b as int),
            final(self).d(b as int) == splice(old(self).d(b as int), off as int, src@),
    {
        self.cache.update(&mut self.image, b, off, src);
        assert forall|x: int| 0 <= x < old(self).lo() implies #[trigger] image_block(
            self.image@,
            x,
        ) == image_block(old(self).image@, x) by {}
    }

    /// Takes `want` blocks in a row for owner `o`.
    pub fn allocate(&mut self, want: u64, o: Ghost<Owner>) -> (r: Result<u64>)
        requires
            old(self).wf(),
            want > 0,
        ensures
            final(self).wf(),
            base_kept(*old(self), *final(self)),
            forall|b: int| b >= 0 ==> #[trigger] final(self).d(b) == old(self).d(b),
            final(self).alloc.free@.len() <= old(self).alloc.free@.len() + 1,
            final(self).end() <= old(self).end() + 2 * want,
            !none_fits(old(self).alloc.free@, want as int) ==> r is Ok
                && final(self).alloc.total_blocks == old(self).alloc.total_blocks && exists|k: int|
                #[trigger]
                is_best_fit(old(self).alloc.free@, want as int, k) && r == Ok::<u64, Error>(
                    old(self).alloc.free@[k].0,
                ) && final(self).image@ == old(self).image@ && final(self).cache == old(self).cache
                    && final(self).alloc.free@ == taken(old(self).alloc.free@, k, want as int),
            match r {
                Ok(start) => {
                    &&& old(self).lo() <= start
                    &&& start + want <= final(self).alloc.total_blocks
                    &&& start + want <= max_blocks()
                    &&& forall|b: int|
                        start <= b < start + want ==> !#[trigger] old(self).owner@.contains_key(b)
                    &&& final(self).owner@ == claimed(
                        old(self).owner@,
                        start as int,
                        want as int,
                        o@,
                    )
                },
                Err(e) => {
                    &&& e.is(ENOSPC)
                    &&& old(self).full(2 * want)
                    &&& *final(self) == *old(self)
                },
            },
    {
        let r = self.alloc.allocate(&mut self.image, want);
        match r {
            Ok(start) => {
                assert(self.cache.wf(self.image@)) by {
                    assert forall|b: u64| #[trigger] self.cache.map@.contains_key(b) implies b
                        < max_blocks() && self.cache.map@[b].data@.len() == 4096 && (
                    self.cache.map@[b].dirty || self.cache.map@[b].data@ == image_block(
                        self.image@,
                        b as int,
                    )) by {
                        assert(image_block(self.image@, b as int) == image_block(
                            old(self).image@,
                            b as int,
                        ));
                    }
                }
                self.owner = Ghost(claimed(self.owner@, start as int, want as int, o@));
                proof {
                    reveal(accounted);
                }
                assert forall|b: int| start <= b < start + want implies !#[trigger] old(self).owner@.contains_key(b) by {
                    assert(!self.alloc.is_free(b));
                }
                assert forall|b: int| #[trigger] self.owner@.contains_key(b) implies self.lo() <= b
                    < self.alloc.total_blocks && !self.alloc.is_free(b) by {
                    if !(start <= b < start + want) {
                        assert(old(self).owner@.contains_key(b));
                        assert(self.alloc.is_free(b) <==> old(self).alloc.is_free(b));
                    } else {
                        assert(!self.alloc.is_free(b));
                    }
                }
                assert forall|b: int| b >= 0 implies #[trigger] self.d(b) == old(self).d(b) by {
                    assert(image_block(self.image@, b) == image_block(old(self).image@, b));
                }
            },
            Err(_) => {},
        }
        r
    }

    /// Gives `n` blocks in a row back.
    pub fn release(&mut self, start: u64, n: u64)
        requires
            old(self).wf(),
            start + n <= u64::MAX,
            forall|b: int| start <= b < start + n ==> #[trigger] old(self).owner@.contains_key(b),
        ensures
            final(self).wf(),
            base_kept(*old(self), *final(self)),
            final(self).alloc.total_blocks == old(self).alloc.total_blocks,
            final(self).end() <= old(self).end(),
            forall|b: int| b >= 0 ==> #[trigger] final(self).d(b) == old(self).d(b),
            final(self).owner@ == unclaimed(old(self).owner@, start as int, n as int),
            forall|b: int| #[trigger]
                final(self).alloc.is_free(b) <==> old(self).alloc.is_free(b) || start <= b < start
                    + n,
    {
        if n == 0 {
            assert(unclaimed(self.owner@, start as int, 0) =~= self.owner@);
            return;
        }
        proof {
            assert(self.owner@.contains_key(start as int));
            assert(self.owner@.contains_key(start + n - 1));
        }
        assert forall|b: int| start <= b < start + n implies !#[trigger] self.alloc.is_free(b) by {
            assert(self.owner@.contains_key(b));
        }
        self.alloc.free(start, n);
        self.owner = Ghost(unclaimed(self.owner@, start as int, n as int));
        proof {
            reveal(accounted);
        }
        assert forall|b: int| #[trigger] self.owner@.contains_key(b) implies self.lo() <= b
            < self.alloc.total_blocks && !self.alloc.is_free(b) by {
            assert(old(self).owner@.contains_key(b));
        }
    }

    /// Hands `n` blocks that are part of nothing over to owner `o`.
    pub fn assign(&mut self, start: u64, n: u64, o: Ghost<Owner>)
        requires
            old(self).wf(),
            forall|b: int|
                start <= b < start + n ==> #[trigger] old(self).owner@.contains_key(b) && old(self).owner@[b] is Fresh,
        ensures
            final(self).wf(),
            final(self).image == old(self).image,
            final(self).cache == old(self).cache,
            final(self).alloc == old(self).alloc,
            final(self).lost == old(self).lost,
            final(self).owner@ == claimed(old(self).owner@, start as int, n as int, o@),
    {
        self.owner = Ghost(claimed(self.owner@, start as int, n as int, o@));
        proof {
            reveal(accounted);
        }
        assert forall|b: int| #[trigger] self.owner@.contains_key(b) implies self.lo() <= b
            < self.alloc.total_blocks && !self.alloc.is_free(b) by {
            assert(old(self).owner@.contains_key(b));
        }
    }

    /// Writes `data` into the blocks from `phys` on; the last one is filled up with zeros.
    pub fn write_physical_bytes(&mut self, phys: u64, data: &[u8])
        requires
            old(self).wf(),
            old(self).lo() <= phys,
            data@.len() > 0,
            phys + blocks_for(data@.len() as int) <= max_blocks(),
        ensures
            final(self).wf(),
            base_kept(*old(self), *final(self)),
            final(self).alloc == old(self).alloc,
            final(self).owner == old(self).owner,
            forall|b: int|
                b >= 0 && !(phys <= b < phys + blocks_for(data@.len() as int)) ==> #[trigger] final(self).d(b) == old(self).d(b),
            forall|b: int|
                phys <= b < phys + blocks_for(data@.len() as int) ==> #[trigger] final(self).d(b)
                    == data_block(data@, b - phys),
    {
        let len: usize = data.len();
        let nblocks: u64 = (len as u64 - 1) / 4096 + 1;
        assert(nblocks == blocks_for(data@.len() as int));
        let limit = block_limit();
        let mut i: u64 = 0;
        while i < nblocks
            invariant
                i <= nblocks,
                len == data@.len(),
                len > 0,
                nblocks == blocks_for(len as int),
                limit == max_blocks(),
                limit * 4096 <= usize::MAX,
                phys + nblocks <= limit,
                self.wf(),
                self.lo() <= phys,
                base_kept(*old(self), *self),
                self.alloc == old(self).alloc,
                self.owner == old(self).owner,
                forall|b: int|
                    b >= 0 && !(phys <= b < phys + i) ==> #[trigger] self.d(b) == old(self).d(b),
                forall|b: int|
                    phys <= b < phys + i ==> #[trigger] self.d(b) == data_block(data@, b - phys),
            decreases nblocks - i,
        {
            let src: usize = (i * 4096) as usize;
            let n: usize = if len - src < 4096 {
                len - src
            } else {
                4096
            };
            let mut blk: Vec<u8> = zero_vec(4096);
            copy_into(blk.as_mut_slice(), 0, vstd::slice::slice_subrange(data, src, src + n));
            assert(blk@ =~= data_block(data@, i as int));
            let ghost v1 = *self;
            self.put(phys + i, blk);
            assert forall|b: int| b >= 0 && !(phys <= b < phys + i + 1) implies #[trigger] self.d(b)
                == old(self).d(b) by {
                assert(v1.d(b) == old(self).d(b));
            }
            assert forall|b: int| phys <= b < phys + i + 1 implies #[trigger] self.d(b)
                == data_block(data@, b - phys) by {
                if b < phys + i {
                    assert(v1.d(b) == data_block(data@, b - phys));
                }
            }
            i = i + 1;
        }
    }
}

/// Block `i` of `data`, filled up with zeros.
pub open spec fn data_block(data: Seq<u8>, i: int) -> Seq<u8> {
    Seq::new(
        4096,
        |q: int|
            if i * 4096 + q < data.len() {
                data[i * 4096 + q]
            } else {
                0u8
            },
    )
}

} // verus!
