//! Write-back block cache. Dirty blocks reach the image on eviction, sync and unmount.

use std::collections::{HashMap, VecDeque};

use vstd::prelude::*;

use crate::bytes::{copy_into, splice};
use crate::store::{block_limit, extends, image_block, max_blocks, Image};

verus! {

broadcast use {crate::store::group_extends, vstd::std_specs::hash::group_hash_axioms};

/// A cached block.
#[derive(Debug)]
pub struct Entry {
    pub data: Vec<u8>,
    pub dirty: bool,
}

#[derive(Debug)]
pub struct BlockCache {
    pub map: HashMap<u64, Entry>,
    /// The cached blocks, the least recently used first.
    pub lru: VecDeque<u64>,
    pub capacity: usize,
}

/// Block `b` as it reads through the cache: the cached data, else the image.
pub open spec fn disk_block(cache: BlockCache, image: Seq<u8>, b: int) -> Seq<u8> {
    if 0 <= b <= u64::MAX && cache.map@.contains_key(b as u64) {
        cache.map@[b as u64].data@
    } else {
        image_block(image, b)
    }
}

/// The same blocks read through the cache before and after.
pub open spec fn same_disk(c0: BlockCache, i0: Seq<u8>, c1: BlockCache, i1: Seq<u8>) -> bool {
    forall|b: int| b >= 0 ==> #[trigger] disk_block(c1, i1, b) == disk_block(c0, i0, b)
}

/// The same blocks read through the cache before and after, but for block `x`.
pub open spec fn same_disk_except(
    c0: BlockCache,
    i0: Seq<u8>,
    c1: BlockCache,
    i1: Seq<u8>,
    x: int,
) -> bool {
    forall|b: int| b >= 0 && b != x ==> #[trigger] disk_block(c1, i1, b) == disk_block(c0, i0, b)
}

/// The image grew or kept its length, and blocks outside the cache did not change.
pub open spec fn image_kept(c0: BlockCache, i0: Seq<u8>, i1: Seq<u8>) -> bool {
    &&& i1.len() >= i0.len()
    &&& forall|b: int|
        0 <= b <= u64::MAX && !c0.map@.contains_key(b as u64) ==> #[trigger] image_block(i1, b)
            == image_block(i0, b)
}

/// The cache holds no block that it did not hold before, but for `block`.
pub open spec fn holds_no_more(c0: BlockCache, c1: BlockCache, block: u64) -> bool {
    forall|b: u64| #[trigger] c1.map@.contains_key(b) ==> b == block || c0.map@.contains_key(b)
}

/// A list without block `b`.
pub open spec fn without(s: Seq<u64>, b: u64) -> Seq<u64> {
    if s.contains(b) {
        s.remove(s.index_of(b))
    } else {
        s
    }
}

/// A list of blocks, the least recently used first, after block `b` was used.
pub open spec fn used(s: Seq<u64>, b: u64) -> Seq<u64> {
    without(s, b).push(b)
}

/// The list of used blocks once there is room for `block`: where the cache is full, and does not
/// hold that block, the least recently used one has left.
pub open spec fn made_room(c: BlockCache, block: u64) -> Seq<u64> {
    if !c.map@.contains_key(block) && c.lru@.len() >= c.capacity {
        c.lru@.drop_first()
    } else {
        c.lru@
    }
}

/// A use of `block`: it is the most recently used one now, the least recently used one left where
/// there was no room, and the other blocks stay in their order.
pub open spec fn block_used(c0: BlockCache, c1: BlockCache, block: u64) -> bool {
    &&& c1.capacity == c0.capacity
    &&& c1.lru@ == used(made_room(c0, block), block)
}

/// A block that is looked for is found once in a list without duplicates.
proof fn lemma_without(s: Seq<u64>, b: u64, i: int)
    requires
        s.no_duplicates(),
        0 <= i < s.len(),
        s[i] == b,
    ensures
        without(s, b) == s.remove(i),
{
    assert(s.contains(b));
    assert(s[s.index_of(b)] == b);
}

/// No block in memory waits to be written.
pub open spec fn all_written(c: BlockCache) -> bool {
    forall|b: u64| #[trigger] c.map@.contains_key(b) ==> !c.map@[b].dirty
}

/// Every block in memory lies within an image of `len` bytes.
pub open spec fn within(c: BlockCache, len: int) -> bool {
    forall|b: u64| #[trigger] c.map@.contains_key(b) ==> (b + 1) * 4096 <= len
}

/// Blocks that a cache holds at most which is asked to hold `n`.
pub open spec fn cache_size(n: usize) -> usize {
    if n < 16 {
        16
    } else {
        n
    }
}

impl BlockCache {
    /// The cache is consistent with the image below it, its list of used blocks is complete, and it
    /// holds no more blocks than it may.
    pub open spec fn wf(&self, image: Seq<u8>) -> bool {
        &&& self.lru@.no_duplicates()
        &&& forall|b: u64| #[trigger] self.lru@.contains(b) <==> self.map@.contains_key(b)
        &&& 16 <= self.capacity
        &&& self.lru@.len() <= self.capacity
        &&& self.map@.len() == self.lru@.len()
        &&& forall|b: u64| #[trigger]
            self.map@.contains_key(b) ==> b < max_blocks() && self.map@[b].data@.len()
                == 4096 && (self.map@[b].dirty || self.map@[b].data@ == image_block(
                image,
                b as int,
            ))
    }

    pub fn new(capacity: usize) -> (c: Self)
        ensures
            forall|image: Seq<u8>| #[trigger] c.wf(image),
            c.map@ == Map::<u64, Entry>::empty(),
            c.lru@.len() == 0,
            c.capacity == cache_size(capacity),
    {
        let capacity: usize = if capacity < 16 {
            16
        } else {
            capacity
        };
        Self { map: HashMap::new(), lru: VecDeque::new(), capacity }
    }

    /// Makes `block` the most recently used.
    fn touch(&mut self, block: u64)
        requires
            old(self).lru@.no_duplicates(),
        ensures
            final(self).map == old(self).map,
            final(self).capacity == old(self).capacity,
            final(self).lru@.no_duplicates(),
            forall|b: u64| #[trigger]
                final(self).lru@.contains(b) <==> (b == block || old(self).lru@.contains(b)),
            final(self).lru@ == used(old(self).lru@, block),
    {
        self.unlist(block);
        let ghost mid = self.lru@;
        self.lru.push_back(block);
        assert(self.lru@ =~= mid.push(block));
        assert forall|b: u64| #[trigger] self.lru@.contains(b) <==> (b == block || old(self).lru@.contains(b)) by {
            if mid.contains(b) {
                let i = mid.index_of(b);
                assert(self.lru@[i] == b);
            }
            if b == block {
                assert(self.lru@[mid.len() as int] == b);
            }
            if self.lru@.contains(b) {
                let i = self.lru@.index_of(b);
                if i < mid.len() {
                    assert(mid[i] == b);
                }
            }
        }
        assert(self.lru@.no_duplicates()) by {
            assert forall|i: int, j: int|
                0 <= i < self.lru@.len() && 0 <= j < self.lru@.len() && i != j implies self.lru@[i]
                != self.lru@[j] by {
                if i < mid.len() {
                    assert(mid.contains(mid[i]));
                }
                if j < mid.len() {
                    assert(mid.contains(mid[j]));
                }
            }
        }
    }

    /// Takes `block` off the list of used blocks.
    fn unlist(&mut self, block: u64)
        requires
            old(self).lru@.no_duplicates(),
        ensures
            final(self).map == old(self).map,
            final(self).capacity == old(self).capacity,
            final(self).lru@.no_duplicates(),
            forall|b: u64| #[trigger]
                final(self).lru@.contains(b) <==> (b != block && old(self).lru@.contains(b)),
            final(self).lru@ == without(old(self).lru@, block),
    {
        let n: usize = self.lru.len();
        let mut i: usize = 0;
        while i < n && self.lru[i] != block
            invariant
                i <= n,
                n == self.lru@.len(),
                *self == *old(self),
                forall|j: int| 0 <= j < i ==> self.lru@[j] != block,
            decreases n - i,
        {
            i = i + 1;
        }
        if i < n {
            let ghost before = self.lru@;
            let _ = self.lru.remove(i);
            assert(self.lru@ =~= before.remove(i as int));
            proof {
                lemma_without(before, block, i as int);
            }
            assert forall|b: u64| #[trigger] self.lru@.contains(b) <==> (b != block
                && before.contains(b)) by {
                if b != block && before.contains(b) {
                    let k = before.index_of(b);
                    if k < i {
                        assert(self.lru@[k] == b);
                    } else {
                        assert(self.lru@[k - 1] == b);
                    }
                }
                if self.lru@.contains(b) {
                    let k = self.lru@.index_of(b);
                    if k < i {
                        assert(before[k] == b);
                    } else {
                        assert(before[k + 1] == b);
                    }
                }
            }
        }
    }

    /// Writes the least recently used block back, where it is dirty, and drops it.
    fn evict_one(&mut self, image: &mut Image)
        requires
            old(self).wf(old(image)@),
            old(image).wf(),
        ensures
            all_written(*old(self)) ==> all_written(*final(self)) && *final(image) == *old(image),
            within(*old(self), old(image)@.len() as int) ==> final(image)@.len() == old(image)@.len() && within(
                *final(self),
                old(image)@.len() as int,
            ),
            extends(*old(image), *final(image)),
            final(self).wf(final(image)@),
            final(image).wf(),
            final(self).capacity == old(self).capacity,
            same_disk(*old(self), old(image)@, *final(self), final(image)@),
            image_kept(*old(self), old(image)@, final(image)@),
            old(self).lru@.len() == 0 ==> *final(self) == *old(self),
            old(self).lru@.len() > 0 ==> final(self).lru@ == old(self).lru@.drop_first()
                && final(self).map@ == old(self).map@.remove(old(self).lru@[0]),
    {
        if self.lru.len() == 0 {
            return;
        }
        let old_block: u64 = self.lru[0];
        assert(self.lru@.contains(old_block));
        let ghost m0 = self.map@;
        match self.map.remove(&old_block) {
            Some(ent) => {
                if ent.dirty {
                    let _ = image.write_block(old_block, ent.data.as_slice());
                }
            },
            None => {},
        }
        assert(self.map@ =~= m0.remove(old_block));
        self.unlist(old_block);
        proof {
            lemma_without(old(self).lru@, old_block, 0);
            assert(self.lru@ =~= old(self).lru@.drop_first());
        }
        assert(same_disk(*old(self), old(image)@, *self, image@)) by {
            assert forall|b: int| b >= 0 implies #[trigger] disk_block(*self, image@, b)
                == disk_block(*old(self), old(image)@, b) by {
                if b <= u64::MAX && old(self).map@.contains_key(b as u64) {
                }
            }
        }
        assert forall|b: u64| #[trigger] self.map@.contains_key(b) implies b < max_blocks() && self.map@[b].data@.len() == 4096 && (self.map@[b].dirty
            || self.map@[b].data@ == image_block(image@, b as int)) by {
            assert(old(self).map@.contains_key(b));
            assert(image_block(image@, b as int) == image_block(old(image)@, b as int));
        }
    }

    /// Brings `block` into the cache.
    fn load(&mut self, image: &mut Image, block: u64)
        requires
            old(self).wf(old(image)@),
            old(image).wf(),
            block < max_blocks(),
        ensures
            all_written(*old(self)) ==> all_written(*final(self)) && *final(image) == *old(image),
            within(*old(self), old(image)@.len() as int) && (block + 1) * 4096 <= old(image)@.len()
                ==> final(image)@.len() == old(image)@.len() && within(
                *final(self),
                old(image)@.len() as int,
            ),
            extends(*old(image), *final(image)),
            final(self).wf(final(image)@),
            final(image).wf(),
            final(self).map@.contains_key(block),
            same_disk(*old(self), old(image)@, *final(self), final(image)@),
            image_kept(*old(self), old(image)@, final(image)@),
            holds_no_more(*old(self), *final(self), block),
            block_used(*old(self), *final(self), block),
    {
        if !self.map.contains_key(&block) {
            if self.map.len() >= self.capacity {
                self.evict_one(image);
            }
            let ghost c1 = *self;
            let ghost i1 = image@;
            assert(!c1.map@.contains_key(block));
            assert(c1.lru@ == made_room(*old(self), block));
            let limit = block_limit();
            let mut data: Vec<u8> = crate::bytes::zero_vec(4096);
            let offset: u64 = block * 4096;
            let n: u64 = image.len();
            if offset < n {
                let end: u64 = if offset + 4096 <= n {
                    offset + 4096
                } else {
                    n
                };
                copy_into(
                    data.as_mut_slice(),
                    0,
                    vstd::slice::slice_subrange(
                        image.data.as_slice(),
                        offset as usize,
                        end as usize,
                    ),
                );
            }
            // What lies behind the end reads as zeros.
            assert(data@ =~= image_block(i1, block as int));
            assert(data@ == image_block(i1, block as int));
            assert(forall|b: int| b >= 0 ==> #[trigger] image_block(image@, b) == image_block(
                i1,
                b,
            ));
            self.map.insert(block, Entry { data, dirty: false });
            assert(self.map@ =~= c1.map@.insert(block, self.map@[block]));
            self.touch(block);
            assert(same_disk(c1, i1, *self, image@)) by {
                assert forall|b: int| b >= 0 implies #[trigger] disk_block(*self, image@, b)
                    == disk_block(c1, i1, b) by {
                    if b <= u64::MAX && c1.map@.contains_key(b as u64) {
                    }
                }
            }
            assert(self.wf(image@)) by {
                assert forall|b: u64| #[trigger] self.map@.contains_key(b) implies b < max_blocks() && self.map@[b].data@.len() == 4096 && (self.map@[b].dirty
                    || self.map@[b].data@ == image_block(image@, b as int)) by {
                    if b != block {
                        assert(c1.map@.contains_key(b));
                    }
                    assert(image_block(image@, b as int) == image_block(i1, b as int));
                }
            }
            assert(same_disk(*old(self), old(image)@, *self, image@)) by {
                assert forall|b: int| b >= 0 implies #[trigger] disk_block(*self, image@, b)
                    == disk_block(*old(self), old(image)@, b) by {
                    assert(disk_block(*self, image@, b) == disk_block(c1, i1, b));
                }
            }
        } else {
            let ghost c1 = *self;
            self.touch(block);
            assert(same_disk(c1, image@, *self, image@));
        }
    }

    /// A copy of block `block`.
    pub fn get(&mut self, image: &mut Image, block: u64) -> (data: Vec<u8>)
        requires
            old(self).wf(old(image)@),
            old(image).wf(),
            block < max_blocks(),
        ensures
            all_written(*old(self)) ==> all_written(*final(self)) && *final(image) == *old(image),
            final(self).wf(final(image)@),
            final(image).wf(),
            same_disk(*old(self), old(image)@, *final(self), final(image)@),
            image_kept(*old(self), old(image)@, final(image)@),
            holds_no_more(*old(self), *final(self), block),
            block_used(*old(self), *final(self), block),
            data@ == disk_block(*old(self), old(image)@, block as int),
            data@.len() == 4096,
    {
        self.load(image, block);
        assert(disk_block(*self, image@, block as int) == disk_block(
            *old(self),
            old(image)@,
            block as int,
        ));
        match self.map.get(&block) {
            Some(ent) => crate::bytes::copy_bytes(ent.data.as_slice()),
            None => Vec::new(),
        }
    }

    /// Overwrites a stretch of block `block`.
    pub fn update(&mut self, image: &mut Image, block: u64, off: usize, src: &[u8])
        requires
            old(self).wf(old(image)@),
            old(image).wf(),
            block < max_blocks(),
            off + src@.len() <= 4096,
        ensures
            within(*old(self), old(image)@.len() as int) && (block + 1) * 4096 <= old(image)@.len()
                ==> final(image)@.len() == old(image)@.len() && within(
                *final(self),
                old(image)@.len() as int,
            ),
            extends(*old(image), *final(image)),
            final(self).wf(final(image)@),
            final(image).wf(),
            same_disk_except(*old(self), old(image)@, *final(self), final(image)@, block as int),
            image_kept(*old(self), old(image)@, final(image)@),
            holds_no_more(*old(self), *final(self), block),
            block_used(*old(self), *final(self), block),
            disk_block(*final(self), final(image)@, block as int) == splice(
                disk_block(*old(self), old(image)@, block as int),
                off as int,
                src@,
            ),
    {
        self.load(image, block);
        assert(disk_block(*self, image@, block as int) == disk_block(
            *old(self),
            old(image)@,
            block as int,
        ));
        let ghost c1 = *self;
        match self.map.remove(&block) {
            Some(ent) => {
                let mut ent = ent;
                copy_into(ent.data.as_mut_slice(), off, src);
                ent.dirty = true;
                self.map.insert(block, ent);
                assert(self.map@ =~= c1.map@.insert(block, ent));
            },
            None => {},
        }
        assert(same_disk_except(*old(self), old(image)@, *self, image@, block as int)) by {
            assert forall|b: int| b >= 0 && b != block implies #[trigger] disk_block(
                *self,
                image@,
                b,
            ) == disk_block(*old(self), old(image)@, b) by {
                assert(disk_block(c1, image@, b) == disk_block(*old(self), old(image)@, b));
            }
        }
    }

    /// Replaces block `block`.
    pub fn insert_dirty(&mut self, image: &mut Image, block: u64, data: Vec<u8>)
        requires
            old(self).wf(old(image)@),
            old(image).wf(),
            block < max_blocks(),
            data@.len() == 4096,
        ensures
            final(self).wf(final(image)@),
            final(image).wf(),
            same_disk_except(*old(self), old(image)@, *final(self), final(image)@, block as int),
            image_kept(*old(self), old(image)@, final(image)@),
            holds_no_more(*old(self), *final(self), block),
            block_used(*old(self), *final(self), block),
            disk_block(*final(self), final(image)@, block as int) == data@,
    {
        if !self.map.contains_key(&block) && self.map.len() >= self.capacity {
            self.evict_one(image);
        }
        let ghost c1 = *self;
        self.map.insert(block, Entry { data, dirty: true });
        assert(self.map@ =~= c1.map@.insert(block, self.map@[block]));
        self.touch(block);
        assert(same_disk_except(*old(self), old(image)@, *self, image@, block as int)) by {
            assert forall|b: int| b >= 0 && b != block implies #[trigger] disk_block(
                *self,
                image@,
                b,
            ) == disk_block(*old(self), old(image)@, b) by {
                assert(disk_block(c1, image@, b) == disk_block(*old(self), old(image)@, b));
            }
        }
    }

    /// Forgets block `block`; what was not written back is lost.
    pub fn invalidate(&mut self, block: u64)
        requires
            old(self).lru@.no_duplicates(),
        ensures
            final(self).map@ == old(self).map@.remove(block),
            final(self).lru@ == without(old(self).lru@, block),
            final(self).capacity == old(self).capacity,
            forall|image: Seq<u8>|
                old(self).wf(image) ==> #[trigger] final(self).wf(image),
    {
        let ghost m0 = self.map@;
        let _ = self.map.remove(&block);
        assert(self.map@ =~= m0.remove(block));
        self.unlist(block);
        assert forall|image: Seq<u8>| old(self).wf(image) implies #[trigger] self.wf(image) by {
            assert forall|b: u64| #[trigger] self.map@.contains_key(b) implies b < max_blocks() && self.map@[b].data@.len() == 4096 && (self.map@[b].dirty
                || self.map@[b].data@ == image_block(image, b as int)) by {
                assert(old(self).map@.contains_key(b));
            }
        }
    }

    /// Writes block `block` back where it is dirty.
    pub fn flush_block(&mut self, image: &mut Image, block: u64)
        requires
            old(self).wf(old(image)@),
            old(image).wf(),
        ensures
            all_written(*old(self)) ==> all_written(*final(self)) && *final(image) == *old(image),
            within(*old(self), old(image)@.len() as int) ==> final(image)@.len() == old(image)@.len() && within(
                *final(self),
                old(image)@.len() as int,
            ),
            extends(*old(image), *final(image)),
            final(self).wf(final(image)@),
            final(image).wf(),
            final(self).lru == old(self).lru,
            final(self).capacity == old(self).capacity,
            final(self).map@.dom() == old(self).map@.dom(),
            final(self).map@.contains_key(block) ==> !final(self).map@[block].dirty,
            forall|b: u64| #[trigger]
                old(self).map@.contains_key(b) && !old(self).map@[b].dirty ==> !final(self).map@[b].dirty,
            same_disk(*old(self), old(image)@, *final(self), final(image)@),
            image_kept(*old(self), old(image)@, final(image)@),
    {
        let ghost m0 = self.map@;
        match self.map.remove(&block) {
            Some(ent) => {
                let mut ent = ent;
                if ent.dirty {
                    let _ = image.write_block(block, ent.data.as_slice());
                    ent.dirty = false;
                }
                self.map.insert(block, ent);
                assert(self.map@ =~= m0.insert(block, ent));
            },
            None => {
                assert(self.map@ =~= m0);
            },
        }
        assert(self.map@.dom() =~= m0.dom());
        assert(self.wf(image@)) by {
            assert forall|b: u64| #[trigger] self.map@.contains_key(b) implies b < max_blocks() && self.map@[b].data@.len() == 4096 && (self.map@[b].dirty
                || self.map@[b].data@ == image_block(image@, b as int)) by {
                assert(old(self).map@.contains_key(b));
                if b != block {
                    assert(image_block(image@, b as int) == image_block(old(image)@, b as int));
                }
            }
        }
        assert(same_disk(*old(self), old(image)@, *self, image@)) by {
            assert forall|b: int| b >= 0 implies #[trigger] disk_block(*self, image@, b)
                == disk_block(*old(self), old(image)@, b) by {
                if b <= u64::MAX && old(self).map@.contains_key(b as u64) {
                }
            }
        }
    }

    /// Writes every dirty block back.
    pub fn flush(&mut self, image: &mut Image)
        requires
            old(self).wf(old(image)@),
            old(image).wf(),
        ensures
            all_written(*old(self)) ==> all_written(*final(self)) && *final(image) == *old(image),
            within(*old(self), old(image)@.len() as int) ==> final(image)@.len() == old(image)@.len() && within(
                *final(self),
                old(image)@.len() as int,
            ),
            extends(*old(image), *final(image)),
            final(self).wf(final(image)@),
            final(image).wf(),
            final(self).lru == old(self).lru,
            final(self).capacity == old(self).capacity,
            final(self).map@.dom() == old(self).map@.dom(),
            forall|b: u64| #[trigger]
                final(self).map@.contains_key(b) ==> !final(self).map@[b].dirty,
            same_disk(*old(self), old(image)@, *final(self), final(image)@),
            forall|b: int|
                b >= 0 ==> #[trigger] image_block(final(image)@, b) == disk_block(
                    *old(self),
                    old(image)@,
                    b,
                ),
            image_kept(*old(self), old(image)@, final(image)@),
    {
        let n: usize = self.lru.len();
        let mut i: usize = 0;
        while i < n
            invariant
                i <= n,
                n == self.lru@.len(),
                self.wf(image@),
                image.wf(),
                extends(*old(image), *image),
                within(*old(self), old(image)@.len() as int) ==> image@.len() == old(image)@.len(),
                all_written(*old(self)) ==> all_written(*self) && *image == *old(image),
                self.lru == old(self).lru,
                self.capacity == old(self).capacity,
                self.map@.dom() == old(self).map@.dom(),
                forall|j: int| 0 <= j < i ==> !self.map@[#[trigger] self.lru@[j]].dirty,
                same_disk(*old(self), old(image)@, *self, image@),
                image_kept(*old(self), old(image)@, image@),
            decreases n - i,
        {
            let b: u64 = self.lru[i];
            assert(self.lru@.contains(b));
            let ghost c1 = *self;
            let ghost i1 = image@;
            self.flush_block(image, b);
            assert forall|j: int| 0 <= j < i + 1 implies !self.map@[#[trigger] self.lru@[j]].dirty by {
                assert(c1.lru@.contains(c1.lru@[j]));
                assert(c1.map@.contains_key(c1.lru@[j]));
            }
            assert(same_disk(*old(self), old(image)@, *self, image@)) by {
                assert forall|x: int| x >= 0 implies #[trigger] disk_block(*self, image@, x)
                    == disk_block(*old(self), old(image)@, x) by {
                    assert(disk_block(c1, i1, x) == disk_block(*old(self), old(image)@, x));
                }
            }
            assert(image_kept(*old(self), old(image)@, image@)) by {
                assert forall|x: int|
                    0 <= x <= u64::MAX && !old(self).map@.contains_key(
                        x as u64,
                    ) implies #[trigger] image_block(image@, x) == image_block(old(image)@, x) by {
                    assert(c1.map@.dom().contains(x as u64) == old(self).map@.dom().contains(
                        x as u64,
                    ));
                    assert(image_block(i1, x) == image_block(old(image)@, x));
                }
            }
            i = i + 1;
        }
        assert forall|b: u64| #[trigger] self.map@.contains_key(b) implies !self.map@[b].dirty by {
            assert(self.lru@.contains(b));
            let j = self.lru@.index_of(b);
            assert(self.lru@[j] == b);
        }
        assert forall|b: int| b >= 0 implies #[trigger] image_block(image@, b) == disk_block(
            *old(self),
            old(image)@,
            b,
        ) by {
            assert(disk_block(*self, image@, b) == disk_block(*old(self), old(image)@, b));
            if b <= u64::MAX && self.map@.contains_key(b as u64) {
            }
        }
    }

    /// Forgets every block from `min_block` on.
    pub fn drop_from(&mut self, min_block: u64)
        requires
            old(self).lru@.no_duplicates(),
            forall|b: u64| #[trigger]
                old(self).lru@.contains(b) <==> old(self).map@.contains_key(b),
        ensures
            final(self).lru@.no_duplicates(),
            final(self).map@ == old(self).map@.restrict(Set::new(|b: u64| b < min_block)),
            final(self).lru@ == old(self).lru@.filter(|b: u64| b < min_block),
            final(self).capacity == old(self).capacity,
            forall|image: Seq<u8>|
                old(self).wf(image) ==> #[trigger] final(self).wf(image),
    {
        let mut i: usize = 0;
        let ghost stays = |b: u64| b < min_block;
        let ghost all = self.lru@;
        let ghost mut p: int = 0;
        proof {
            reveal(Seq::filter);
            assert(all.take(0).filter(stays) + all.skip(0) =~= all);
        }
        while i < self.lru.len()
            invariant
                stays == (|b: u64| b < min_block),
                all == old(self).lru@,
                0 <= p <= all.len(),
                i == all.take(p).filter(stays).len(),
                self.lru@ == all.take(p).filter(stays) + all.skip(p),
                self.capacity == old(self).capacity,
                old(self).map@.len() == all.len() ==> self.map@.len() == self.lru@.len(),
                i <= self.lru@.len(),
                self.lru@.no_duplicates(),
                forall|b: u64| #[trigger] self.lru@.contains(b) <==> self.map@.contains_key(b),
                forall|b: u64| #[trigger]
                    self.map@.contains_key(b) ==> old(self).map@.contains_key(b) && self.map@[b]
                        == old(self).map@[b],
                forall|b: u64|
                    b < min_block && #[trigger] old(self).map@.contains_key(b)
                        ==> self.map@.contains_key(b),
                forall|j: int| 0 <= j < i ==> #[trigger] self.lru@[j] < min_block,
            decreases self.lru@.len() - i,
        {
            let b: u64 = self.lru[i];
            assert(self.lru@.contains(b));
            let ghost done = all.take(p).filter(stays);
            proof {
                reveal(Seq::filter);
                assert(self.lru@[i as int] == all.skip(p)[0]);
                assert(all.take(p + 1).drop_last() =~= all.take(p));
                assert(all.skip(p) =~= seq![b] + all.skip(p + 1));
            }
            if b < min_block {
                proof {
                    assert(all.take(p + 1).filter(stays) == done.push(b));
                    assert(done.push(b) + all.skip(p + 1) =~= done + all.skip(p));
                    p = p + 1;
                }
                i = i + 1;
            } else {
                let ghost before = *self;
                let _ = self.lru.remove(i);
                let _ = self.map.remove(&b);
                assert(self.lru@ =~= before.lru@.remove(i as int));
                assert(self.map@ =~= before.map@.remove(b));
                assert(before.lru@ == done + all.skip(p));
                assert(before.lru@.remove(i as int) =~= done + all.skip(p + 1));
                proof {
                    p = p + 1;
                }
                assert forall|x: u64| #[trigger] self.lru@.contains(x)
                    <==> self.map@.contains_key(x) by {
                    if self.lru@.contains(x) {
                        let k = self.lru@.index_of(x);
                        if k < i {
                            assert(before.lru@[k] == x);
                        } else {
                            assert(before.lru@[k + 1] == x);
                        }
                        assert(before.lru@.contains(x));
                    }
                    if self.map@.contains_key(x) {
                        assert(before.lru@.contains(x));
                        let k = before.lru@.index_of(x);
                        if k < i {
                            assert(self.lru@[k] == x);
                        } else {
                            assert(self.lru@[k - 1] == x);
                        }
                    }
                }
                assert forall|j: int| 0 <= j < i implies #[trigger] self.lru@[j] < min_block by {
                    assert(self.lru@[j] == before.lru@[j]);
                }
            }
        }
        assert(all.take(all.len() as int) =~= all);
        assert(p == all.len());
        assert(self.lru@ =~= all.filter(stays));
        assert forall|b: u64| self.map@.contains_key(b) implies b < min_block by {
            assert(self.lru@.contains(b));
            let k = self.lru@.index_of(b);
            assert(self.lru@[k] == b);
        }
        assert(self.map@ =~= old(self).map@.restrict(Set::new(|b: u64| b < min_block)));
        assert forall|image: Seq<u8>| old(self).wf(image) implies #[trigger] self.wf(image) by {
            all.lemma_filter_len(stays);
            assert forall|b: u64| #[trigger] self.map@.contains_key(b) implies b < max_blocks() && self.map@[b].data@.len() == 4096 && (self.map@[b].dirty
                || self.map@[b].data@ == image_block(image, b as int)) by {
                assert(old(self).map@.contains_key(b));
            }
        }
    }
}

} // verus!
