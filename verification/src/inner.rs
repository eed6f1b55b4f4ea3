//! Core filesystem engine: the mounted volume with its inodes.

use std::collections::{HashMap, HashSet};

use vstd::prelude::*;

use crate::blocks::all_raw;
use crate::bytes::padded;
use crate::compress::{
    compression_code, compression_of, normal_record_blocks, Compression, DEFAULT_RECORD_BLOCKS,
};
use crate::extents::{
    at_place, ext_wf, exts_claimed, exts_readable, exts_wf, find_ext, lemma_exts_kept,
    lemma_find_some, lookup, owns_only, record_size_ok, sum_plen, ubyte, Loc, MAX_FILE_BLOCKS,
};
use crate::format::{
    Extent, Superblock, FLAG_COMPRESSED, INLINE_MAX, MAX_DIRECT_EXTENTS, MAX_TABLE_EXTENTS,
};
use crate::inode::{parsed_inode, Inode};
use crate::journal::Journal;
use crate::model::{meta_of, FsView, Node};
use crate::options::SyncMode;
use crate::records::is_record_start;
use crate::store::max_blocks;
use crate::tree::tree_block;
use crate::types::{Timespec, MAX_FILE_SIZE};
use crate::volume::{frame, Owner, Owners, Volume};
use crate::xattr::{attrs, xattr_bytes};

verus! {

broadcast use vstd::std_specs::hash::group_hash_axioms;

/// A record of a file in memory.
pub struct RecordCache {
    pub ino: u64,
    /// First block of the record.
    pub start: u64,
    pub data: Vec<u8>,
    pub dirty: bool,
}

/// A mounted volume.
pub struct Inner {
    pub vol: Volume,
    pub sb: Superblock,
    pub journal: Journal,
    pub inodes: HashMap<u64, Inode>,
    /// Inodes that the inode table does not hold as they are.
    pub dirty_inodes: Vec<u64>,
    pub free_inodes: Vec<u64>,
    pub open_count: HashMap<u64, u32>,
    pub orphans: HashSet<u64>,
    pub writable: bool,
    pub sync_mode: SyncMode,
    pub check_perm: bool,
    pub default_compression: Compression,
    pub record_blocks: u32,
    pub record_cache: Option<RecordCache>,
    /// The time that changes are stamped with.
    pub clock: Timespec,
}

/// Whether byte `p` of inode `ino` lies in the record in memory.
pub open spec fn covers(rc: Option<RecordCache>, rb: int, ino: u64, p: int) -> bool {
    rc matches Some(c) && c.ino == ino && c.start * 4096 <= p < (c.start + rb) * 4096
}

/// Byte `p` of a file.
pub open spec fn fbyte(v: Volume, rc: Option<RecordCache>, rb: int, i: Inode, p: int) -> u8 {
    if i.data_kind is Inline {
        if p < i.inline_data@.len() {
            i.inline_data@[p]
        } else {
            0
        }
    } else if covers(rc, rb, i.ino, p) {
        (rc->0).data@[p - (rc->0).start * 4096]
    } else {
        ubyte(v, i.extents@, p)
    }
}

/// The contents of a file.
pub open spec fn content(v: Volume, rc: Option<RecordCache>, rb: int, i: Inode) -> Seq<u8> {
    Seq::new(i.size as nat, |p: int| fbyte(v, rc, rb, i, p))
}

/// The file that an inode stands for.
pub open spec fn node_of(v: Volume, rc: Option<RecordCache>, rb: int, i: Inode) -> Node {
    Node { meta: meta_of(i), data: content(v, rc, rb, i), xattr: attrs(i.xattr@) }
}

/// The blocks of an inode that hold no file data are its own.
pub open spec fn meta_claimed(m: Owners, i: Inode) -> bool {
    &&& i.xattr_block != 0 ==> m.contains_key(i.xattr_block as int) && m[i.xattr_block as int]
        == Owner::Xattr(i.ino)
    &&& i.extent_tree != 0 ==> i.extent_tree_blocks > 0 && i.extent_tree + i.extent_tree_blocks
        <= max_blocks()
    &&& forall|b: int|
        i.extent_tree != 0 && i.extent_tree <= b < i.extent_tree + i.extent_tree_blocks
            ==> #[trigger] m.contains_key(b) && m[b] == Owner::Tree(i.ino)
}

/// The shape of an inode: small files are inline, all others have extents.
pub open spec fn inode_shape(i: Inode, rb: int) -> bool {
    &&& i.mode != 0
    &&& i.size <= MAX_FILE_SIZE
    &&& i.data_kind is Inline ==> i.extents@.len() == 0 && i.inline_data@.len() == i.size
        && i.size <= INLINE_MAX
    &&& !(i.data_kind is Inline) ==> i.inline_data@.len() == 0
    &&& exts_wf(i.extents@, rb)
    &&& i.flags & FLAG_COMPRESSED == 0 ==> all_raw(i.extents@)
    &&& i.blocks == 8 * sum_plen(i.extents@)
}

/// What lies behind the end of a file is zero.
pub open spec fn tail_zero(v: Volume, rc: Option<RecordCache>, rb: int, i: Inode) -> bool {
    forall|p: int| p >= i.size ==> #[trigger] fbyte(v, rc, rb, i, p) == 0
}

/// An inode is in order.
pub open spec fn inode_ok(v: Volume, rc: Option<RecordCache>, rb: int, i: Inode) -> bool {
    &&& inode_shape(i, rb)
    &&& exts_claimed(v.owner@, i.ino, i.extents@)
    &&& meta_claimed(v.owner@, i)
    &&& tail_zero(v, rc, rb, i)
}

/// The record in memory is in order: it belongs to a file with extents, and what is not dirty is
/// what stands on disk.
pub open spec fn rc_ok(
    v: Volume,
    rc: Option<RecordCache>,
    rb: int,
    inodes: Map<u64, Inode>,
) -> bool {
    rc matches Some(c) ==> {
        &&& inodes.contains_key(c.ino)
        &&& !(inodes[c.ino].data_kind is Inline)
        &&& inodes[c.ino].compresses()
        &&& c.data@.len() == rb * 4096
        &&& is_record_start(c.start as int, rb)
        &&& !c.dirty ==> forall|q: int|
            0 <= q < rb * 4096 ==> #[trigger] c.data@[q] == ubyte(
                v,
                inodes[c.ino].extents@,
                c.start * 4096 + q,
            )
    }
}

/// The inode table: extents without gaps from block 0 on, in blocks of its own.
pub open spec fn table_ok(m: Owners, t: Seq<Extent>) -> bool {
    &&& t.len() > 0
    &&& t[0].logical == 0
    &&& forall|k: int| 0 <= k < t.len() - 1 ==> (#[trigger] t[k]).lend() == t[k + 1].logical
    &&& forall|k: int|
        0 <= k < t.len() ==> (#[trigger] t[k]).length > 0 && t[k].phys_length == 0 && t[k].compress
            == 0 && t[k].lend() <= MAX_FILE_BLOCKS && table_ext_claimed(m, t[k])
    &&& crate::extents::exts_ordered(t)
}

/// The physical blocks of a table extent belong to the table.
pub open spec fn table_ext_claimed(m: Owners, e: Extent) -> bool {
    &&& e.physical + e.length <= max_blocks()
    &&& forall|b: int|
        e.physical <= b < e.physical + e.length ==> #[trigger] m.contains_key(b) && m[b]
            == Owner::Table(e.logical + (b - e.physical))
}

/// Number of inodes that the table has room for.
pub open spec fn table_capacity(t: Seq<Extent>) -> int {
    if t.len() == 0 {
        0
    } else {
        16 * t.last().lend()
    }
}

/// The 256 bytes of inode `ino` in the table.
pub open spec fn slot(v: Volume, t: Seq<Extent>, ino: int) -> Seq<u8> {
    match lookup(t, ino / 16) {
        Some(Loc::Raw(b)) => v.d(b).subrange(ino % 16 * 256, ino % 16 * 256 + 256),
        _ => Seq::empty(),
    }
}

/// The disk holds the inode as it is.
pub open spec fn persisted(v: Volume, t: Seq<Extent>, i: Inode) -> bool {
    &&& slot(v, t, i.ino as int) == i@.bytes()
    &&& i.extents@.len() <= u32::MAX
    &&& if i.xattr@.len() == 0 {
        i.xattr_block == 0
    } else {
        i.xattr_block != 0 && xattr_bytes(attrs(i.xattr@)).len() <= 4096 && v.d(
            i.xattr_block as int,
        ) == padded(xattr_bytes(attrs(i.xattr@)), 4096)
    }
    &&& if i.extents@.len() <= MAX_DIRECT_EXTENTS {
        i.extent_tree == 0 && !(i.data_kind is ExtentTree)
    } else {
        &&& i.extent_tree != 0
        &&& i.data_kind is ExtentTree
        &&& tree_stands(v, i)
    }
}

/// The extent tree of an inode holds its extents.
pub open spec fn tree_stands(v: Volume, i: Inode) -> bool {
    &&& i.extent_tree_blocks == crate::tree::tree_blocks(i.extents@.len() as int)
    &&& forall|b: int|
        i.extent_tree <= b < i.extent_tree + i.extent_tree_blocks ==> #[trigger] v.d(b)
            == tree_block(i.extents@, i.extent_tree_blocks as int, b - i.extent_tree)
}

/// The disk holds every inode that is not dirty, and the table has no inode that is not in use.
pub open spec fn synced(
    v: Volume,
    t: Seq<Extent>,
    inodes: Map<u64, Inode>,
    dirty: Seq<u64>,
    next: u64,
) -> bool {
    &&& forall|ino: u64| #[trigger]
        inodes.contains_key(ino) && !dirty.contains(ino) ==> persisted(v, t, inodes[ino])
    &&& forall|ino: u64|
        0 < ino < next && !#[trigger] inodes.contains_key(ino) ==> parsed_inode(
            slot(v, t, ino as int),
        ) is None
}

/// Block `b` is in use by what `o` says: by the data, the extent tree or the attributes of an inode
/// that is there, by the inode table `t`, or by the free-space map at block `area`.
pub open spec fn in_place(
    v: Volume,
    inodes: Map<u64, Inode>,
    t: Seq<Extent>,
    area: u64,
    b: int,
    o: Owner,
) -> bool {
    match o {
        Owner::Data(ino, _) => inodes.contains_key(ino) && in_inode(inodes[ino], b, o),
        Owner::Tree(ino) => inodes.contains_key(ino) && in_inode(inodes[ino], b, o),
        Owner::Xattr(ino) => inodes.contains_key(ino) && in_inode(inodes[ino], b, o),
        Owner::Table(l) => at_place(t, l, b),
        Owner::Area => area != 0 && area <= b < area + crate::allocmap::area_len(v.d(area as int)),
        Owner::Fresh => false,
    }
}

/// Block `b` is in use by inode `i`, as `o` says.
pub open spec fn in_inode(i: Inode, b: int, o: Owner) -> bool {
    match o {
        Owner::Data(_, l) => at_place(i.extents@, l, b),
        Owner::Tree(_) => i.extent_tree != 0 && i.extent_tree <= b < i.extent_tree
            + i.extent_tree_blocks,
        Owner::Xattr(_) => i.xattr_block != 0 && b == i.xattr_block,
        _ => false,
    }
}

/// Every block with an owner is in use by it.
pub open spec fn places_ok(
    v: Volume,
    inodes: Map<u64, Inode>,
    t: Seq<Extent>,
    area: u64,
) -> bool {
    forall|b: int| #[trigger]
        v.owner@.contains_key(b) ==> in_place(v, inodes, t, area, b, v.owner@[b])
}

/// The record size of a volume whose superblock says `n`.
pub open spec fn mounted_record_blocks(n: u8) -> u32 {
    if n == 0 {
        DEFAULT_RECORD_BLOCKS
    } else {
        normal_record_blocks(n as u32)
    }
}

impl Inner {
    pub open spec fn rb(&self) -> int {
        self.record_blocks as int
    }

    pub open spec fn table(&self) -> Seq<Extent> {
        self.sb.inode_table_extents@
    }

    /// Every inode is in order.
    pub open spec fn inodes_ok(&self) -> bool {
        forall|ino: u64| #[trigger]
            self.inodes@.contains_key(ino) ==> self.inodes@[ino].ino == ino && 0 < ino
                < self.sb.next_inode && inode_ok(
                self.vol,
                self.record_cache,
                self.rb(),
                self.inodes@[ino],
            )
    }

    /// The lists of inode numbers are in order.
    pub open spec fn lists_ok(&self) -> bool {
        &&& self.free_inodes@.no_duplicates()
        &&& forall|k: int|
            0 <= k < self.free_inodes@.len() ==> 2 <= #[trigger] self.free_inodes@[k]
                < self.sb.next_inode && !self.inodes@.contains_key(self.free_inodes@[k])
        &&& self.sb.free_inode_count == self.free_inodes@.len()
        &&& self.sb.inode_count == self.inodes@.len()
        &&& forall|ino: u64| #[trigger]
            self.dirty_inodes@.contains(ino) ==> self.inodes@.contains_key(ino)
    }

    /// The superblock fits the volume.
    pub open spec fn super_ok(&self) -> bool {
        &&& self.sb.uuid@.len() == 16
        &&& self.sb.version == crate::format::VERSION
        &&& self.sb.block_size == crate::format::BLOCK_SIZE
        &&& self.sb.first_data_block == self.vol.alloc.first_data
        &&& self.sb.first_data_block == 2 + self.sb.journal_blocks
        &&& 0 < self.sb.next_inode <= table_capacity(self.table())
        &&& table_ok(self.vol.owner@, self.table())
        &&& self.table().len() <= MAX_TABLE_EXTENTS
        &&& self.journal.start_block == 1
        &&& self.journal.blocks == self.sb.journal_blocks
        &&& self.journal.head == self.sb.journal_head
        &&& self.record_blocks == mounted_record_blocks(self.sb.record_blocks)
        &&& self.default_compression == compression_of(self.sb.default_compression)
    }

    /// The blocks of the free-space map on disk belong to it.
    pub open spec fn area_ok(&self) -> bool {
        self.sb.alloc_block != 0 ==> {
            let n = crate::allocmap::area_len(self.vol.d(self.sb.alloc_block as int));
            &&& crate::allocmap::is_area_head(self.vol.d(self.sb.alloc_block as int))
            &&& n > 0
            &&& (self.sb.alloc_block + 1) * 4096 <= self.vol.image@.len()
            &&& forall|b: int|
                self.sb.alloc_block <= b < self.sb.alloc_block + n
                    ==> #[trigger] self.vol.owner@.contains_key(b) && self.vol.owner@[b]
                    == Owner::Area
        }
    }

    /// The mounted volume is consistent.
    pub open spec fn wf(&self) -> bool {
        &&& self.vol.wf()
        &&& record_size_ok(self.rb())
        &&& self.super_ok()
        &&& self.area_ok()
        &&& self.inodes_ok()
        &&& self.lists_ok()
        &&& rc_ok(self.vol, self.record_cache, self.rb(), self.inodes@)
        &&& places_ok(self.vol, self.inodes@, self.table(), self.sb.alloc_block)
        &&& synced(
            self.vol,
            self.table(),
            self.inodes@,
            self.dirty_inodes@,
            self.sb.next_inode,
        )
    }

    /// Every compressed record on the volume can be unpacked.
    pub open spec fn sound(&self) -> bool {
        forall|ino: u64| #[trigger]
            self.inodes@.contains_key(ino) ==> exts_readable(
                self.vol,
                self.inodes@[ino].extents@,
            )
    }

    /// Blocks to be kept for the record in memory, where it is not stored yet.
    pub open spec fn pending(&self) -> int {
        if self.record_cache matches Some(c) && c.dirty {
            64
        } else {
            0
        }
    }

    /// Where the blocks in use end once the record in memory is stored.
    pub open spec fn load(&self) -> int {
        self.vol.end() + self.pending()
    }

    /// Nothing is left to be written to the image but inodes.
    pub open spec fn idle(&self) -> bool {
        self.vol.idle() && !(self.record_cache matches Some(c) && c.dirty)
    }

    /// Less than `want` blocks are left up to the limit of what an image can hold.
    pub open spec fn full(&self, want: int) -> bool {
        self.load() + want > max_blocks()
    }

    /// Inodes that can still be created, as far as the inode table goes, however its blocks come to
    /// lie: those with a slot, and those of every extent that the superblock can still list.
    pub open spec fn inodes_left(&self) -> int {
        self.free_inodes@.len() - self.sb.next_inode + spread(self.table())
    }
}

/// No file has compressed records, or may get some.
#[verifier::opaque]
pub open spec fn all_bare(inodes: Map<u64, Inode>) -> bool {
    forall|ino: u64| #[trigger] inodes.contains_key(ino) ==> !inodes[ino].compresses()
}

/// A volume without compression.
pub open spec fn bare(s: Inner) -> bool {
    s.default_compression is Off && all_bare(s.inodes@)
}

/// Blocks by which an inode table of `n` extents grows: twice as many for every extent, so that
/// the few extents that a superblock lists go far.
pub open spec fn table_step(n: int) -> int
    decreases n,
{
    if n <= 1 {
        2
    } else if n >= 11 {
        2048
    } else {
        2 * table_step(n - 1)
    }
}

/// Slots that an inode table of `n` extents gets at least before the superblock can list no more
/// of them.
pub open spec fn slots_to_come(n: int) -> int
    decreases MAX_TABLE_EXTENTS - n,
{
    if n >= MAX_TABLE_EXTENTS {
        0
    } else {
        16 * table_step(n) + slots_to_come(n + 1)
    }
}

/// Slots that the inode table has, and those that it gets at least.
#[verifier::opaque]
pub open spec fn spread(t: Seq<Extent>) -> int {
    table_capacity(t) + slots_to_come(t.len() as int)
}

/// All that the journal holds was written to its place.
pub open spec fn drained(s: Inner) -> bool {
    s.sb.journal_tail == s.sb.journal_head
}

/// What the superblock of a volume never changes: what tells the volume from others, and how it is
/// laid out.
pub open spec fn same_volume(a: Superblock, b: Superblock) -> bool {
    &&& b.uuid@ == a.uuid@
    &&& b.generation == a.generation
    &&& b.root_ino == a.root_ino
    &&& b.features == a.features
    &&& b.journal_blocks == a.journal_blocks
    &&& b.record_blocks == a.record_blocks
}

/// What every step holds to: which volume it is, records that can be unpacked, the track of every
/// block in use, the size of the cache, the slots of the inode table, and a journal that was written
/// to its place.
pub open spec fn holds(s0: Inner, s1: Inner) -> bool {
    &&& same_volume(s0.sb, s1.sb)
    &&& s0.sound() ==> s1.sound()
    &&& s1.vol.lost == s0.vol.lost
    &&& s1.vol.cache.capacity == s0.vol.cache.capacity
    &&& s1.default_compression == s0.default_compression
    &&& spread(s1.table()) >= spread(s0.table())
    &&& drained(s0) ==> drained(s1)
}

/// What every step keeps on a read-only volume: its image, and what it owes the host file.
pub open spec fn hushed(s0: Inner, s1: Inner) -> bool {
    !s0.writable && s0.idle() ==> !s1.writable && s1.idle() && s1.vol.image == s0.vol.image
}

/// What every step keeps but one that chooses a compression or waits for the host.
pub open spec fn keeps(s0: Inner, s1: Inner) -> bool {
    &&& holds(s0, s1)
    &&& bare(s0) ==> bare(s1)
    &&& hushed(s0, s1)
}

/// An inode is put in the place of another, or added.
pub proof fn lemma_bare_put(m: Map<u64, Inode>, ino: u64, i: Inode)
    requires
        all_bare(m),
        !i.compresses(),
    ensures
        all_bare(m.insert(ino, i)),
{
    reveal(all_bare);
    assert forall|x: u64| #[trigger] m.insert(ino, i).contains_key(x) implies !m.insert(
        ino,
        i,
    )[x].compresses() by {
        if x != ino {
            assert(m.contains_key(x));
        }
    }
}

/// The files of a volume.
pub open spec fn nodes_of(
    v: Volume,
    rc: Option<RecordCache>,
    rb: int,
    inodes: Map<u64, Inode>,
) -> Map<u64, Node> {
    Map::new(
        |ino: u64| inodes.contains_key(ino),
        |ino: u64| node_of(v, rc, rb, inodes[ino]),
    )
}

impl View for Inner {
    type V = FsView;

    open spec fn view(&self) -> FsView {
        FsView {
            nodes: nodes_of(self.vol, self.record_cache, self.rb(), self.inodes@),
            opens: self.open_count@,
            orphans: self.orphans@,
            free_inodes: self.free_inodes@,
            next_inode: self.sb.next_inode,
            writable: self.writable,
            check_perm: self.check_perm,
            clock: self.clock,
            default_compression: compression_code(self.default_compression),
        }
    }
}

/// The record in memory, as far as inodes other than `ino` are concerned, is the same.
pub open spec fn rc_kept(
    rc0: Option<RecordCache>,
    rc1: Option<RecordCache>,
    ino: u64,
) -> bool {
    &&& rc0 matches Some(c) ==> c.ino != ino ==> rc1 == rc0
    &&& rc1 matches Some(c) ==> c.ino != ino ==> rc1 == rc0
}

/// A block with owner `o` belongs to inode `ino`.
pub open spec fn owned_by(o: Owner, ino: u64) -> bool {
    o == Owner::Xattr(ino) || o == Owner::Tree(ino) || (o is Data && o->Data_0 == ino)
}

/// The blocks of inode `ino` are left alone.
pub open spec fn own_kept(v0: Volume, v1: Volume, ino: u64) -> bool {
    forall|b: int| #[trigger]
        v0.owner@.contains_key(b) && owned_by(v0.owner@[b], ino) ==> v1.owner@.contains_key(b)
            && v1.owner@[b] == v0.owner@[b] && v1.d(b) == v0.d(b)
}

/// The record in memory is the same, as far as inode `ino` is concerned.
pub open spec fn rc_same_for(
    rc0: Option<RecordCache>,
    rc1: Option<RecordCache>,
    ino: u64,
) -> bool {
    &&& rc0 matches Some(c) ==> c.ino == ino ==> rc1 == rc0
    &&& rc1 matches Some(c) ==> c.ino == ino ==> rc1 == rc0
}

/// An inode whose blocks are left alone is in order as before, and stands for the same file.
pub proof fn lemma_inode_own(
    v0: Volume,
    v1: Volume,
    rc0: Option<RecordCache>,
    rc1: Option<RecordCache>,
    rb: int,
    i: Inode,
)
    requires
        inode_ok(v0, rc0, rb, i),
        own_kept(v0, v1, i.ino),
        rc_same_for(rc0, rc1, i.ino),
    ensures
        inode_ok(v1, rc1, rb, i),
        forall|p: int| #[trigger] fbyte(v1, rc1, rb, i, p) == fbyte(v0, rc0, rb, i, p),
        node_of(v1, rc1, rb, i) == node_of(v0, rc0, rb, i),
        exts_readable(v0, i.extents@) ==> exts_readable(v1, i.extents@),
        forall|p: int| #[trigger] ubyte(v1, i.extents@, p) == ubyte(v0, i.extents@, p),
{
    assert forall|k: int| 0 <= k < i.extents@.len() && (#[trigger] i.extents@[k]).compress
        == 0 implies i.extents@[k].plen() == i.extents@[k].length by {
        assert(ext_wf(i.extents@[k], rb));
    }
    lemma_exts_kept(v0, v1, i.ino, i.extents@);
    assert(meta_claimed(v1.owner@, i)) by {
        if i.xattr_block != 0 {
            assert(v0.owner@.contains_key(i.xattr_block as int));
        }
        assert forall|b: int|
            i.extent_tree != 0 && i.extent_tree <= b < i.extent_tree
                + i.extent_tree_blocks implies #[trigger] v1.owner@.contains_key(b)
            && v1.owner@[b] == Owner::Tree(i.ino) by {
            assert(v0.owner@.contains_key(b));
        }
    }
    assert forall|p: int| #[trigger] fbyte(v1, rc1, rb, i, p) == fbyte(v0, rc0, rb, i, p) by {
        assert(covers(rc1, rb, i.ino, p) == covers(rc0, rb, i.ino, p));
        assert(ubyte(v1, i.extents@, p) == ubyte(v0, i.extents@, p));
    }
    assert(tail_zero(v1, rc1, rb, i)) by {
        assert forall|p: int| p >= i.size implies #[trigger] fbyte(v1, rc1, rb, i, p) == 0 by {
            assert(fbyte(v0, rc0, rb, i, p) == 0);
        }
    }
    assert(content(v1, rc1, rb, i) =~= content(v0, rc0, rb, i)) by {
        assert forall|p: int| 0 <= p < i.size implies content(v1, rc1, rb, i)[p] == content(
            v0,
            rc0,
            rb,
            i,
        )[p] by {
            assert(fbyte(v1, rc1, rb, i, p) == fbyte(v0, rc0, rb, i, p));
        }
    }
}

/// A step on behalf of another inode leaves inode `i` alone.
pub proof fn lemma_inode_kept(
    v0: Volume,
    v1: Volume,
    rc0: Option<RecordCache>,
    rc1: Option<RecordCache>,
    rb: int,
    i: Inode,
    ino: u64,
)
    requires
        inode_ok(v0, rc0, rb, i),
        frame(v0, v1, ino),
        i.ino != ino,
        rc_kept(rc0, rc1, ino),
    ensures
        inode_ok(v1, rc1, rb, i),
        forall|p: int| #[trigger] fbyte(v1, rc1, rb, i, p) == fbyte(v0, rc0, rb, i, p),
        node_of(v1, rc1, rb, i) == node_of(v0, rc0, rb, i),
        exts_readable(v0, i.extents@) ==> exts_readable(v1, i.extents@),
        forall|p: int| #[trigger] ubyte(v1, i.extents@, p) == ubyte(v0, i.extents@, p),
{
    lemma_inode_own(v0, v1, rc0, rc1, rb, i);
}

/// The slots of the inode table are left alone where its blocks are.
pub proof fn lemma_slot_kept(v0: Volume, v1: Volume, t: Seq<Extent>, ino: int)
    requires
        table_ok(v0.owner@, t),
        forall|b: int| #[trigger]
            v0.owner@.contains_key(b) && v0.owner@[b] is Table ==> v1.d(b) == v0.d(b),
    ensures
        slot(v1, t, ino) == slot(v0, t, ino),
{
    let l = ino / 16;
    lemma_find_some(t, l);
    if let Some(e) = find_ext(t, l) {
        let k = t.index_of(e);
        assert(table_ext_claimed(v0.owner@, t[k]));
        assert(v0.owner@.contains_key(e.physical + (l - e.logical)));
    }
}

/// A table that is left alone stays in order.
pub proof fn lemma_table_kept(m0: Owners, m1: Owners, t: Seq<Extent>)
    requires
        table_ok(m0, t),
        forall|b: int| #[trigger]
            m0.contains_key(b) && m0[b] is Table ==> m1.contains_key(b) && m1[b] == m0[b],
    ensures
        table_ok(m1, t),
{
    assert forall|k: int| 0 <= k < t.len() implies (#[trigger] t[k]).length > 0 && t[k].phys_length
        == 0 && t[k].compress == 0 && t[k].lend() <= MAX_FILE_BLOCKS && table_ext_claimed(
        m1,
        t[k],
    ) by {
        let e = t[k];
        assert(table_ext_claimed(m0, t[k]));
        assert forall|b: int| e.physical <= b < e.physical + e.length implies #[trigger] m1.contains_key(
            b) && m1[b] == Owner::Table(e.logical + (b - e.physical)) by {
            assert(m0.contains_key(b));
        }
    }
}

/// An inode that the disk holds is still held where its slot and its blocks are left alone.
pub proof fn lemma_persisted_own(v0: Volume, v1: Volume, t0: Seq<Extent>, t1: Seq<Extent>, i: Inode)
    requires
        slot(v1, t1, i.ino as int) == slot(v0, t0, i.ino as int),
        meta_claimed(v0.owner@, i),
        persisted(v0, t0, i),
        own_kept(v0, v1, i.ino),
    ensures
        persisted(v1, t1, i),
{
    if i.xattr_block != 0 {
        assert(v0.owner@.contains_key(i.xattr_block as int));
    }
    if i.extents@.len() > MAX_DIRECT_EXTENTS {
        assert forall|b: int|
            i.extent_tree <= b < i.extent_tree + i.extent_tree_blocks implies #[trigger] v1.d(b)
            == tree_block(i.extents@, i.extent_tree_blocks as int, b - i.extent_tree) by {
            assert(v0.owner@.contains_key(b));
            assert(v0.d(b) == tree_block(i.extents@, i.extent_tree_blocks as int, b
                - i.extent_tree));
        }
    }
}

/// An inode that the disk holds is still held after a step that leaves the table and its blocks
/// alone.
pub proof fn lemma_persisted_kept(v0: Volume, v1: Volume, t: Seq<Extent>, i: Inode)
    requires
        table_ok(v0.owner@, t),
        meta_claimed(v0.owner@, i),
        persisted(v0, t, i),
        forall|b: int| #[trigger]
            v0.owner@.contains_key(b) && (v0.owner@[b] is Table || v0.owner@[b] == Owner::Xattr(
                i.ino,
            ) || v0.owner@[b] == Owner::Tree(i.ino)) ==> v1.d(b) == v0.d(b),
    ensures
        persisted(v1, t, i),
{
    lemma_slot_kept(v0, v1, t, i.ino as int);
    if i.xattr_block != 0 {
        assert(v0.owner@.contains_key(i.xattr_block as int));
    }
    if i.extents@.len() > MAX_DIRECT_EXTENTS {
        assert forall|b: int|
            i.extent_tree <= b < i.extent_tree + i.extent_tree_blocks implies #[trigger] v1.d(b)
            == tree_block(i.extents@, i.extent_tree_blocks as int, b - i.extent_tree) by {
            assert(v0.owner@.contains_key(b));
            assert(v0.d(b) == tree_block(i.extents@, i.extent_tree_blocks as int, b
                - i.extent_tree));
        }
    }
}

/// What a step on the data of one inode changes: the volume within the frame of that inode, the
/// inode itself, and the record in memory. The inode is dirty from now on.
pub open spec fn stepped(s0: Inner, s1: Inner, ino: u64, i1: Inode) -> bool {
    &&& s1.vol.wf()
    &&& frame(s0.vol, s1.vol, ino)
    &&& s1.inodes@ == s0.inodes@.insert(ino, i1)
    &&& s1.sb@ == s0.sb@
    &&& s1.journal == s0.journal
    &&& s1.free_inodes@ == s0.free_inodes@
    &&& s1.open_count@ == s0.open_count@
    &&& s1.orphans@ == s0.orphans@
    &&& s1.writable == s0.writable
    &&& s1.sync_mode == s0.sync_mode
    &&& s1.check_perm == s0.check_perm
    &&& s1.default_compression == s0.default_compression
    &&& s1.record_blocks == s0.record_blocks
    &&& s1.clock == s0.clock
    &&& rc_kept(s0.record_cache, s1.record_cache, ino)
    &&& forall|x: u64| #[trigger]
        s1.dirty_inodes@.contains(x) <==> x == ino || s0.dirty_inodes@.contains(x)
}

/// An inode owns the blocks of its extents alone.
pub proof fn lemma_owns_only(s: Inner, ino: u64)
    requires
        s.wf(),
        s.inodes@.contains_key(ino),
    ensures
        owns_only(s.vol.owner@, ino, s.inodes@[ino].extents@),
{
    assert forall|b: int| #[trigger]
        s.vol.owner@.contains_key(b) && s.vol.owner@[b] is Data && s.vol.owner@[b]->Data_0
            == ino implies at_place(s.inodes@[ino].extents@, s.vol.owner@[b]->Data_1, b) by {
        assert(in_place(
            s.vol,
            s.inodes@,
            s.table(),
            s.sb.alloc_block,
            b,
            s.vol.owner@[b],
        ));
    }
}

/// Such a step keeps the volume consistent, and changes one file.
pub proof fn lemma_stepped(s0: Inner, s1: Inner, ino: u64, i1: Inode)
    requires
        s0.wf(),
        stepped(s0, s1, ino, i1),
        s0.inodes@.contains_key(ino),
        i1.ino == ino,
        i1.extent_tree == s0.inodes@[ino].extent_tree,
        i1.extent_tree_blocks == s0.inodes@[ino].extent_tree_blocks,
        i1.xattr_block == s0.inodes@[ino].xattr_block,
        owns_only(s1.vol.owner@, ino, i1.extents@),
        inode_ok(s1.vol, s1.record_cache, s1.rb(), i1),
        rc_ok(s1.vol, s1.record_cache, s1.rb(), s1.inodes@),
    ensures
        s1.wf(),
        s1@ == s0@.with(ino, node_of(s1.vol, s1.record_cache, s1.rb(), i1)),
        s0.sound() && exts_readable(s1.vol, i1.extents@) ==> s1.sound(),
        all_bare(s0.inodes@) && (i1.compresses() ==> s0.inodes@[ino].compresses()) ==> all_bare(
            s1.inodes@,
        ),
{
    let v0 = s0.vol;
    let v1 = s1.vol;
    let rb = s0.rb();
    let t = s0.table();
    if all_bare(s0.inodes@) && (i1.compresses() ==> s0.inodes@[ino].compresses()) {
        assert(!s0.inodes@[ino].compresses()) by {
            reveal(all_bare);
        }
        lemma_bare_put(s0.inodes@, ino, i1);
    }
    lemma_table_kept(v0.owner@, v1.owner@, t);
    assert forall|x: u64| #[trigger] s1.inodes@.contains_key(x) implies s1.inodes@[x].ino == x && 0
        < x < s1.sb.next_inode && inode_ok(v1, s1.record_cache, rb, s1.inodes@[x]) && (x != ino
        ==> node_of(v1, s1.record_cache, rb, s1.inodes@[x]) == node_of(
        v0,
        s0.record_cache,
        rb,
        s0.inodes@[x],
    ) && (exts_readable(v0, s0.inodes@[x].extents@) ==> exts_readable(
        v1,
        s0.inodes@[x].extents@,
    ))) by {
        assert(s0.inodes@.contains_key(x));
        if x != ino {
            lemma_inode_kept(
                v0,
                v1,
                s0.record_cache,
                s1.record_cache,
                rb,
                s0.inodes@[x],
                ino,
            );
        }
    }
    assert(s1.area_ok()) by {
        if s1.sb.alloc_block != 0 {
            let a = s1.sb.alloc_block as int;
            let n = crate::allocmap::area_len(v0.d(a));
            assert(v0.owner@.contains_key(a));
            assert forall|b: int| a <= b < a + n implies #[trigger] v1.owner@.contains_key(b)
                && v1.owner@[b] == Owner::Area by {
                assert(v0.owner@.contains_key(b));
            }
        }
    }
    assert(synced(v1, t, s1.inodes@, s1.dirty_inodes@, s1.sb.next_inode)) by {
        assert forall|x: u64| #[trigger]
            s1.inodes@.contains_key(x) && !s1.dirty_inodes@.contains(x) implies persisted(
            v1,
            t,
            s1.inodes@[x],
        ) by {
            assert(x != ino);
            assert(s0.inodes@.contains_key(x));
            assert(!s0.dirty_inodes@.contains(x));
            lemma_persisted_kept(v0, v1, t, s0.inodes@[x]);
        }
        assert forall|x: u64|
            0 < x < s1.sb.next_inode && !#[trigger] s1.inodes@.contains_key(
                x,
            ) implies parsed_inode(slot(v1, t, x as int)) is None by {
            assert(!s0.inodes@.contains_key(x));
            lemma_slot_kept(v0, v1, t, x as int);
        }
    }
    assert(places_ok(v1, s1.inodes@, t, s1.sb.alloc_block)) by {
        let a = s0.sb.alloc_block;
        assert forall|b: int| #[trigger] v1.owner@.contains_key(b) implies in_place(
            v1,
            s1.inodes@,
            t,
            a,
            b,
            v1.owner@[b],
        ) by {
            let o = v1.owner@[b];
            if !(o is Data && o->Data_0 == ino) {
                assert(v0.owner@.contains_key(b) && v0.owner@[b] == o);
                assert(in_place(v0, s0.inodes@, t, a, b, o));
                if o is Area {
                    assert(v0.owner@.contains_key(a as int));
                }
            }
        }
    }
    assert(s1.inodes@.dom() =~= s0.inodes@.dom());
    assert(s1.lists_ok());
    assert(s1@.nodes =~= s0@.nodes.insert(
        ino,
        node_of(s1.vol, s1.record_cache, s1.rb(), i1),
    ));
}

} // verus!
