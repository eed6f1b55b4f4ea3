//! On-disk layout constants and structures.

use vstd::prelude::*;

pub use crate::bytes::{
    get_i64, get_u16, get_u32, get_u64, put_i64, put_u16, put_u32, put_u64,
};
use crate::bytes::{
    append, bytes_equal, copy_bytes, i64_at, le32, le64, le_i64, lemma_concat_field,
    lemma_concat_front, lemma_le, pad_to, padded, put_u32_vec, put_u64_vec, u32_at, u64_at,
};
use crate::crc::{changed_byte_is_noticed, crc32, crc32_of};
use crate::error::{eio, Result, EIO};
use crate::types::Timespec;

verus! {

pub const VERSION: u32 = 1;

pub const BLOCK_SIZE: u32 = 4096;

pub const BLOCK_SIZE_U64: u64 = 4096;

pub const INODE_SIZE: u32 = 256;

pub const INODES_PER_BLOCK: u32 = 16;

pub const SUPERBLOCK_SIZE: usize = 4096;

/// Files of at most this many bytes live in the inode.
pub const INLINE_MAX: usize = 128;

pub const MAX_DIRECT_EXTENTS: usize = 6;

/// Inode table extents that the superblock has room for.
pub const MAX_TABLE_EXTENTS: usize = 16;

pub const ROOT_INO: u64 = 1;

pub const FIRST_INO: u64 = 1;

pub const FIRST_USER_INO: u64 = 2;

pub const DEFAULT_JOURNAL_BLOCKS: u32 = 256;

pub const DEFAULT_INITIAL_BLOCKS: u64 = 1024;

pub const DEFAULT_CACHE_BLOCKS: usize = 4096;

pub const SHRINK_SLACK_BLOCKS: u64 = 64;

pub const FLAG_HAS_XATTR: u32 = 1;

pub const FLAG_IMMUTABLE: u32 = 2;

pub const FLAG_APPEND: u32 = 4;

/// The inode has (or may have) compressed records.
pub const FLAG_COMPRESSED: u32 = 8;

/// Superblock feature: the image holds compression records.
pub const FEATURE_COMPRESSION: u64 = 1;

/// Image magic: `LNXFILE` and a zero byte.
pub open spec fn image_magic() -> Seq<u8> {
    seq![76u8, 78, 88, 70, 73, 76, 69, 0]
}

/// The image magic.
pub fn magic_bytes() -> (v: Vec<u8>)
    ensures
        v@ == image_magic(),
{
    let v = copy_bytes(&[76u8, 78, 88, 70, 73, 76, 69, 0]);
    assert(v@ =~= image_magic());
    v
}

/// File data extent: logical file blocks to physical image blocks.
///
/// `length` is always the logical span. Compressed records set `phys_length` (physical blocks
/// used) and `compress` (algorithm). Both extra fields are in-memory; on disk they are recovered
/// from the record header. A zero `phys_length` means "same as `length`".
#[derive(Debug, Clone, Copy, PartialEq, Eq, Structural)]
pub struct Extent {
    pub logical: u64,
    pub physical: u64,
    pub length: u32,
    pub phys_length: u32,
    pub compress: u8,
}

impl Extent {
    /// Physical blocks that the extent takes.
    pub open spec fn plen(self) -> int {
        if self.phys_length != 0 {
            self.phys_length as int
        } else {
            self.length as int
        }
    }

    /// First logical block after the extent.
    pub open spec fn lend(self) -> int {
        self.logical + self.length
    }

    /// Whether the extent covers logical block `l`.
    pub open spec fn has(self, l: int) -> bool {
        self.logical <= l < self.lend()
    }

    /// What the disk keeps of the extent.
    pub open spec fn stored(self) -> Extent {
        Extent {
            logical: self.logical,
            physical: self.physical,
            length: self.length,
            phys_length: 0,
            compress: 0,
        }
    }

    /// The 20 bytes of an extent on disk.
    pub open spec fn bytes(self) -> Seq<u8> {
        le64(self.logical) + le64(self.physical) + le32(self.length)
    }

    pub fn new(logical: u64, physical: u64, length: u32) -> (e: Self)
        ensures
            e == (Extent { logical, physical, length, phys_length: 0, compress: 0 }),
    {
        Self { logical, physical, length, phys_length: 0, compress: 0 }
    }

    pub fn with_phys(
        logical: u64,
        physical: u64,
        length: u32,
        phys_length: u32,
        compress: u8,
    ) -> (e: Self)
        ensures
            e == (Extent { logical, physical, length, phys_length, compress }),
    {
        Self { logical, physical, length, phys_length, compress }
    }

    pub fn phys_len(&self) -> (n: u64)
        ensures
            n == self.plen(),
    {
        if self.phys_length != 0 {
            self.phys_length as u64
        } else {
            self.length as u64
        }
    }

    pub fn is_compressed(&self) -> (b: bool)
        ensures
            b == (self.compress != 0),
    {
        self.compress != 0
    }

    pub fn logical_end(&self) -> (n: u64)
        requires
            self.lend() <= u64::MAX,
        ensures
            n == self.lend(),
    {
        self.logical + self.length as u64
    }

    pub fn physical_end(&self) -> (n: u64)
        requires
            self.physical + self.plen() <= u64::MAX,
        ensures
            n == self.physical + self.plen(),
    {
        self.physical + self.phys_len()
    }

    pub fn contains_logical(&self, block: u64) -> (b: bool)
        ensures
            b == self.has(block as int),
    {
        block >= self.logical && block - self.logical < self.length as u64
    }

    /// The physical block of logical block `logical`, where the extent covers it.
    pub fn map(&self, logical: u64) -> (p: Option<u64>)
        requires
            self.physical + self.length <= u64::MAX,
        ensures
            match p {
                Some(b) => self.has(logical as int) && b == self.physical + (logical
                    - self.logical),
                None => !self.has(logical as int),
            },
    {
        if self.contains_logical(logical) {
            Some(self.physical + (logical - self.logical))
        } else {
            None
        }
    }
}

/// Extents on disk, one after the other.
pub open spec fn extents_bytes(exts: Seq<Extent>) -> Seq<u8>
    decreases exts.len(),
{
    if exts.len() == 0 {
        Seq::empty()
    } else {
        extents_bytes(exts.drop_last()) + exts.last().bytes()
    }
}

/// The extent that stands at `off`.
pub open spec fn extent_at(s: Seq<u8>, off: int) -> Extent {
    Extent {
        logical: u64_at(s, off),
        physical: u64_at(s, off + 8),
        length: u32_at(s, off + 16),
        phys_length: 0,
        compress: 0,
    }
}

/// `n` extents that stand one after the other from `off` on.
pub open spec fn extents_at(s: Seq<u8>, off: int, n: nat) -> Seq<Extent> {
    Seq::new(n, |i: int| extent_at(s, off + 20 * i))
}

/// What the disk keeps of a list of extents.
pub open spec fn stored_extents(exts: Seq<Extent>) -> Seq<Extent> {
    Seq::new(exts.len(), |i: int| exts[i].stored())
}

pub proof fn lemma_extents_bytes_len(exts: Seq<Extent>)
    ensures
        extents_bytes(exts).len() == 20 * exts.len(),
    decreases exts.len(),
{
    lemma_le();
    if exts.len() > 0 {
        lemma_extents_bytes_len(exts.drop_last());
    }
}

/// An extent is read back from its bytes.
pub proof fn lemma_extent_at(s: Seq<u8>, off: int, e: Extent)
    requires
        0 <= off,
        off + 20 <= s.len(),
        s.subrange(off, off + 20) == e.bytes(),
    ensures
        extent_at(s, off) == e.stored(),
{
    broadcast use {lemma_concat_front, lemma_concat_field};

    lemma_le();
    let b = s.subrange(off, off + 20);
    assert(s.subrange(off, off + 8) =~= b.subrange(0, 8));
    assert(s.subrange(off + 8, off + 16) =~= b.subrange(8, 16));
    assert(s.subrange(off + 16, off + 20) =~= b.subrange(16, 20));
    assert(b.subrange(0, 8) == le64(e.logical));
    assert(b.subrange(8, 16) == le64(e.physical));
    assert(b.subrange(16, 20) == le32(e.length));
}

pub proof fn lemma_extents_bytes_index(exts: Seq<Extent>, i: int)
    requires
        0 <= i < exts.len(),
    ensures
        extents_bytes(exts).len() == 20 * exts.len(),
        extents_bytes(exts).subrange(20 * i, 20 * i + 20) == exts[i].bytes(),
    decreases exts.len(),
{
    broadcast use {lemma_concat_front, lemma_concat_field};

    lemma_le();
    lemma_extents_bytes_len(exts);
    lemma_extents_bytes_len(exts.drop_last());
    if i < exts.len() - 1 {
        lemma_extents_bytes_index(exts.drop_last(), i);
    }
}

/// Extents are read back from where they were written.
pub proof fn lemma_extents_at(s: Seq<u8>, off: int, exts: Seq<Extent>)
    requires
        0 <= off,
        off + 20 * exts.len() <= s.len(),
        s.subrange(off, off + 20 * exts.len()) == extents_bytes(exts),
    ensures
        extents_at(s, off, exts.len()) == stored_extents(exts),
{
    assert forall|i: int| 0 <= i < exts.len() implies extent_at(s, off + 20 * i)
        == exts[i].stored() by {
        lemma_extents_bytes_index(exts, i);
        assert(s.subrange(off + 20 * i, off + 20 * i + 20) =~= s.subrange(
            off,
            off + 20 * exts.len(),
        ).subrange(20 * i, 20 * i + 20));
        lemma_extent_at(s, off + 20 * i, exts[i]);
    }
    assert(extents_at(s, off, exts.len()) =~= stored_extents(exts));
}

/// The bytes of the first `n` extents are a prefix of the bytes of all.
pub proof fn lemma_extents_bytes_concat(a: Seq<Extent>, b: Seq<Extent>)
    ensures
        extents_bytes(a + b) == extents_bytes(a) + extents_bytes(b),
    decreases b.len(),
{
    if b.len() == 0 {
        assert(a + b =~= a);
        assert(extents_bytes(a) + extents_bytes(b) =~= extents_bytes(a));
    } else {
        lemma_extents_bytes_concat(a, b.drop_last());
        assert((a + b).drop_last() =~= a + b.drop_last());
        assert(extents_bytes(a) + (extents_bytes(b.drop_last()) + b.last().bytes())
            =~= extents_bytes(a) + extents_bytes(b.drop_last()) + b.last().bytes());
    }
}

/// Appends the bytes of `exts[from..to]`.
pub fn put_extents(buf: &mut Vec<u8>, exts: &[Extent], from: usize, to: usize)
    requires
        from <= to <= exts@.len(),
    ensures
        final(buf)@ == old(buf)@ + extents_bytes(exts@.subrange(from as int, to as int)),
{
    let mut i: usize = from;
    assert(exts@.subrange(from as int, from as int) =~= Seq::<Extent>::empty());
    assert(buf@ =~= buf@ + extents_bytes(exts@.subrange(from as int, from as int)));
    while i < to
        invariant
            from <= i <= to <= exts@.len(),
            buf@ == old(buf)@ + extents_bytes(exts@.subrange(from as int, i as int)),
        decreases to - i,
    {
        let e = exts[i];
        let ghost before = buf@;
        put_u64_vec(buf, e.logical);
        put_u64_vec(buf, e.physical);
        put_u32_vec(buf, e.length);
        assert(exts@.subrange(from as int, i + 1).drop_last() =~= exts@.subrange(
            from as int,
            i as int,
        ));
        assert(buf@ =~= before + e.bytes());
        assert(buf@ =~= old(buf)@ + extents_bytes(exts@.subrange(from as int, i + 1)));
        i = i + 1;
    }
}

/// Reads `n` extents from `off` on.
pub fn get_extents(buf: &[u8], off: usize, n: usize) -> (v: Vec<Extent>)
    requires
        off + 20 * n <= buf@.len(),
    ensures
        v@ == extents_at(buf@, off as int, n as nat),
{
    let len: usize = buf.len();
    let mut v: Vec<Extent> = Vec::new();
    let mut i: usize = 0;
    while i < n
        invariant
            i <= n,
            len == buf@.len(),
            off + 20 * n <= len,
            v@ =~= extents_at(buf@, off as int, i as nat),
        decreases n - i,
    {
        let o: usize = off + 20 * i;
        v.push(Extent::new(get_u64(buf, o), get_u64(buf, o + 8), get_u32(buf, o + 16)));
        i = i + 1;
    }
    v
}

/// Superblock lives at block 0; a backup stands right after the journal.
#[derive(Debug, Clone)]
pub struct Superblock {
    pub version: u32,
    pub block_size: u32,
    pub journal_blocks: u32,
    pub first_data_block: u32,
    pub total_blocks: u64,
    pub inode_count: u64,
    pub free_inode_count: u64,
    pub next_inode: u64,
    pub root_ino: u64,
    pub generation: u64,
    pub uuid: Vec<u8>,
    pub features: u64,
    pub mtime: Timespec,
    pub inode_table_extents: Vec<Extent>,
    pub alloc_block: u64,
    pub journal_seq: u64,
    pub journal_head: u32,
    pub journal_tail: u32,
    pub journal_committed: u64,
    /// Default compression algorithm for new inodes (`Compression` as a number).
    pub default_compression: u8,
    /// Logical blocks per compression record; 0 means the default.
    pub record_blocks: u8,
}

/// A superblock as the contracts see it.
pub ghost struct SuperView {
    pub version: u32,
    pub block_size: u32,
    pub journal_blocks: u32,
    pub first_data_block: u32,
    pub total_blocks: u64,
    pub inode_count: u64,
    pub free_inode_count: u64,
    pub next_inode: u64,
    pub root_ino: u64,
    pub generation: u64,
    pub uuid: Seq<u8>,
    pub features: u64,
    pub mtime: Timespec,
    pub table: Seq<Extent>,
    pub alloc_block: u64,
    pub journal_seq: u64,
    pub journal_head: u32,
    pub journal_tail: u32,
    pub journal_committed: u64,
    pub default_compression: u8,
    pub record_blocks: u8,
}

impl View for Superblock {
    type V = SuperView;

    open spec fn view(&self) -> SuperView {
        SuperView {
            version: self.version,
            block_size: self.block_size,
            journal_blocks: self.journal_blocks,
            first_data_block: self.first_data_block,
            total_blocks: self.total_blocks,
            inode_count: self.inode_count,
            free_inode_count: self.free_inode_count,
            next_inode: self.next_inode,
            root_ino: self.root_ino,
            generation: self.generation,
            uuid: self.uuid@,
            features: self.features,
            mtime: self.mtime,
            table: self.inode_table_extents@,
            alloc_block: self.alloc_block,
            journal_seq: self.journal_seq,
            journal_head: self.journal_head,
            journal_tail: self.journal_tail,
            journal_committed: self.journal_committed,
            default_compression: self.default_compression,
            record_blocks: self.record_blocks,
        }
    }
}

impl SuperView {
    /// The inode table extents that fit.
    pub open spec fn kept_table(self) -> Seq<Extent> {
        if self.table.len() <= MAX_TABLE_EXTENTS {
            self.table
        } else {
            self.table.take(MAX_TABLE_EXTENTS as int)
        }
    }

    /// The fields in the order of the disk, up to the table extents.
    pub open spec fn head_bytes(self) -> Seq<u8> {
        image_magic() + le32(self.version) + le32(self.block_size) + le32(self.journal_blocks)
            + le32(self.first_data_block) + le64(self.total_blocks) + le64(self.inode_count)
            + le64(self.free_inode_count) + le64(self.next_inode) + le64(self.root_ino) + le64(
            self.generation,
        ) + self.uuid + le64(self.features) + le_i64(self.mtime.sec) + le32(self.mtime.nsec)
            + seq![self.default_compression, self.record_blocks, 0u8, 0u8] + le64(
            self.alloc_block,
        ) + le64(self.journal_seq) + le32(self.journal_head) + le32(self.journal_tail) + le64(
            self.journal_committed,
        ) + le32(self.kept_table().len() as u32)
    }

    /// The superblock without its checksum.
    pub open spec fn body_bytes(self) -> Seq<u8> {
        padded(self.head_bytes() + extents_bytes(self.kept_table()), 4092)
    }

    /// The superblock as it stands on disk: the fields, zeros, and the CRC-32 of both.
    pub open spec fn bytes(self) -> Seq<u8> {
        self.body_bytes() + le32(crc32_of(self.body_bytes()))
    }

    /// What the disk keeps of the superblock.
    pub open spec fn stored(self) -> SuperView {
        SuperView { table: stored_extents(self.kept_table()), ..self }
    }
}

/// The table extents that the superblock in `s` counts.
pub open spec fn super_table_len(s: Seq<u8>) -> nat {
    if u32_at(s, 144) <= MAX_TABLE_EXTENTS {
        u32_at(s, 144) as nat
    } else {
        MAX_TABLE_EXTENTS as nat
    }
}

/// The fields that stand where a superblock has them.
pub open spec fn super_fields(s: Seq<u8>) -> SuperView {
    SuperView {
        version: u32_at(s, 8),
        block_size: u32_at(s, 12),
        journal_blocks: u32_at(s, 16),
        first_data_block: u32_at(s, 20),
        total_blocks: u64_at(s, 24),
        inode_count: u64_at(s, 32),
        free_inode_count: u64_at(s, 40),
        next_inode: u64_at(s, 48),
        root_ino: u64_at(s, 56),
        generation: u64_at(s, 64),
        uuid: s.subrange(72, 88),
        features: u64_at(s, 88),
        mtime: Timespec { sec: i64_at(s, 96), nsec: u32_at(s, 104) },
        table: extents_at(s, 148, super_table_len(s)),
        alloc_block: u64_at(s, 112),
        journal_seq: u64_at(s, 120),
        journal_head: u32_at(s, 128),
        journal_tail: u32_at(s, 132),
        journal_committed: u64_at(s, 136),
        default_compression: s[108],
        record_blocks: s[109],
    }
}

/// The superblock in `s`, where its checksum, magic, version and block size are right.
pub open spec fn parsed_super(s: Seq<u8>) -> Option<SuperView> {
    if s.len() >= SUPERBLOCK_SIZE && u32_at(s, 4092) == crc32_of(s.subrange(0, 4092))
        && s.subrange(0, 8) == image_magic() && u32_at(s, 8) == VERSION && u32_at(s, 12)
        == BLOCK_SIZE {
        Some(super_fields(s))
    } else {
        None
    }
}

impl Superblock {
    pub fn first_data(&self) -> (n: u64)
        ensures
            n == self.first_data_block,
    {
        self.first_data_block as u64
    }

    pub fn journal_start(&self) -> (n: u64)
        ensures
            n == 1,
    {
        1
    }

    pub fn backup_block(&self) -> (n: u64)
        ensures
            n == 1 + self.journal_blocks,
    {
        1 + self.journal_blocks as u64
    }

    pub fn encode(&self) -> (buf: Vec<u8>)
        requires
            self.uuid@.len() == 16,
        ensures
            buf@ == self@.bytes(),
            buf@.len() == SUPERBLOCK_SIZE,
    {
        proof {
            lemma_le();
        }
        let ghost v = self@;
        let mut buf: Vec<u8> = magic_bytes();
        put_u32_vec(&mut buf, self.version);
        put_u32_vec(&mut buf, self.block_size);
        put_u32_vec(&mut buf, self.journal_blocks);
        put_u32_vec(&mut buf, self.first_data_block);
        put_u64_vec(&mut buf, self.total_blocks);
        put_u64_vec(&mut buf, self.inode_count);
        put_u64_vec(&mut buf, self.free_inode_count);
        put_u64_vec(&mut buf, self.next_inode);
        put_u64_vec(&mut buf, self.root_ino);
        put_u64_vec(&mut buf, self.generation);
        append(&mut buf, self.uuid.as_slice());
        put_u64_vec(&mut buf, self.features);
        put_u64_vec(&mut buf, self.mtime.sec as u64);
        put_u32_vec(&mut buf, self.mtime.nsec);
        let ghost before = buf@;
        append(&mut buf, &[self.default_compression, self.record_blocks, 0u8, 0u8]);
        assert(buf@ =~= before + seq![v.default_compression, v.record_blocks, 0u8, 0u8]);
        put_u64_vec(&mut buf, self.alloc_block);
        put_u64_vec(&mut buf, self.journal_seq);
        put_u32_vec(&mut buf, self.journal_head);
        put_u32_vec(&mut buf, self.journal_tail);
        put_u64_vec(&mut buf, self.journal_committed);
        let n: usize = if self.inode_table_extents.len() <= MAX_TABLE_EXTENTS {
            self.inode_table_extents.len()
        } else {
            MAX_TABLE_EXTENTS
        };
        put_u32_vec(&mut buf, n as u32);
        assert(buf@ == v.head_bytes());
        put_extents(&mut buf, self.inode_table_extents.as_slice(), 0, n);
        assert(self.inode_table_extents@.subrange(0, n as int) =~= v.kept_table());
        proof {
            lemma_extents_bytes_len(v.kept_table());
        }
        pad_to(&mut buf, 4092);
        let csum = crc32(buf.as_slice());
        put_u32_vec(&mut buf, csum);
        buf
    }

    pub fn decode(buf: &[u8]) -> (r: Result<Self>)
        ensures
            match r {
                Ok(sb) => parsed_super(buf@) == Some(sb@) && sb.uuid@.len() == 16
                    && sb.inode_table_extents@.len() <= MAX_TABLE_EXTENTS,
                Err(e) => parsed_super(buf@) is None && e.is(EIO),
            },
    {
        if buf.len() < SUPERBLOCK_SIZE {
            return Err(eio("superblock too small"));
        }
        let stored = get_u32(buf, SUPERBLOCK_SIZE - 4);
        let calc = crc32(vstd::slice::slice_subrange(buf, 0, SUPERBLOCK_SIZE - 4));
        if stored != calc {
            return Err(eio("superblock checksum mismatch"));
        }
        if !bytes_equal(vstd::slice::slice_subrange(buf, 0, 8), magic_bytes().as_slice()) {
            return Err(eio("bad filesystem magic"));
        }
        let version = get_u32(buf, 8);
        if version != VERSION {
            return Err(eio("unsupported filesystem version"));
        }
        let block_size = get_u32(buf, 12);
        if block_size != BLOCK_SIZE {
            return Err(eio("unsupported block size"));
        }
        let count = get_u32(buf, 144);
        let n: usize = if count <= MAX_TABLE_EXTENTS as u32 {
            count as usize
        } else {
            MAX_TABLE_EXTENTS
        };
        let inode_table_extents = get_extents(buf, 148, n);
        Ok(
            Self {
                version,
                block_size,
                journal_blocks: get_u32(buf, 16),
                first_data_block: get_u32(buf, 20),
                total_blocks: get_u64(buf, 24),
                inode_count: get_u64(buf, 32),
                free_inode_count: get_u64(buf, 40),
                next_inode: get_u64(buf, 48),
                root_ino: get_u64(buf, 56),
                generation: get_u64(buf, 64),
                uuid: copy_bytes(vstd::slice::slice_subrange(buf, 72, 88)),
                features: get_u64(buf, 88),
                mtime: Timespec { sec: get_i64(buf, 96), nsec: get_u32(buf, 104) },
                inode_table_extents,
                alloc_block: get_u64(buf, 112),
                journal_seq: get_u64(buf, 120),
                journal_head: get_u32(buf, 128),
                journal_tail: get_u32(buf, 132),
                journal_committed: get_u64(buf, 136),
                default_compression: buf[108],
                record_blocks: buf[109],
            },
        )
    }
}

/// A superblock is read back from the bytes it is written as, whatever follows them: all its
/// fields, and of the inode table the extents that fit.
#[verifier::rlimit(60)]
pub proof fn superblock_roundtrip(v: SuperView, rest: Seq<u8>)
    requires
        v.version == VERSION,
        v.block_size == BLOCK_SIZE,
        v.uuid.len() == 16,
    ensures
        v.bytes().len() == SUPERBLOCK_SIZE,
        parsed_super(v.bytes() + rest) == Some(v.stored()),
{
    lemma_le();
    lemma_extents_bytes_len(v.kept_table());
    let head = v.head_bytes();
    let exts = extents_bytes(v.kept_table());
    let body = v.body_bytes();
    let s = v.bytes() + rest;
    assert(head.len() == 148);
    assert(body.len() == 4092);
    assert(s.subrange(0, 4092) =~= body);
    assert(s.subrange(4092, 4096) =~= le32(crc32_of(body)));
    assert forall|a: int, b: int| 0 <= a <= b <= 148 implies #[trigger] s.subrange(a, b)
        == head.subrange(a, b) by {
        assert(s.subrange(a, b) =~= head.subrange(a, b));
    }
    assert(s[108] == head[108] && s[109] == head[109]);
    assert(s.subrange(148, 148 + 20 * v.kept_table().len() as int) =~= exts);
    lemma_extents_at(s, 148, v.kept_table());
    lemma_super_head(v);
    assert(super_table_len(s) == v.kept_table().len());
}

#[verifier::rlimit(60)]
proof fn lemma_super_head(v: SuperView)
    requires
        v.uuid.len() == 16,
    ensures
        ({
            let h = v.head_bytes();
            &&& h.subrange(0, 8) == image_magic()
            &&& h.subrange(8, 12) == le32(v.version)
            &&& h.subrange(12, 16) == le32(v.block_size)
            &&& h.subrange(16, 20) == le32(v.journal_blocks)
            &&& h.subrange(20, 24) == le32(v.first_data_block)
            &&& h.subrange(24, 32) == le64(v.total_blocks)
            &&& h.subrange(32, 40) == le64(v.inode_count)
            &&& h.subrange(40, 48) == le64(v.free_inode_count)
            &&& h.subrange(48, 56) == le64(v.next_inode)
            &&& h.subrange(56, 64) == le64(v.root_ino)
            &&& h.subrange(64, 72) == le64(v.generation)
            &&& h.subrange(72, 88) == v.uuid
            &&& h.subrange(88, 96) == le64(v.features)
            &&& h.subrange(96, 104) == le_i64(v.mtime.sec)
            &&& h.subrange(104, 108) == le32(v.mtime.nsec)
            &&& h[108] == v.default_compression
            &&& h[109] == v.record_blocks
            &&& h.subrange(112, 120) == le64(v.alloc_block)
            &&& h.subrange(120, 128) == le64(v.journal_seq)
            &&& h.subrange(128, 132) == le32(v.journal_head)
            &&& h.subrange(132, 136) == le32(v.journal_tail)
            &&& h.subrange(136, 144) == le64(v.journal_committed)
            &&& h.subrange(144, 148) == le32(v.kept_table().len() as u32)
        }),
{
    broadcast use {lemma_concat_front, lemma_concat_field};

    lemma_le();
    let h = v.head_bytes();
    assert(h.subrange(108, 112) == seq![v.default_compression, v.record_blocks, 0u8, 0u8]);
    assert(h.subrange(108, 112)[0] == h[108]);
    assert(h.subrange(108, 112)[1] == h[109]);
    assert(image_magic().subrange(0, 8) =~= image_magic());
}

/// A superblock is refused once any one of its bytes has changed.
pub proof fn super_damage_is_noticed(s: Seq<u8>, k: int, x: u8)
    requires
        parsed_super(s) is Some,
        0 <= k < SUPERBLOCK_SIZE,
        x != s[k],
    ensures
        parsed_super(s.update(k, x)) is None,
{
    changed_byte_is_noticed(s, 4092, k, x);
}

} // verus!
