//! Where everything stands in the bytes of a volume, and what volumes are made of.

use vstd::bytes::{
    spec_u16_from_le_bytes, spec_u16_to_le_bytes, spec_u32_from_le_bytes, spec_u32_to_le_bytes,
    spec_u64_from_le_bytes, spec_u64_to_le_bytes,
};
use vstd::prelude::*;

use crate::allocator::{is_best_fit, map_magic, map_roundtrip, run_blocks, taken, Allocator, Run};
use crate::allocmap::{area_block, area_part};
use crate::bytes::{i64_at, le16, le32, le64, lemma_le, padded, splice, u16_at, u32_at, u64_at};
use crate::compress::{
    blocks_for, chosen_form, header_fields, header_roundtrip, normal_record_blocks, Compression,
    RecordHeader,
};
use crate::crc::{crc32_of, crc_feed, crc_shift, crc_step};
use crate::dir::{coded_type, dir_bytes, items_bytes, name_pad, type_code, DirItem};
use crate::data::done;
use crate::error::{errno_kind, kind_errno, Error, ErrorKind};
use crate::extents::{find_ext, lookup, Loc};
use crate::format::{
    extent_at, extents_at, extents_bytes, image_magic, lemma_extents_at, lemma_extents_bytes_len,
    superblock_roundtrip, Extent, SuperView,
};
use crate::inner::Inner;
use crate::inode::{inode_roundtrip, kind_code, kind_of, DataKind, InodeView};
use crate::journal::{
    begin_bytes, committed_bytes, journal_area, op_bytes, ops_bytes, slot_place, JournalOp,
};
use crate::model::FsView;
use crate::mount::{new_blocks, new_journal_blocks, new_root, new_total, uuid_of};
use crate::ops::{same_outcome, Outcome};
use crate::options::{default_options, CreateOptions};
use crate::store::{block_written, grown_len, image_block, max_blocks};
use crate::tree::{tree_block, tree_part};
use crate::types::{timespec_of, FileType, Timespec};
use crate::xattr::{attrs_bytes, xattr_bytes};

verus! {

/// Numbers stand with their lowest byte first.
pub proof fn lowest_byte_first(s: Seq<u8>, off: int, a: u16, b: u32, c: u64)
    ensures
        u16_at(s, off) == spec_u16_from_le_bytes(s.subrange(off, off + 2)),
        u32_at(s, off) == spec_u32_from_le_bytes(s.subrange(off, off + 4)),
        u64_at(s, off) == spec_u64_from_le_bytes(s.subrange(off, off + 8)),
        le16(a) == spec_u16_to_le_bytes(a),
        le32(b) == spec_u32_to_le_bytes(b),
        le64(c) == spec_u64_to_le_bytes(c),
{
}

/// What is written as a number reads as that number.
pub proof fn numbers_read_back(a: u16, b: u32, c: u64, rest: Seq<u8>)
    ensures
        u16_at(le16(a) + rest, 0) == a,
        u32_at(le32(b) + rest, 0) == b,
        u64_at(le64(c) + rest, 0) == c,
{
    lemma_le();
    assert((le16(a) + rest).subrange(0, 2) =~= le16(a));
    assert((le32(b) + rest).subrange(0, 4) =~= le32(b));
    assert((le64(c) + rest).subrange(0, 8) =~= le64(c));
}

/// The superblock: one block, with its name, its fields and the extents of the inode table, and a
/// checksum at its end.
pub proof fn superblock_layout(v: SuperView)
    requires
        v.version == 1,
        v.block_size == 4096,
        v.uuid.len() == 16,
    ensures
        ({
            let s = v.bytes();
            &&& s.len() == 4096
            &&& s.subrange(0, 8) == seq![76u8, 78, 88, 70, 73, 76, 69, 0]
            &&& u32_at(s, 8) == 1
            &&& u32_at(s, 12) == 4096
            &&& u32_at(s, 16) == v.journal_blocks
            &&& u32_at(s, 20) == v.first_data_block
            &&& u64_at(s, 24) == v.total_blocks
            &&& u64_at(s, 32) == v.inode_count
            &&& u64_at(s, 40) == v.free_inode_count
            &&& u64_at(s, 48) == v.next_inode
            &&& u64_at(s, 56) == v.root_ino
            &&& u64_at(s, 64) == v.generation
            &&& s.subrange(72, 88) == v.uuid
            &&& u64_at(s, 88) == v.features
            &&& i64_at(s, 96) == v.mtime.sec
            &&& u32_at(s, 104) == v.mtime.nsec
            &&& s[108] == v.default_compression
            &&& s[109] == v.record_blocks
            &&& u64_at(s, 112) == v.alloc_block
            &&& u64_at(s, 120) == v.journal_seq
            &&& u32_at(s, 128) == v.journal_head
            &&& u32_at(s, 132) == v.journal_tail
            &&& u64_at(s, 136) == v.journal_committed
            &&& v.table.len() < 16 ==> u32_at(s, 144) == v.table.len()
            &&& v.table.len() <= 16 ==> forall|i: int|
                0 <= i < v.table.len() ==> u64_at(s, 148 + 20 * i) == (#[trigger] v.table[i]).logical
                    && u64_at(s, 148 + 20 * i + 8) == v.table[i].physical && u32_at(
                    s,
                    148 + 20 * i + 16,
                ) == v.table[i].length
            &&& u32_at(s, 4092) == crc32_of(s.subrange(0, 4092))
        }),
{
    let s = v.bytes();
    superblock_roundtrip(v, Seq::empty());
    assert(s + Seq::<u8>::empty() =~= s);
    let w = crate::format::super_fields(s);
    assert(w == v.stored());
    assert(image_magic() =~= seq![76u8, 78, 88, 70, 73, 76, 69, 0]);
    assert(s.subrange(0, 8) == image_magic());
    assert(u32_at(s, 4092) == crc32_of(s.subrange(0, 4092)));
    if v.table.len() <= 16 {
        assert(w.table.len() == v.table.len());
        assert forall|i: int| 0 <= i < v.table.len() implies u64_at(s, 148 + 20 * i) == (
        #[trigger] v.table[i]).logical && u64_at(s, 148 + 20 * i + 8) == v.table[i].physical
            && u32_at(s, 148 + 20 * i + 16) == v.table[i].length by {
            assert(w.table[i] == v.table[i].stored());
        }
    }
}

/// An inode: 256 bytes with its metadata, then its data or where they are, and a checksum at the end.
pub proof fn inode_layout(v: InodeView)
    requires
        v.mode != 0,
    ensures
        ({
            let s = v.bytes();
            &&& s.len() == 256
            &&& u16_at(s, 0) == v.mode
            &&& u32_at(s, 2) == v.nlink
            &&& u32_at(s, 6) == v.uid
            &&& u32_at(s, 10) == v.gid
            &&& u64_at(s, 14) == v.size
            &&& u64_at(s, 22) == v.blocks
            &&& i64_at(s, 30) == v.atime.sec
            &&& u32_at(s, 38) == v.atime.nsec
            &&& i64_at(s, 42) == v.mtime.sec
            &&& u32_at(s, 50) == v.mtime.nsec
            &&& i64_at(s, 54) == v.ctime.sec
            &&& u32_at(s, 62) == v.ctime.nsec
            &&& i64_at(s, 66) == v.btime.sec
            &&& u32_at(s, 74) == v.btime.nsec
            &&& u64_at(s, 78) == v.rdev
            &&& u32_at(s, 86) == v.flags
            &&& u32_at(s, 90) == v.generation
            &&& s[95] == v.compression
            &&& u64_at(s, 96) == v.extent_tree
            &&& u64_at(s, 240) == v.xattr_block
            &&& v.data_kind is Inline && v.inline_data.len() <= 128 ==> s.subrange(
                106,
                106 + v.inline_data.len() as int,
            ) == v.inline_data
            &&& u32_at(s, 252) == crc32_of(s.subrange(0, 252))
        }),
{
    let s = v.bytes();
    inode_roundtrip(v, Seq::empty());
    assert(s + Seq::<u8>::empty() =~= s);
    assert(crate::inode::inode_fields(s) == v.stored());
}

/// How the data of an inode are kept is told by a number.
pub proof fn data_kinds_by_number(k: DataKind)
    ensures
        kind_of(kind_code(k)) == k,
        kind_code(DataKind::Inline) == 0,
        kind_code(DataKind::Extents) == 1,
        kind_code(DataKind::ExtentTree) == 2,
{
}

/// The types of entries by their numbers.
pub proof fn entry_types_by_number(ft: FileType)
    ensures
        coded_type(type_code(ft)) == ft,
        type_code(FileType::File) == 1,
        type_code(FileType::Directory) == 2,
        type_code(FileType::CharDevice) == 3,
        type_code(FileType::BlockDevice) == 4,
        type_code(FileType::Fifo) == 5,
        type_code(FileType::Socket) == 6,
        type_code(FileType::Symlink) == 7,
{
}

/// A directory: its name, the number of entries, and the entries one after the other, each of them
/// filled up to a multiple of four bytes.
pub proof fn directory_layout(es: Seq<DirItem>, e: DirItem)
    requires
        es.len() < u32::MAX,
        e.name.len() <= 0xffff,
    ensures
        ({
            let s = dir_bytes(es.push(e));
            let at = (8 + items_bytes(es).len()) as int;
            &&& s.subrange(0, 4) == seq![68u8, 73, 82, 49]
            &&& u32_at(s, 4) == es.len() + 1
            &&& s.subrange(8, at) == items_bytes(es)
            &&& u64_at(s, at) == e.ino
            &&& u16_at(s, at + 8) == e.name.len()
            &&& s[at + 10] == type_code(e.file_type)
            &&& s[at + 11] == 0
            &&& s.subrange(at + 12, at + 12 + e.name.len()) == e.name
            &&& s.len() == at + 12 + e.name.len() + name_pad(e.name.len())
            &&& name_pad(e.name.len()) < 4
            &&& (e.name.len() + name_pad(e.name.len())) % 4 == 0
            &&& dir_bytes(Seq::empty()).len() == 8
        }),
{
    lemma_le();
    let all = es.push(e);
    assert(all.drop_last() =~= es);
    let s = dir_bytes(all);
    let at = (8 + items_bytes(es).len()) as int;
    assert(s.subrange(0, 4) =~= seq![68u8, 73, 82, 49]);
    assert(s.subrange(4, 8) =~= le32(all.len() as u32));
    assert(s.subrange(8, at) =~= items_bytes(es));
    assert(s.subrange(at, at + 8) =~= le64(e.ino));
    assert(s.subrange(at + 8, at + 10) =~= le16(e.name.len() as u16));
    assert(s.subrange(at + 12, at + 12 + e.name.len()) =~= e.name);
}

/// Attributes: their name, their number, and for each the two lengths, its name and its value.
pub proof fn attribute_layout(x: Seq<(Seq<u8>, Seq<u8>)>, a: (Seq<u8>, Seq<u8>))
    requires
        x.len() < u32::MAX,
        a.0.len() <= 0xffff,
        a.1.len() <= u32::MAX,
    ensures
        ({
            let s = xattr_bytes(x.push(a));
            let at = (8 + attrs_bytes(x).len()) as int;
            &&& s.subrange(0, 4) == seq![88u8, 65, 84, 49]
            &&& u32_at(s, 4) == x.len() + 1
            &&& s.subrange(8, at) == attrs_bytes(x)
            &&& u16_at(s, at) == a.0.len()
            &&& u32_at(s, at + 2) == a.1.len()
            &&& s.subrange(at + 6, at + 6 + a.0.len()) == a.0
            &&& s.subrange(at + 6 + a.0.len(), s.len() as int) == a.1
        }),
{
    lemma_le();
    let all = x.push(a);
    assert(all.drop_last() =~= x);
    let s = xattr_bytes(all);
    let at = (8 + attrs_bytes(x).len()) as int;
    assert(s.subrange(0, 4) =~= seq![88u8, 65, 84, 49]);
    assert(s.subrange(4, 8) =~= le32(all.len() as u32));
    assert(s.subrange(8, at) =~= attrs_bytes(x));
    assert(s.subrange(at, at + 2) =~= le16(a.0.len() as u16));
    assert(s.subrange(at + 2, at + 6) =~= le32(a.1.len() as u32));
    assert(s.subrange(at + 6, at + 6 + a.0.len()) =~= a.0);
    assert(s.subrange(at + 6 + a.0.len(), s.len() as int) =~= a.1);
}

/// The head of a compressed record.
pub proof fn record_head_layout(h: RecordHeader)
    requires
        h.valid(),
    ensures
        ({
            let s = h.bytes();
            &&& s.len() == 20
            &&& s.subrange(0, 4) == seq![76u8, 70, 67, 49]
            &&& s[4] == 1
            &&& u16_at(s, 6) == h.logical_blocks
            &&& u32_at(s, 8) == h.payload_len
            &&& u32_at(s, 12) == h.uncompressed_len
            &&& u32_at(s, 16) == h.crc
        }),
{
    lemma_le();
    header_roundtrip(h, Seq::empty());
    let s = h.bytes();
    assert(s + Seq::<u8>::empty() =~= s);
    assert(header_fields(s) == h);
    assert(s.subrange(0, 4) =~= seq![76u8, 70, 67, 49]);
}

/// Which records can be: compressed, no longer than 32 blocks, and smaller on the volume than in the
/// file.
pub proof fn records_that_can_be(h: RecordHeader)
    ensures
        h.valid() <==> h.algo is Lz4 && 1 <= h.logical_blocks <= 32 && 1 <= h.uncompressed_len
            <= 4096 * h.logical_blocks && 1 <= h.payload_len < h.uncompressed_len && (h.payload_len
            + 20 + 4095) / 4096 <= h.logical_blocks,
{
}

/// A record is kept compressed only where that saves a block; the size of records is a power of two
/// between 2 and 32 that is not smaller than what was asked for, and the smallest such.
pub proof fn compression_pays(algo: Compression, src: Seq<u8>, compressed: Seq<u8>, n: u32)
    ensures
        ({
            let (form, bytes) = chosen_form(algo, src, compressed);
            &&& form is Lz4 <==> algo is Lz4 && src.len() >= 8192 && 20 + compressed.len() + 4096
                <= src.len()
            &&& form is Lz4 ==> bytes == compressed
            &&& form is Off ==> bytes.len() == 0
        }),
        ({
            let r = normal_record_blocks(n);
            &&& r == 2 || r == 4 || r == 8 || r == 16 || r == 32
            &&& n <= 32 ==> n <= r
            &&& n > 32 ==> r == 32
            &&& r > 2 && n <= 32 ==> r / 2 < n
        }),
        n > 0 ==> 4096 * (blocks_for(n as int) - 1) < n <= 4096 * blocks_for(n as int),
{
}

/// A transaction in the journal: its name and number, its operations, and its end with the number
/// again and a checksum over all of it.
pub proof fn transaction_layout(seq: u64, ops: Seq<JournalOp>, op: JournalOp)
    requires
        op.data.len() <= u32::MAX,
    ensures
        ({
            let s = begin_bytes(seq);
            &&& s.len() == 16
            &&& s.subrange(0, 4) == seq![74u8, 82, 78, 76]
            &&& u32_at(s, 4) == 1
            &&& u64_at(s, 8) == seq
        }),
        ({
            let s = op_bytes(op);
            &&& u32_at(s, 0) == op.kind
            &&& u64_at(s, 4) == op.key
            &&& u32_at(s, 12) == op.data.len()
            &&& s.subrange(16, s.len() as int) == op.data
            &&& ops_bytes(ops.push(op)) == ops_bytes(ops) + s
        }),
        ({
            let open = begin_bytes(seq) + ops_bytes(ops);
            let s = committed_bytes(seq, open);
            let n = open.len() as int;
            &&& s.len() == n + 16
            &&& s.subrange(0, n) == open
            &&& u32_at(s, n) == 4
            &&& u64_at(s, n + 4) == seq
            &&& u32_at(s, n + 12) == crc32_of(s.subrange(0, n + 12))
        }),
{
    lemma_le();
    let s = begin_bytes(seq);
    assert(s.subrange(0, 4) =~= seq![74u8, 82, 78, 76]);
    assert(s.subrange(4, 8) =~= le32(1));
    assert(s.subrange(8, 16) =~= le64(seq));
    let s = op_bytes(op);
    assert(s.subrange(0, 4) =~= le32(op.kind));
    assert(s.subrange(4, 12) =~= le64(op.key));
    assert(s.subrange(12, 16) =~= le32(op.data.len() as u32));
    assert(s.subrange(16, s.len() as int) =~= op.data);
    assert(ops.push(op).drop_last() =~= ops);
    let open = begin_bytes(seq) + ops_bytes(ops);
    let s = committed_bytes(seq, open);
    let n = open.len() as int;
    assert(s.subrange(0, n) =~= open);
    assert(s.subrange(n, n + 4) =~= le32(4));
    assert(s.subrange(n + 4, n + 12) =~= le64(seq));
    assert(s.subrange(0, n + 12) =~= open + le32(4) + le64(seq));
    assert(s.subrange(n + 12, n + 16) =~= le32(crc32_of(open + le32(4) + le64(seq))));
}

/// The journal follows the superblock; a slot of the inode table is found by its number, 16 to a
/// block.
pub proof fn places_on_the_volume(image: Seq<u8>, blocks: int, t: Seq<Extent>, ino: u64)
    requires
        blocks >= 0,
        (1 + blocks) * 4096 <= image.len(),
    ensures
        journal_area(image, blocks).len() == blocks * 4096,
        forall|i: int|
            0 <= i < blocks * 4096 ==> #[trigger] journal_area(image, blocks)[i] == image[4096 + i],
        slot_place(t, ino) matches Some((b, off)) ==> lookup_raw(t, (ino / 16) as int, b) && off
            == 256 * (ino % 16),
        slot_place(t, ino) is None <==> find_ext(t, (ino / 16) as int) is None,
{
    lemma_extent_found(t, (ino / 16) as int);
}

/// Logical block `l` stands at `b`, counted from the start of its extent.
pub open spec fn lookup_raw(t: Seq<Extent>, l: int, b: int) -> bool {
    exists|k: int|
        0 <= k < t.len() && (#[trigger] t[k]).logical <= l < t[k].logical + t[k].length && b
            == t[k].physical + (l - t[k].logical)
}

proof fn lemma_extent_found(s: Seq<Extent>, l: int)
    ensures
        find_ext(s, l) matches Some(e) ==> exists|k: int|
            0 <= k < s.len() && #[trigger] s[k] == e && e.logical <= l < e.logical + e.length,
        find_ext(s, l) is None ==> forall|k: int|
            0 <= k < s.len() ==> !((#[trigger] s[k]).logical <= l < s[k].logical + s[k].length),
    decreases s.len(),
{
    if s.len() > 0 {
        let front = s.drop_last();
        lemma_extent_found(front, l);
        match find_ext(front, l) {
            Some(e) => {
                let k = choose|k: int|
                    0 <= k < front.len() && #[trigger] front[k] == e && e.logical <= l < e.logical
                        + e.length;
                assert(s[k] == e);
            },
            None => {
                assert forall|k: int| 0 <= k < s.len() && find_ext(s, l) is None implies !((
                #[trigger] s[k]).logical <= l < s[k].logical + s[k].length) by {
                    if k < front.len() {
                        assert(front[k] == s[k]);
                    }
                }
                if s.last().has(l) {
                    assert(s[s.len() - 1] == s.last());
                }
            },
        }
    }
}

/// A block of a file is found in the extent that covers it; what no extent covers is a hole. A block
/// in a plain extent stands as far into the extent as it is into its range.
pub proof fn blocks_are_found_in_extents(s: Seq<Extent>, l: int)
    ensures
        lookup(s, l) is None <==> forall|k: int|
            0 <= k < s.len() ==> !((#[trigger] s[k]).logical <= l < s[k].logical + s[k].length),
        lookup(s, l) matches Some(Loc::Raw(b)) ==> exists|k: int|
            0 <= k < s.len() && (#[trigger] s[k]).compress == 0 && s[k].logical <= l < s[k].logical
                + s[k].length && b == s[k].physical + (l - s[k].logical),
        lookup(s, l) matches Some(Loc::Packed(e)) ==> e.compress != 0 && s.contains(e) && e.logical
            <= l < e.logical + e.length,
{
    lemma_extent_found(s, l);
}

/// The space that an extent takes up: its length, unless it is compressed to less.
pub proof fn extents_take_space(e: Extent)
    ensures
        e.phys_length == 0 ==> e.plen() == e.length,
        e.phys_length != 0 ==> e.plen() == e.phys_length,
        e.lend() == e.logical + e.length,
{
}

/// The list of free blocks: its name, the bounds, the number of runs, and the runs.
pub proof fn map_layout(a: Allocator)
    requires
        a.wf(),
        a.free@.len() <= u32::MAX,
    ensures
        ({
            let s = a.bytes();
            &&& s.subrange(0, 4) == seq![76u8, 78, 88, 65]
            &&& u64_at(s, 4) == a.first_data
            &&& u64_at(s, 12) == a.total_blocks
            &&& u32_at(s, 20) == a.free@.len()
        }),
{
    map_roundtrip(a, Seq::empty());
    let s = a.bytes();
    assert(s + Seq::<u8>::empty() =~= s);
    assert(map_magic() =~= seq![76u8, 78, 88, 65]);
}

/// The area that holds the list of free blocks: its first block starts with a name, the number of
/// blocks and the length of the list; each block holds 4080 bytes of it.
pub proof fn area_layout(bytes: Seq<u8>, n: int)
    requires
        0 < n <= u32::MAX,
        bytes.len() <= u32::MAX,
    ensures
        ({
            let s = area_block(bytes, n, 0);
            &&& s.len() == 4096
            &&& s.subrange(0, 4) == seq![65u8, 76, 78, 0]
            &&& u32_at(s, 4) == n
            &&& u32_at(s, 8) == bytes.len()
            &&& forall|i: int| 0 <= i < 4080 && i < bytes.len() ==> s[16 + i] == #[trigger] bytes[i]
        }),
        forall|k: int, i: int|
            k > 0 && 0 <= i < 4080 && 4080 * k + i < bytes.len() ==> #[trigger] area_block(
                bytes,
                n,
                k,
            )[i] == bytes[4080 * k + i],
{
    lemma_le();
    let s = area_block(bytes, n, 0);
    let part = area_part(bytes, 0);
    assert(part.len() <= 4080);
    assert(s.subrange(0, 4) =~= seq![65u8, 76, 78, 0]);
    assert(s.subrange(4, 8) =~= le32(n as u32));
    assert(s.subrange(8, 12) =~= le32(bytes.len() as u32));
    assert forall|i: int| 0 <= i < 4080 && i < bytes.len() implies s[16 + i] == #[trigger] bytes[i] by {
        assert(part[i] == bytes[i]);
    }
}

/// A new volume: at least 8 blocks of journal and room for more than that, the options that were given
/// where they are large enough.
pub proof fn sizes_of_new_volumes(opts: CreateOptions)
    ensures
        new_journal_blocks(opts) >= 8,
        opts.journal_blocks >= 8 ==> new_journal_blocks(opts) == opts.journal_blocks,
        opts.journal_blocks < 8 ==> new_journal_blocks(opts) == 8,
        new_blocks(opts) >= new_journal_blocks(opts) + 10,
        opts.initial_blocks >= new_journal_blocks(opts) + 10 ==> new_blocks(opts)
            == opts.initial_blocks,
        new_total(opts) <= new_blocks(opts),
        new_total(opts) <= new_journal_blocks(opts) + 5 + 64,
        new_total(opts) == new_blocks(opts) || new_total(opts) == new_journal_blocks(opts) + 5 + 64,
        default_options().journal_blocks == 256,
        default_options().initial_blocks == 1024,
        default_options().cache_blocks == 4096,
        default_options().sync is Ordered,
        default_options().compression is Off,
        default_options().record_blocks == 8,
{
}

/// The root directory of a new volume belongs to the superuser; all may search and read it, and only
/// its owner may write it. It holds `.` and `..`, both of them itself.
pub proof fn new_volumes_have_a_root(opts: CreateOptions, now: Timespec)
    ensures
        ({
            let n = new_root(opts, now);
            &&& n.meta.mode == 0o040755
            &&& n.meta.nlink == 2
            &&& n.meta.uid == 0
            &&& n.meta.gid == 0
            &&& (n.meta.atime, n.meta.mtime, n.meta.ctime, n.meta.btime) == (now, now, now, now)
            &&& n.data == dir_bytes(
                seq![
                    DirItem { ino: 1, file_type: FileType::Directory, name: seq![46u8] },
                    DirItem { ino: 1, file_type: FileType::Directory, name: seq![46u8, 46u8] },
                ],
            )
            &&& n.xattr.len() == 0
            &&& opts.compression is Lz4 <==> n.meta.compression == 1
            &&& opts.compression is Off <==> n.meta.compression == 0
        }),
{
    assert(0o040000u16 | 0o755u16 == 0o040755u16) by (bit_vector);
    assert(crate::path::dot() =~= seq![46u8]);
    assert(crate::path::dot_dot() =~= seq![46u8, 46u8]);
}

/// The identity of a volume has 16 bytes, with the marks of a random one of the usual kind.
pub proof fn identities_are_marked(now: Timespec)
    ensures
        uuid_of(now).len() == 16,
        uuid_of(now)[6] & 0xf0 == 0x40,
        uuid_of(now)[8] & 0xc0 == 0x80,
{
    lemma_le();
    let u = le64(now.sec as u64) + le32(now.nsec) + le32(crate::mount::time_mix(now));
    let a = u[6];
    let b = u[8];
    assert(((a & 0x0fu8) | 0x40u8) & 0xf0u8 == 0x40u8 && ((b & 0x3fu8) | 0x80u8) & 0xc0u8 == 0x80u8)
        by (bit_vector);
}

/// Extents beyond those in an inode stand in blocks of their own, 204 to a block; the first block
/// starts with their number, the number of blocks and a name.
pub proof fn extent_block_layout(exts: Seq<Extent>, n: int, b: int, i: int)
    requires
        exts.len() <= u32::MAX,
        0 <= n <= u32::MAX,
        0 <= b,
        0 <= i < 204,
        204 * b + i < exts.len(),
    ensures
        ({
            let s = tree_block(exts, n, 0);
            &&& s.len() == 4096
            &&& u32_at(s, 0) == exts.len()
            &&& u32_at(s, 4) == n
            &&& s.subrange(8, 12) == seq![69u8, 88, 84, 50]
        }),
        ({
            let s = tree_block(exts, n, b);
            let at = 20 * i + if b == 0 {
                16int
            } else {
                0
            };
            let e = exts[204 * b + i];
            &&& u64_at(s, at) == e.logical
            &&& u64_at(s, at + 8) == e.physical
            &&& u32_at(s, at + 16) == e.length
        }),
{
    lemma_le();
    let first = tree_part(exts, 0);
    let part = tree_part(exts, b);
    lemma_extents_bytes_len(first);
    lemma_extents_bytes_len(part);
    let s = tree_block(exts, n, 0);
    assert(s.subrange(0, 4) =~= le32(exts.len() as u32));
    assert(s.subrange(4, 8) =~= le32(n as u32));
    assert(s.subrange(8, 12) =~= seq![69u8, 88, 84, 50]);
    let t = tree_block(exts, n, b);
    let start = if b == 0 {
        16int
    } else {
        0
    };
    assert(t.subrange(start, start + 20 * part.len() as int) =~= extents_bytes(part));
    lemma_extents_at(t, start, part);
    assert(part[i] == exts[204 * b + i]);
    let got = extents_at(t, start, part.len());
    assert(got[i] == part[i].stored());
    assert(got[i] == extent_at(t, start + 20 * i));
}

/// Bytes that are put into others take their place, and leave the rest; what is filled up is filled up
/// with zeros.
pub proof fn bytes_are_put_in_place(s: Seq<u8>, off: int, part: Seq<u8>, n: nat)
    ensures
        splice(s, off, part).len() == s.len(),
        forall|i: int|
            0 <= i < s.len() && off <= i < off + part.len() ==> #[trigger] splice(s, off, part)[i]
                == part[i - off],
        forall|i: int|
            0 <= i < s.len() && !(off <= i < off + part.len()) ==> #[trigger] splice(s, off, part)[i]
                == s[i],
        n >= s.len() ==> padded(s, n).len() == n,
        n >= s.len() ==> forall|i: int| 0 <= i < s.len() ==> #[trigger] padded(s, n)[i] == s[i],
        n >= s.len() ==> forall|i: int| s.len() <= i < n ==> #[trigger] padded(s, n)[i] == 0,
{
}

/// A block that is written is what was written, and no other block changes; the image grows by whole
/// mebibytes.
pub proof fn blocks_are_written(s: Seq<u8>, b: int, data: Seq<u8>, c: int)
    requires
        b >= 0,
        c >= 0,
        c != b,
        data.len() == 4096,
    ensures
        image_block(block_written(s, b, data), b) == data,
        image_block(block_written(s, b, data), c) == image_block(s, c),
        (b + 1) * 4096 <= s.len() ==> block_written(s, b, data).len() == s.len(),
        (b + 1) * 4096 > s.len() ==> block_written(s, b, data).len() == grown_len((b + 1) * 4096),
        grown_len((b + 1) * 4096) % 0x10_0000 == 0,
        (b + 1) * 4096 <= grown_len((b + 1) * 4096) < (b + 1) * 4096 + 0x10_0000,
{
    let w = block_written(s, b, data);
    assert(image_block(w, b) =~= data);
    assert forall|i: int| 0 <= i < 4096 implies image_block(w, c)[i] == image_block(s, c)[i] by {
        if c < b {
            assert(c * 4096 + i < b * 4096);
        } else {
            assert(c * 4096 + i >= (b + 1) * 4096);
        }
    }
    assert(image_block(w, c) =~= image_block(s, c));
}

/// Free blocks are counted run by run, and those that are taken are not counted any more.
pub proof fn free_blocks_are_counted(s: Seq<Run>, r: Run, k: int, want: int)
    requires
        0 <= k < s.len(),
        0 <= want <= s[k].1,
        s[k].0 + want <= u64::MAX,
    ensures
        run_blocks(Seq::empty()) == 0,
        run_blocks(s.push(r)) == run_blocks(s) + r.1,
        run_blocks(taken(s, k, want)) == run_blocks(s) - want,
{
    assert(s.push(r).drop_last() =~= s);
    lemma_run_removed(s, k);
    lemma_run_updated(s, k, ((s[k].0 + want) as u64, (s[k].1 - want) as u64));
}

proof fn lemma_run_removed(s: Seq<Run>, k: int)
    requires
        0 <= k < s.len(),
    ensures
        run_blocks(s.remove(k)) == run_blocks(s) - s[k].1,
    decreases s.len(),
{
    if k == s.len() - 1 {
        assert(s.remove(k) =~= s.drop_last());
    } else {
        lemma_run_removed(s.drop_last(), k);
        assert(s.remove(k).drop_last() =~= s.drop_last().remove(k));
        assert(s.remove(k).last() == s.last());
    }
}

proof fn lemma_run_updated(s: Seq<Run>, k: int, r: Run)
    requires
        0 <= k < s.len(),
    ensures
        run_blocks(s.update(k, r)) == run_blocks(s) - s[k].1 + r.1,
    decreases s.len(),
{
    if k == s.len() - 1 {
        assert(s.update(k, r).drop_last() =~= s.drop_last());
    } else {
        lemma_run_updated(s.drop_last(), k, r);
        assert(s.update(k, r).drop_last() =~= s.drop_last().update(k, r));
        assert(s.update(k, r).last() == s.last());
    }
}

/// The run that serves a request is long enough, none that is long enough is shorter, and it is the
/// first of its length.
pub proof fn shortest_run_serves(s: Seq<Run>, want: int, k: int, i: int)
    requires
        is_best_fit(s, want, k),
        0 <= i < s.len(),
        s[i].1 >= want,
    ensures
        0 <= k < s.len(),
        s[k].1 >= want,
        s[k].1 <= s[i].1,
        i < k ==> s[k].1 < s[i].1,
{
}

/// Time stamps are readings of the clock, and the epoch where there is none.
pub proof fn clocks_are_read(sec: u64, nsec: u32)
    ensures
        sec < 0x8000_0000_0000_0000 ==> timespec_of(Some((sec, nsec))).sec == sec,
        timespec_of(Some((sec, nsec))).nsec == nsec,
        timespec_of(None) == (Timespec { sec: 0, nsec: 0 }),
{
}

/// The checksum is the usual one over 32 bits: bit by bit from the lowest one, with all bits set to
/// start with and turned at the end; that of nothing is 0.
pub proof fn checksum_by_bits(c: u32, data: Seq<u8>, b: u8)
    ensures
        crc_step(c) == if c & 1 == 1 {
            (c >> 1) ^ 0xEDB8_8320
        } else {
            c >> 1
        },
        crc32_of(data) == crc_feed(0xFFFF_FFFF, data) ^ 0xFFFF_FFFF,
        crc_feed(c, Seq::empty()) == c,
        crc_feed(c, data.push(b)) == crc_shift((crc_feed(c, data) ^ b as u32) & 0xff, 8) ^ (crc_feed(
            c,
            data,
        ) >> 8),
        crc32_of(Seq::empty()) == 0,
{
    assert(data.push(b).drop_last() =~= data);
    assert((c & 1u32 == 1u32 || c & 1u32 == 0u32) && 0xFFFF_FFFFu32 ^ 0xFFFF_FFFFu32 == 0u32)
        by (bit_vector);
}

/// A call does what it should wherever the volume is sound and has room for it; it fails for want of
/// room alone, and on a volume that is not sound.
pub proof fn calls_do_what_they_should<T>(
    s0: Inner,
    s1: Inner,
    want: (FsView, Outcome<T>),
    got: std::result::Result<T, Error>,
    room: int,
    new: int,
)
    requires
        done(s0, s1, want, got, room, new),
    ensures
        s0.sound() && s0.load() + room <= max_blocks() && (new > 0 ==> s0.inodes_left() >= new)
            ==> s1@ == want.0 && same_outcome(want.1, got),
        got is Ok ==> s1@ == want.0 && same_outcome(want.1, got),
        s1@ != want.0 || !same_outcome(want.1, got) ==> (got matches Err(e) && (e.is(28) || e.is(5))),
        s1.load() <= s0.load() + room,
{
}

/// An outcome is the one that is wanted where its value, or its errno, is.
pub proof fn outcomes_agree<T>(want: Outcome<T>, got: std::result::Result<T, Error>)
    ensures
        same_outcome(want, got) ==> (want is Ok <==> got is Ok),
        same_outcome(want, got) && got is Ok ==> want->Ok_0 == got->Ok_0,
        same_outcome(want, got) && got is Err ==> want->Err_0 == got->Err_0.errno,
{
}

/// What kind of error an errno is.
pub proof fn kinds_of_errors(e: i32)
    ensures
        errno_kind(e) is NotFound <==> e == 2 || e == 6 || e == 19 || e == 61,
        errno_kind(e) is PermissionDenied <==> e == 1 || e == 13,
        errno_kind(e) is AlreadyExists <==> e == 17,
        errno_kind(e) is InvalidInput <==> e == 9 || e == 22 || e == 29,
        errno_kind(e) is WouldBlock <==> e == 11,
        errno_kind(e) is OutOfMemory <==> e == 12,
        errno_kind(e) is NotADirectory <==> e == 20,
        errno_kind(e) is IsADirectory <==> e == 21,
        errno_kind(e) is FileTooLarge <==> e == 27,
        errno_kind(e) is StorageFull <==> e == 28,
        errno_kind(e) is BrokenPipe <==> e == 32,
        errno_kind(e) is InvalidFilename <==> e == 36,
        errno_kind(e) is DirectoryNotEmpty <==> e == 39,
        errno_kind(e) is InvalidData <==> e == 40 || e == 75,
        errno_kind(e) is Unsupported <==> e == 95,
{
}

/// Kinds of errors come back from the errno that stands for them.
pub proof fn kinds_survive_errnos(k: ErrorKind)
    ensures
        k is NotFound || k is PermissionDenied || k is AlreadyExists || k is WouldBlock || k
            is InvalidInput || k is Unsupported || k is OutOfMemory || k is BrokenPipe ==> errno_kind(
            kind_errno(k),
        ) == k,
        k is WriteZero || k is UnexpectedEof || k is Other || k is StorageFull ==> kind_errno(k) == 5,
        k is InvalidData ==> kind_errno(k) == 22,
        k is TimedOut || k is Interrupted ==> kind_errno(k) == 11,
{
}

} // verus!
