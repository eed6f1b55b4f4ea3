//! What an image holds: the files of a volume that rests on disk.

use vstd::prelude::*;

use crate::bytes::{lemma_le, padded, u32_at};
use crate::compress::{parsed_header, HEADER_SIZE};
use crate::extents::{
    ext_wf, exts_ordered, exts_readable, find_ext, lemma_find, lemma_find_some, lemma_ublock_same,
    packed_data, packed_raw, record_data, ubyte,
};
use crate::flush::{lies, rests};
use crate::format::{
    extent_at, extents_at, lemma_extents_at, parsed_super, stored_extents, Extent, SuperView,
    FLAG_COMPRESSED, MAX_DIRECT_EXTENTS,
};
use crate::inner::{
    all_bare, bare, fbyte, inode_ok, inode_shape, persisted, slot, tree_stands, Inner,
};
use crate::inode::{inode_roundtrip, parsed_inode, Inode, InodeView};
use crate::journal::{found_txs, txs_applied};
use crate::model::{Meta, Node};
use crate::store::image_block;
use crate::tree::{tree_block, tree_magic, tree_part};
use crate::volume::Volume;
use crate::xattr::{attrs, parsed_xattrs, xattr_bytes, XattrView};

verus! {

/// The superblock that an image is mounted with: the first block, or the copy behind the journal
/// where that is damaged.
pub open spec fn disk_super(image: Seq<u8>) -> Option<SuperView> {
    let first = image_block(image, 0);
    let copy = 1 + u32_at(first, 16);
    if image.len() < 4096 {
        None
    } else if parsed_super(first) is Some {
        parsed_super(first)
    } else if (copy + 1) * 4096 > image.len() {
        None
    } else {
        parsed_super(image_block(image, copy))
    }
}

/// The image after the writes that its journal holds.
pub open spec fn replayed(image: Seq<u8>, sb: SuperView) -> Seq<u8> {
    if sb.journal_blocks == 0 {
        image
    } else {
        txs_applied(image, sb.table, found_txs(image, sb))
    }
}

/// Extent `i` of the tree at block `tree`.
pub open spec fn tree_ext(v: Volume, tree: int, i: int) -> Extent {
    extent_at(v.d(tree + i / 204), (if i < 204 {
        16int
    } else {
        0int
    }) + 20 * (i % 204))
}

/// Blocks of the tree at block `tree`.
pub open spec fn tree_len(v: Volume, tree: int) -> int {
    let first = v.d(tree);
    if first.subrange(8, 12) == tree_magic() && u32_at(first, 4) > 0 {
        u32_at(first, 4) as int
    } else {
        1
    }
}

/// The extents of the tree at block `tree`.
pub open spec fn tree_exts(v: Volume, tree: int) -> Seq<Extent> {
    let first = v.d(tree);
    let n = u32_at(first, 0) as int;
    if first.subrange(8, 12) == tree_magic() {
        let room = tree_len(v, tree) * 204;
        Seq::new(
            (if n < room {
                n
            } else {
                room
            }) as nat,
            |i: int| tree_ext(v, tree, i),
        )
    } else {
        extents_at(
            first,
            8,
            (if n < 200 {
                n
            } else {
                200
            }) as nat,
        )
    }
}

impl InodeView {
    /// Whether file data may stand in compressed records.
    pub open spec fn compresses(self) -> bool {
        self.compression != 0 || self.flags & FLAG_COMPRESSED != 0
    }
}

/// What kind of extent `e` is: a record, where its first block starts with the header of one.
pub open spec fn resolve(v: Volume, e: Extent) -> Extent {
    match parsed_header(v.d(e.physical as int)) {
        Some(h) => Extent { phys_length: h.phys() as u32, compress: 1, ..e },
        None => Extent { phys_length: e.length, ..e },
    }
}

/// The extents of an inode on disk, without what only their records say.
pub open spec fn bare_exts(v: Volume, i: InodeView) -> Seq<Extent> {
    if i.data_kind is ExtentTree && i.extent_tree != 0 {
        tree_exts(v, i.extent_tree as int)
    } else {
        i.extents
    }
}

/// The extents of an inode on disk.
pub open spec fn disk_exts(v: Volume, i: InodeView) -> Seq<Extent> {
    let s = bare_exts(v, i);
    if i.compresses() {
        Seq::new(s.len(), |k: int| resolve(v, s[k]))
    } else {
        s
    }
}

/// The metadata of an inode on disk.
pub open spec fn disk_meta(i: InodeView) -> Meta {
    Meta {
        mode: i.mode,
        nlink: i.nlink,
        uid: i.uid,
        gid: i.gid,
        rdev: i.rdev,
        compression: i.compression,
        atime: i.atime,
        mtime: i.mtime,
        ctime: i.ctime,
        btime: i.btime,
    }
}

/// Byte `p` of a file on disk.
pub open spec fn disk_byte(v: Volume, i: InodeView, p: int) -> u8 {
    if i.data_kind is Inline {
        if p < i.inline_data.len() {
            i.inline_data[p]
        } else {
            0
        }
    } else {
        ubyte(v, disk_exts(v, i), p)
    }
}

/// The attributes of an inode on disk.
pub open spec fn disk_attrs(v: Volume, i: InodeView) -> XattrView {
    if i.xattr_block == 0 {
        Seq::empty()
    } else {
        parsed_xattrs(v.d(i.xattr_block as int))
    }
}

/// The file that an inode on disk stands for.
pub open spec fn file_of(v: Volume, i: InodeView) -> Node {
    Node {
        meta: disk_meta(i),
        data: Seq::new(i.size as nat, |p: int| disk_byte(v, i, p)),
        xattr: disk_attrs(v, i),
    }
}

/// The files on disk: those of the inodes in table `t` below number `next`.
pub open spec fn disk_files(v: Volume, t: Seq<Extent>, next: int) -> Map<u64, Node> {
    Map::new(
        |ino: u64| 0 < ino < next && parsed_inode(slot(v, t, ino as int)) is Some,
        |ino: u64| file_of(v, parsed_inode(slot(v, t, ino as int))->0),
    )
}

/// The blocks of a volume are those of an image.
pub open spec fn shows(v: Volume, image: Seq<u8>) -> bool {
    forall|b: int| b >= 0 ==> #[trigger] v.d(b) == image_block(image, b)
}

/// The extents of inode `i` stand in its tree.
pub proof fn tree_roundtrip(v: Volume, i: Inode)
    requires
        i.extents@.len() > 0,
        i.extents@.len() <= u32::MAX,
        tree_stands(v, i),
    ensures
        tree_exts(v, i.extent_tree as int) == stored_extents(i.extents@),
        tree_len(v, i.extent_tree as int) == i.extent_tree_blocks,
{
    broadcast use {crate::bytes::lemma_concat_front, crate::bytes::lemma_concat_field};

    lemma_le();
    let exts = i.extents@;
    let n = exts.len() as int;
    let nb = i.extent_tree_blocks as int;
    let tree = i.extent_tree as int;
    let first = v.d(tree);
    assert(first == tree_block(exts, nb, 0));
    crate::format::lemma_extents_bytes_len(tree_part(exts, 0));
    let head = crate::bytes::le32(n as u32) + crate::bytes::le32(nb as u32) + tree_magic()
        + crate::bytes::zeros(4);
    assert(head.len() == 16);
    assert(head.subrange(0, 4) =~= crate::bytes::le32(n as u32));
    assert(head.subrange(4, 8) =~= crate::bytes::le32(nb as u32));
    assert(head.subrange(8, 12) =~= tree_magic());
    assert(first.subrange(0, 4) =~= head.subrange(0, 4));
    assert(first.subrange(4, 8) =~= head.subrange(4, 8));
    assert(first.subrange(8, 12) =~= head.subrange(8, 12));
    assert(n <= nb * 204);
    assert forall|k: int| 0 <= k < n implies tree_ext(v, tree, k) == exts[k].stored() by {
        let b = k / 204;
        let q = k % 204;
        let part = tree_part(exts, b);
        assert(0 <= b < nb);
        assert(part[q] == exts[k]);
        crate::format::lemma_extents_bytes_len(part);
        assert(v.d(tree + b) == tree_block(exts, nb, b));
        let blk = v.d(tree + b);
        let off = if b == 0 {
            16int
        } else {
            0int
        };
        assert(blk.subrange(off, off + 20 * part.len()) =~= crate::format::extents_bytes(part));
        lemma_extents_at(blk, off, part);
        assert(extents_at(blk, off, part.len())[q] == stored_extents(part)[q]);
    }
    assert(tree_exts(v, tree) =~= stored_extents(exts));
}

/// A record is found in the blocks that its header says.
proof fn lemma_resolved_record(v: Volume, e: Extent)
    requires
        v.wf(),
        e.compress != 0,
        e.plen() > 0,
        record_data(packed_raw(v, e)) is Some,
    ensures
        ({
            let f = resolve(v, e.stored());
            &&& parsed_header(v.d(e.physical as int)) == parsed_header(packed_raw(v, e))
            &&& f.compress == 1
            &&& 0 < f.phys_length <= e.plen()
            &&& f.logical == e.logical && f.physical == e.physical && f.length == e.length
            &&& packed_data(v, f) == packed_data(v, e)
            &&& record_data(packed_raw(v, f)) is Some
        }),
{
    let raw = packed_raw(v, e);
    let first = v.d(e.physical as int);
    crate::blocks::lemma_block_len(v, e.physical as int);
    assert forall|a: int, b: int| 0 <= a <= b <= HEADER_SIZE implies #[trigger] raw.subrange(a, b)
        == first.subrange(a, b) by {
        assert(raw.subrange(a, b) =~= first.subrange(a, b));
    }
    assert(raw[4] == first[4]);
    lemma_same_header(raw, first);
    let h = parsed_header(raw)->0;
    let f = resolve(v, e.stored());
    let end = HEADER_SIZE + h.payload_len;
    assert(h.phys() <= e.plen());
    assert(0 < h.phys() <= u32::MAX);
    let raw2 = packed_raw(v, f);
    assert(raw2.len() >= end);
    assert forall|a: int, b: int| 0 <= a <= b <= end implies #[trigger] raw2.subrange(a, b)
        == raw.subrange(a, b) by {
        assert(raw2.subrange(a, b) =~= raw.subrange(a, b));
    }
    assert(raw2[4] == raw[4]);
    lemma_same_header(raw2, raw);
}

/// Headers are read from the first bytes.
proof fn lemma_same_header(a: Seq<u8>, b: Seq<u8>)
    requires
        a.len() >= HEADER_SIZE,
        b.len() >= HEADER_SIZE,
        a[4] == b[4],
        forall|i: int, j: int|
            0 <= i <= j <= HEADER_SIZE ==> #[trigger] a.subrange(i, j) == b.subrange(i, j),
    ensures
        parsed_header(a) == parsed_header(b),
{
    assert(a.subrange(0, 4) == b.subrange(0, 4));
}

/// Two lists of extents that cover the same blocks in the same places.
pub open spec fn same_place(v: Volume, a: Seq<Extent>, b: Seq<Extent>) -> bool {
    &&& a.len() == b.len()
    &&& forall|k: int|
        0 <= k < a.len() ==> (#[trigger] b[k]).logical == a[k].logical && b[k].physical
            == a[k].physical && b[k].length == a[k].length && (b[k].compress == 0 <==> a[k].compress
            == 0) && (a[k].compress != 0 ==> packed_data(v, b[k]) == packed_data(v, a[k]))
}

/// Such lists read the same.
pub proof fn lemma_same_place(v: Volume, a: Seq<Extent>, b: Seq<Extent>, p: int)
    requires
        exts_ordered(a),
        same_place(v, a, b),
    ensures
        ubyte(v, b, p) == ubyte(v, a, p),
{
    let l = p / 4096;
    assert(exts_ordered(b)) by {
        assert forall|i: int, j: int| 0 <= i < j < b.len() implies (#[trigger] b[i]).lend() <= (
        #[trigger] b[j]).logical by {
            assert(a[i].lend() <= a[j].logical);
        }
    }
    lemma_find_some(a, l);
    lemma_find_some(b, l);
    match find_ext(a, l) {
        Some(e) => {
            let k = a.index_of(e);
            assert(b[k].has(l));
            lemma_find(b, k, l);
        },
        None => {
            if let Some(f) = find_ext(b, l) {
                let k = b.index_of(f);
                assert(b[k].has(l));
                assert(a[k].has(l));
            }
        },
    }
}

/// Attributes whose encoding fits into a block fit into their length fields.
proof fn lemma_small_attrs(x: XattrView)
    ensures
        forall|k: int|
            0 <= k < x.len() ==> (#[trigger] x[k]).0.len() + x[k].1.len()
                <= crate::xattr::attrs_bytes(x).len(),
        6 * x.len() <= crate::xattr::attrs_bytes(x).len(),
    decreases x.len(),
{
    lemma_le();
    if x.len() > 0 {
        lemma_small_attrs(x.drop_last());
        assert forall|k: int| 0 <= k < x.len() implies (#[trigger] x[k]).0.len() + x[k].1.len()
            <= crate::xattr::attrs_bytes(x).len() by {
            if k < x.len() - 1 {
                assert(x.drop_last()[k] == x[k]);
            }
        }
    }
}

/// What the format itself cannot keep apart is not there: raw data that looks like a record in a
/// file with records.
pub open spec fn clear(s: Inner) -> bool {
    forall|ino: u64| #[trigger]
        s.inodes@.contains_key(ino) ==> unambiguous(s.vol, s.inodes@[ino])
}

/// On a volume without compression every file can be read.
pub proof fn bare_is_sound(s: Inner)
    requires
        s.wf(),
        bare(s),
    ensures
        s.sound(),
{
    reveal(all_bare);
    assert forall|ino: u64| #[trigger] s.inodes@.contains_key(ino) implies exts_readable(
        s.vol,
        s.inodes@[ino].extents@,
    ) by {
        assert(inode_shape(s.inodes@[ino], s.rb()));
        crate::edit::lemma_raw_readable(s.vol, s.inodes@[ino].extents@);
    }
}

/// On a volume without compression nothing is taken for a record.
pub proof fn bare_is_clear(s: Inner)
    requires
        bare(s),
    ensures
        clear(s),
{
    reveal(all_bare);
}

/// No raw extent of a file with records starts like a record.
pub open spec fn unambiguous(v: Volume, i: Inode) -> bool {
    i.compresses() ==> forall|k: int|
        0 <= k < i.extents@.len() && (#[trigger] i.extents@[k]).compress == 0 ==> parsed_header(
            v.d(i.extents@[k].physical as int),
        ) is None
}

/// The extents of an inode are read back from disk.
pub proof fn lemma_disk_exts(v: Volume, t: Seq<Extent>, rb: int, i: Inode)
    requires
        v.wf(),
        inode_ok(v, None, rb, i),
        persisted(v, t, i),
        i.mode != 0,
        i.extents@.len() <= u32::MAX,
        unambiguous(v, i),
        exts_readable(v, i.extents@),
        !(i.data_kind is Inline),
    ensures
        same_place(v, i.extents@, disk_exts(v, i@.stored())),
        bare_exts(v, i@.stored()) == stored_extents(i.extents@),
        forall|k: int|
            0 <= k < i.extents@.len() ==> {
                let f = #[trigger] disk_exts(v, i@.stored())[k];
                &&& f.plen() <= i.extents@[k].plen()
                &&& f.compress != 0 ==> f.compress == 1 && f.phys_length > 0 && record_data(
                    packed_raw(v, f),
                ) is Some
                &&& f.compress == 0 ==> f.plen() == f.length
            },
{
    let iv = i@.stored();
    let exts = i.extents@;
    assert(bare_exts(v, iv) == stored_extents(exts)) by {
        if exts.len() <= MAX_DIRECT_EXTENTS {
            assert(i@.kept_extents() =~= exts);
        } else {
            tree_roundtrip(v, i);
        }
    }
    let d = disk_exts(v, iv);
    assert forall|k: int| 0 <= k < exts.len() implies (#[trigger] d[k]).logical == exts[k].logical
        && d[k].physical == exts[k].physical && d[k].length == exts[k].length && (d[k].compress == 0
        <==> exts[k].compress == 0) && (exts[k].compress != 0 ==> packed_data(v, d[k])
        == packed_data(v, exts[k])) && d[k].plen() <= exts[k].plen() && (d[k].compress != 0
        ==> d[k].compress == 1 && d[k].phys_length > 0 && record_data(packed_raw(v, d[k])) is Some)
        && (d[k].compress == 0 ==> d[k].plen() == d[k].length) by {
        assert(ext_wf(exts[k], rb));
        if i.compresses() {
            if exts[k].compress != 0 {
                lemma_resolved_record(v, exts[k]);
            }
        } else {
            assert(exts[k].compress == 0);
        }
    }
}

/// A volume that stands on disk is read back from it.
pub proof fn lemma_lies_read(s: Inner)
    requires
        lies(s),
        s.sound(),
        clear(s),
    ensures
        s@.nodes == disk_files(s.vol, s.table(), s.sb.next_inode as int),
{
    let v = s.vol;
    let t = s.table();
    let m = disk_files(v, t, s.sb.next_inode as int);
    assert forall|ino: u64| s.inodes@.contains_key(ino) implies #[trigger] m.contains_key(ino)
        && m[ino] == s@.nodes[ino] by {
        let i = s.inodes@[ino];
        assert(!s.dirty_inodes@.contains(ino));
        assert(persisted(v, t, i));
        inode_roundtrip(i@, Seq::empty());
        assert(i@.bytes() + Seq::<u8>::empty() =~= i@.bytes());
        let iv = i@.stored();
        assert(parsed_inode(slot(v, t, ino as int)) == Some(iv));
        let f = file_of(v, iv);
        let n = s@.nodes[ino];
        assert(f.data =~= n.data) by {
            if i.data_kind is Inline {
                assert(i@.kept_inline() =~= i.inline_data@);
            } else {
                lemma_disk_exts(v, t, s.rb(), i);
                assert forall|p: int| 0 <= p < i.size implies f.data[p] == n.data[p] by {
                    lemma_same_place(v, i.extents@, disk_exts(v, iv), p);
                    assert(n.data[p] == fbyte(v, None, s.rb(), i, p));
                }
            }
        }
        lemma_disk_attrs(v, t, i);
    }
    assert forall|ino: u64| #[trigger] m.contains_key(ino) implies s@.nodes.contains_key(ino) by {
        if !s.inodes@.contains_key(ino) {
            assert(parsed_inode(slot(v, t, ino as int)) is None);
        }
    }
    assert(s@.nodes =~= m);
}

/// The attributes of an inode are read back from disk.
pub proof fn lemma_disk_attrs(v: Volume, t: Seq<Extent>, i: Inode)
    requires
        persisted(v, t, i),
    ensures
        disk_attrs(v, i@.stored()) == attrs(i.xattr@),
{
    let x = attrs(i.xattr@);
    if i.xattr@.len() == 0 {
        assert(x =~= Seq::empty());
    } else {
        lemma_le();
        lemma_small_attrs(x);
        let b = xattr_bytes(x);
        assert(padded(b, 4096) =~= b + crate::bytes::zeros((4096 - b.len()) as nat));
        crate::xattr::xattr_roundtrip(x, crate::bytes::zeros((4096 - b.len()) as nat));
    }
}

/// What an inode on disk says depends on the blocks alone.
pub proof fn lemma_same_disk_file(v0: Volume, v1: Volume, i: InodeView)
    requires
        forall|b: int| b >= 0 ==> #[trigger] v1.d(b) == v0.d(b),
    ensures
        bare_exts(v1, i) == bare_exts(v0, i),
        disk_exts(v1, i) == disk_exts(v0, i),
        forall|p: int| #[trigger] disk_byte(v1, i, p) == disk_byte(v0, i, p),
        disk_attrs(v1, i) == disk_attrs(v0, i),
        file_of(v1, i) == file_of(v0, i),
        i.extent_tree > 0 ==> tree_len(v1, i.extent_tree as int) == tree_len(
            v0,
            i.extent_tree as int,
        ),
{
    let t = i.extent_tree as int;
    assert(v1.d(t) == v0.d(t));
    assert(tree_exts(v1, t) =~= tree_exts(v0, t)) by {
        assert forall|k: int| 0 <= k < tree_exts(v1, t).len() implies tree_exts(v1, t)[k]
            == tree_exts(v0, t)[k] by {
            assert(v1.d(t + k / 204) == v0.d(t + k / 204));
        }
    }
    let s = bare_exts(v0, i);
    assert(disk_exts(v1, i) =~= disk_exts(v0, i)) by {
        assert forall|k: int| 0 <= k < s.len() implies resolve(v1, s[k]) == resolve(v0, s[k]) by {
            assert(v1.d(s[k].physical as int) == v0.d(s[k].physical as int));
        }
    }
    let d = disk_exts(v0, i);
    assert forall|p: int| #[trigger] disk_byte(v1, i, p) == disk_byte(v0, i, p) by {
        let l = p / 4096;
        lemma_find_some(d, l);
        lemma_ublock_same(v0, v1, d, l);
    }
    assert(v1.d(i.xattr_block as int) == v0.d(i.xattr_block as int));
    assert(file_of(v1, i).data =~= file_of(v0, i).data);
}

/// The files on disk depend on the blocks alone.
pub proof fn lemma_same_disk_files(v0: Volume, v1: Volume, t: Seq<Extent>, next: int)
    requires
        forall|b: int| b >= 0 ==> #[trigger] v1.d(b) == v0.d(b),
    ensures
        disk_files(v1, t, next) == disk_files(v0, t, next),
        forall|ino: int| ino >= 0 ==> #[trigger] slot(v1, t, ino) == slot(v0, t, ino),
{
    assert forall|ino: int| ino >= 0 implies #[trigger] slot(v1, t, ino) == slot(v0, t, ino) by {
        lemma_find_some(t, ino / 16);
    }
    assert forall|ino: u64| #[trigger] disk_files(v1, t, next).contains_key(ino) implies disk_files(
        v1,
        t,
        next,
    )[ino] == disk_files(v0, t, next)[ino] by {
        assert(slot(v1, t, ino as int) == slot(v0, t, ino as int));
        lemma_same_disk_file(v0, v1, parsed_inode(slot(v0, t, ino as int))->0);
    }
    assert forall|ino: u64|
        disk_files(v1, t, next).contains_key(ino) == #[trigger] disk_files(
            v0,
            t,
            next,
        ).contains_key(ino) by {
        assert(slot(v1, t, ino as int) == slot(v0, t, ino as int));
    }
    assert(disk_files(v1, t, next) =~= disk_files(v0, t, next));
}

/// Where the superblock of a volume that rests on disk is damaged, its copy is read instead, as
/// long as the number of journal blocks can still be read.
pub proof fn copy_replaces_superblock(s: Inner, damaged: Seq<u8>)
    requires
        rests(s),
        damaged.len() == s.vol.image@.len(),
        forall|b: int|
            b >= 1 ==> #[trigger] image_block(damaged, b) == image_block(s.vol.image@, b),
        parsed_super(image_block(damaged, 0)) is None,
        u32_at(image_block(damaged, 0), 16) == s.sb.journal_blocks,
    ensures
        disk_super(damaged) is Some,
        disk_super(damaged) == disk_super(s.vol.image@),
{
    let total = choose|total: u64| crate::flush::super_at(s, total);
    let sv = SuperView { total_blocks: total, ..s.sb@ };
    crate::format::superblock_roundtrip(sv, Seq::empty());
    assert(sv.bytes() + Seq::<u8>::empty() =~= sv.bytes());
    let copy = 1 + s.sb.journal_blocks;
    assert(image_block(damaged, copy) == image_block(s.vol.image@, copy));
}

} // verus!
