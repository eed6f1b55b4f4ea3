//! What a mount finds in an image that was written up to the commit record of a transaction.

use vstd::prelude::*;

use crate::bytes::splice;
use crate::disk::{disk_super, replayed};
use crate::extents::{at_place, find_ext, lemma_find_some, lookup, Loc};
use crate::flush::{
    committed, dirty_ops, journal_bytes, mapped, rests, same_super, settled_from, tx_bytes,
};
use crate::format::{stored_extents, superblock_roundtrip, Extent};
use crate::inner::{in_place, persisted, slot, table_capacity, table_ext_claimed, table_ok, Inner};
use crate::inode::inode_roundtrip;
use crate::journal::{
    bytes_written, found_txs, journal_area, journal_used, lemma_tx_found, op_applied, op_fits,
    op_good, ops_applied, ops_fit, slot_place, tx_at, txs_applied, txs_at, JournalOp, OP_INODE,
};
use crate::open::recovers;
use crate::store::{image_block, max_blocks};
use crate::table::lemma_table_maps;
use crate::volume::{Owner, Owners};

verus! {

/// The 256 bytes of inode `y` in the table, as they stand in an image.
pub open spec fn slot_in(image: Seq<u8>, t: Seq<Extent>, y: int) -> Seq<u8> {
    match lookup(t, y / 16) {
        Some(Loc::Raw(b)) => image_block(image, b).subrange(y % 16 * 256, y % 16 * 256 + 256),
        _ => Seq::empty(),
    }
}

/// Writing part of a block changes that part alone.
proof fn lemma_part_written(image: Seq<u8>, b: int, off: int, data: Seq<u8>, c: int)
    requires
        0 <= b,
        0 <= c,
        0 <= off,
        off + data.len() <= 4096,
    ensures
        bytes_written(image, b * 4096 + off, data).len() >= image.len(),
        image_block(bytes_written(image, b * 4096 + off, data), c) == if c == b {
            splice(image_block(image, c), off, data)
        } else {
            image_block(image, c)
        },
{
    let w = bytes_written(image, b * 4096 + off, data);
    if c == b {
        assert(image_block(w, c) =~= splice(image_block(image, c), off, data));
    } else {
        assert(image_block(w, c) =~= image_block(image, c));
    }
}

/// An image in which some of the operations `ops` were redone: their slots are those of `want`, all
/// others and all other blocks are as they were in `x`.
spec fn redone(
    x: Seq<u8>,
    now: Seq<u8>,
    s: Inner,
    ops: Seq<JournalOp>,
) -> bool {
    let t = s.table();
    &&& now.len() >= x.len()
    &&& forall|y: u64|
        y < table_capacity(t) ==> #[trigger] slot_in(now, t, y as int) == if exists|k: int|
            0 <= k < ops.len() && (#[trigger] ops[k]).key == y {
            slot(s.vol, t, y as int)
        } else {
            slot_in(x, t, y as int)
        }
    &&& forall|b: int|
        b >= 0 && !(s.vol.owner@.contains_key(b) && s.vol.owner@[b] is Table)
            ==> #[trigger] image_block(now, b) == image_block(x, b)
}

/// Where the slot of an inode lies.
proof fn lemma_slot_lies(s: Inner, y: u64) -> (b: int)
    requires
        s.wf(),
        y < table_capacity(s.table()),
    ensures
        lookup(s.table(), (y / 16) as int) == Some(Loc::Raw(b)),
        slot_place(s.table(), y) == Some((b, (y % 16) * 256)),
        s.vol.owner@.contains_key(b),
        s.vol.owner@[b] == Owner::Table((y / 16) as int),
        0 <= b < max_blocks(),
{
    let t = s.table();
    let l = (y / 16) as int;
    lemma_table_maps(s.vol.owner@, t, l, t.len() - 1);
    let e = find_ext(t, l)->0;
    let b = lookup(t, l)->0->Raw_0;
    assert(b == e.physical + (l - e.logical));
    b
}

/// Redoing the records of inodes puts them into their slots.
#[verifier::rlimit(60)]
proof fn lemma_redone(x: Seq<u8>, s: Inner, ops: Seq<JournalOp>)
    requires
        s.wf(),
        forall|k: int|
            0 <= k < ops.len() ==> (#[trigger] ops[k]).kind == OP_INODE && ops[k].data.len() == 256
                && ops[k].key < table_capacity(s.table()) && ops[k].data == slot(
                s.vol,
                s.table(),
                ops[k].key as int,
            ),
    ensures
        redone(x, ops_applied(x, s.table(), ops), s, ops),
        ops_fit(s.table(), ops),
    decreases ops.len(),
{
    let t = s.table();
    if ops.len() > 0 {
        let front = ops.drop_last();
        assert forall|k: int| 0 <= k < front.len() implies (#[trigger] front[k]).kind == OP_INODE
            && front[k].data.len() == 256 && front[k].key < table_capacity(t) && front[k].data
            == slot(s.vol, t, front[k].key as int) by {
            assert(front[k] == ops[k]);
        }
        lemma_redone(x, s, front);
        let before = ops_applied(x, t, front);
        let op = ops.last();
        assert(op == ops[ops.len() - 1]);
        let b = lemma_slot_lies(s, op.key);
        let off = (op.key % 16) * 256;
        let now = op_applied(before, t, op);
        assert(now == bytes_written(before, b * 4096 + off, op.data));
        lemma_part_written(before, b, off as int, op.data, b);
        assert forall|y: u64| y < table_capacity(t) implies #[trigger] slot_in(now, t, y as int)
            == (if exists|k: int| 0 <= k < ops.len() && (#[trigger] ops[k]).key == y {
            slot(s.vol, t, y as int)
        } else {
            slot_in(x, t, y as int)
        }) by {
            let c = lemma_slot_lies(s, y);
            lemma_part_written(before, b, off as int, op.data, c);
            assert(slot_in(before, t, y as int) == if exists|k: int|
                0 <= k < front.len() && (#[trigger] front[k]).key == y {
                slot(s.vol, t, y as int)
            } else {
                slot_in(x, t, y as int)
            });
            if y == op.key {
                assert(c == b);
                assert(slot_in(now, t, y as int) =~= op.data);
            } else {
                if c == b {
                    assert(y / 16 == op.key / 16);
                    assert(slot_in(now, t, y as int) =~= slot_in(before, t, y as int));
                }
                if exists|k: int| 0 <= k < ops.len() && (#[trigger] ops[k]).key == y {
                    let k = choose|k: int| 0 <= k < ops.len() && (#[trigger] ops[k]).key == y;
                    assert(front[k] == ops[k]);
                }
                if exists|k: int| 0 <= k < front.len() && (#[trigger] front[k]).key == y {
                    let k = choose|k: int| 0 <= k < front.len() && (#[trigger] front[k]).key == y;
                    assert(ops[k].key == y);
                }
            }
        }
        assert forall|c: int|
            c >= 0 && !(s.vol.owner@.contains_key(c)
                && s.vol.owner@[c] is Table) implies #[trigger] image_block(now, c) == image_block(
            x,
            c,
        ) by {
            lemma_part_written(before, b, off as int, op.data, c);
            assert(image_block(before, c) == image_block(x, c));
        }
        assert forall|i: int| 0 <= i < ops.len() implies op_fits(t, #[trigger] ops[i]) by {
            if i < front.len() {
                assert(front[i] == ops[i]);
                assert(op_fits(t, front[i]));
            }
        }
    }
}

/// No extent of the table ends behind the last one.
proof fn lemma_table_end(m: Owners, t: Seq<Extent>, k: int)
    requires
        table_ok(m, t),
        0 <= k < t.len(),
    ensures
        t[k].lend() <= t.last().lend(),
    decreases t.len() - k,
{
    if k < t.len() - 1 {
        assert(t[k].lend() == t[k + 1].logical);
        assert(t[k + 1].length > 0);
        lemma_table_end(m, t, k + 1);
    }
}

/// A block of the table is made of its slots.
proof fn lemma_table_block(s: Inner, i0: Seq<u8>, i1: Seq<u8>, b: int)
    requires
        s.wf(),
        s.vol.owner@.contains_key(b),
        s.vol.owner@[b] is Table,
        forall|y: u64|
            y < table_capacity(s.table()) ==> #[trigger] slot_in(i0, s.table(), y as int)
                == slot_in(i1, s.table(), y as int),
    ensures
        image_block(i0, b) == image_block(i1, b),
{
    let t = s.table();
    let l = s.vol.owner@[b]->Table_0;
    assert(in_place(s.vol, s.inodes@, t, s.sb.alloc_block, b, s.vol.owner@[b]));
    assert(at_place(t, l, b));
    lemma_find_some(t, l);
    let e = find_ext(t, l)->0;
    let k = t.index_of(e);
    assert(t[k] == e);
    lemma_table_end(s.vol.owner@, t, k);
    assert forall|j: int| 0 <= j < 4096 implies image_block(i0, b)[j] == image_block(i1, b)[j] by {
        let y: u64 = (16 * l + j / 256) as u64;
        assert(y / 16 == l && y % 16 == j / 256);
        assert(slot_in(i0, t, y as int) == slot_in(i1, t, y as int));
        assert(slot_in(i0, t, y as int)[j % 256] == image_block(i0, b)[j]);
        assert(slot_in(i1, t, y as int)[j % 256] == image_block(i1, b)[j]);
    }
    assert(image_block(i0, b) =~= image_block(i1, b));
}

/// A mount finds in the journal the one transaction that was committed last.
proof fn lemma_found(c: Inner, seq: u64, at: int)
    requires
        c.wf(),
        committed(c, seq, at, at as u32),
        0 <= at <= u32::MAX,
        c.sb.journal_blocks * 4096 <= u32::MAX,
    ensures
        found_txs(c.vol.image@, c.sb@) == seq![dirty_ops(c)],
{
    let image = c.vol.image@;
    let sb = c.sb@;
    let ops = dirty_ops(c);
    let full = tx_bytes(seq, ops);
    let jb = c.sb.journal_blocks as int;
    crate::bytes::lemma_le();
    assert(full.len() >= 16);
    assert(journal_area(image, jb) =~= journal_bytes(image, jb));
    let buf = journal_used(image, sb);
    assert(buf =~= journal_area(image, jb).take(at + full.len()));
    assert(buf.subrange(at, at + full.len()) =~= full);
    assert forall|i: int| 0 <= i < ops.len() implies op_good(#[trigger] ops[i]) by {
        let y = c.dirty_inodes@[i];
        assert(c.dirty_inodes@.contains(y));
        assert(c.inodes@.contains_key(y));
        inode_roundtrip(c.inodes@[y]@, Seq::empty());
    }
    lemma_tx_found(buf, at, seq, ops, seq);
    let end = at + full.len();
    assert(tx_at(buf, end, seq) is None);
    assert(txs_at(buf, end, seq) =~= Seq::<Seq<JournalOp>>::empty());
    assert(txs_at(buf, at, seq) =~= seq![ops]);
}

/// Where the inodes of a volume were committed to the journal and nothing else was written, a mount
/// finds the volume with these inodes in their places.
#[verifier::rlimit(60)]
pub proof fn lemma_recovers(c: Inner, s1: Inner, seq: u64, at: int)
    requires
        c.wf(),
        c.vol.clean(),
        mapped(c),
        committed(c, seq, at, at as u32),
        0 <= at <= u32::MAX,
        c.sb.journal_blocks * 4096 <= u32::MAX,
        s1 == (Inner { vol: s1.vol, sb: s1.sb, dirty_inodes: s1.dirty_inodes, ..c }),
        settled_from(c, s1),
        rests(s1),
    ensures
        recovers(s1, c.vol.image@),
{
    let x = c.vol.image@;
    let sb = c.sb@;
    let t = c.table();
    let ops = dirty_ops(c);
    assert(s1.table() == t) by {
        assert(s1.sb@.table == c.sb@.table);
    }
    superblock_roundtrip(sb, Seq::empty());
    assert(sb.bytes() + Seq::<u8>::empty() =~= sb.bytes());
    assert(stored_extents(sb.kept_table()) =~= sb.table) by {
        assert forall|k: int| 0 <= k < sb.table.len() implies stored_extents(sb.table)[k]
            == sb.table[k] by {
            assert(table_ext_claimed(c.vol.owner@, t[k]));
        }
    }
    assert(sb.stored() == sb);
    assert(disk_super(x) == Some(sb));
    assert(same_super(s1.sb@, sb));
    lemma_found(c, seq, at);
    assert forall|k: int| 0 <= k < ops.len() implies (#[trigger] ops[k]).kind == OP_INODE
        && ops[k].data.len() == 256 && ops[k].key < table_capacity(t) && ops[k].data == slot(
        s1.vol,
        t,
        ops[k].key as int,
    ) by {
        let y = ops[k].key;
        assert(c.dirty_inodes@.contains(y));
        assert(c.inodes@.contains_key(y));
        assert(!s1.dirty_inodes@.contains(y));
        assert(persisted(s1.vol, t, s1.inodes@[y]));
        inode_roundtrip(c.inodes@[y]@, Seq::empty());
    }
    lemma_redone(x, s1, ops);
    let txs = found_txs(x, sb);
    assert(txs.drop_last() =~= Seq::<Seq<JournalOp>>::empty());
    let now = ops_applied(x, t, ops);
    if c.sb.journal_blocks == 0 {
        crate::bytes::lemma_le();
        assert(tx_bytes(seq, ops).len() > 0);
    }
    assert(txs_applied(x, t, txs.drop_last()) == x);
    assert(replayed(x, sb) == now);
    assert forall|b: int| #[trigger] s1.vol.owner@.contains_key(b) implies image_block(now, b)
        == image_block(s1.vol.image@, b) by {
        assert(b >= 0);
        if s1.vol.owner@[b] is Table {
            assert forall|y: u64| y < table_capacity(t) implies #[trigger] slot_in(
                now,
                t,
                y as int,
            ) == slot_in(s1.vol.image@, t, y as int) by {
                let d = lemma_slot_lies(s1, y);
                assert(s1.vol.d(d) == image_block(s1.vol.image@, d));
                assert(slot_in(s1.vol.image@, t, y as int) == slot(s1.vol, t, y as int));
                if !(exists|k: int| 0 <= k < ops.len() && (#[trigger] ops[k]).key == y) {
                    if c.dirty_inodes@.contains(y) {
                        let k = c.dirty_inodes@.index_of(y);
                        assert(ops[k].key == y);
                    }
                    assert(slot(s1.vol, t, y as int) == slot(c.vol, t, y as int));
                    assert(c.vol.d(d) == image_block(x, d));
                }
            }
            lemma_table_block(s1, now, s1.vol.image@, b);
        } else {
            assert(image_block(now, b) == image_block(x, b));
        }
    }
    let n = choose|n: int| #[trigger]
        crate::flush::map_at(x, c.sb.alloc_block as int, n, c.vol.alloc);
    assert(c.vol.d(c.sb.alloc_block as int) == image_block(x, c.sb.alloc_block as int));
    assert forall|b: int| #[trigger]
        s1.vol.owner@.contains_key(b) && s1.vol.owner@[b] == Owner::Area implies (b + 1) * 4096
        <= now.len() by {
        assert(in_place(c.vol, c.inodes@, t, c.sb.alloc_block, b, Owner::Area));
    }
    assert(c.vol.image.wf());
}

/// A mount that finds one volume finds another one with the same blocks.
pub proof fn lemma_recovers_same(s0: Inner, s1: Inner, image: Seq<u8>)
    requires
        recovers(s0, image),
        s1.sb == s0.sb,
        s1.vol.owner == s0.vol.owner,
        s1.vol.image@ == s0.vol.image@,
    ensures
        recovers(s1, image),
{
}

} // verus!
