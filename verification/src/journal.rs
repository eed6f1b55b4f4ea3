//! Metadata write-ahead log. Data blocks are written before the commit record.

use vstd::prelude::*;

use crate::bytes::{
    append, bytes_equal, copy_bytes, get_u32, get_u64, le32, le64, lemma_concat_field,
    lemma_concat_front, lemma_le, padded, put_u32_vec, put_u64_vec, splice, u32_at, u64_at,
    zero_vec,
};
use crate::crc::{changed_byte_is_noticed, crc32, crc32_of};
use crate::error::{eio, enospc, Result, EIO, ENOSPC};
use crate::extents::{find_ext, locate};
use crate::format::{Extent, SuperView, Superblock};
use crate::store::{
    block_limit, block_written, extends, grown_len, image_block, logs_write, max_blocks, HostOp,
    Image,
};

verus! {

broadcast use crate::store::group_extends;

pub const OP_BEGIN: u32 = 1;

pub const OP_INODE: u32 = 2;

pub const OP_BLOCK: u32 = 3;

pub const OP_COMMIT: u32 = 4;

/// `JRNL`
pub open spec fn journal_magic() -> Seq<u8> {
    seq![74u8, 82, 78, 76]
}

/// An operation in a transaction: its kind (`OP_INODE` or `OP_BLOCK`), the number of the inode
/// or block, and the contents.
pub ghost struct JournalOp {
    pub kind: u32,
    pub key: u64,
    pub data: Seq<u8>,
}

/// An operation on disk.
pub open spec fn op_bytes(op: JournalOp) -> Seq<u8> {
    le32(op.kind) + le64(op.key) + le32(op.data.len() as u32) + op.data
}

/// Operations on disk, one after the other.
pub open spec fn ops_bytes(ops: Seq<JournalOp>) -> Seq<u8>
    decreases ops.len(),
{
    if ops.len() == 0 {
        Seq::empty()
    } else {
        ops_bytes(ops.drop_last()) + op_bytes(ops.last())
    }
}

/// The start of a transaction.
pub open spec fn begin_bytes(seq: u64) -> Seq<u8> {
    journal_magic() + le32(OP_BEGIN) + le64(seq)
}

/// A transaction with its commit record, given what stands before that record.
pub open spec fn committed_bytes(seq: u64, open: Seq<u8>) -> Seq<u8> {
    open + le32(OP_COMMIT) + le64(seq) + le32(crc32_of(open + le32(OP_COMMIT) + le64(seq)))
}

/// The operations of the transaction that started at `begin`, from `off` up to its commit
/// record, and the end of that record; `None` where there is no good commit record.
pub open spec fn ops_at(buf: Seq<u8>, begin: int, seq: u64, off: int) -> Option<
    (Seq<JournalOp>, int),
>
    decreases buf.len() - off,
{
    if off < 0 || off + 16 > buf.len() {
        None
    } else if u32_at(buf, off) == OP_INODE || u32_at(buf, off) == OP_BLOCK {
        let n = u32_at(buf, off + 12);
        if off + 16 + n > buf.len() {
            None
        } else {
            let op = JournalOp {
                kind: u32_at(buf, off),
                key: u64_at(buf, off + 4),
                data: buf.subrange(off + 16, off + 16 + n),
            };
            match ops_at(buf, begin, seq, off + 16 + n) {
                None => None,
                Some((rest, end)) => Some((seq![op] + rest, end)),
            }
        }
    } else if u32_at(buf, off) == OP_COMMIT && u64_at(buf, off + 4) == seq && u32_at(buf, off + 12)
        == crc32_of(buf.subrange(begin, off + 12)) {
        Some((Seq::empty(), off + 16))
    } else {
        None
    }
}

/// The committed transaction that stands at `off`, and where it ends.
pub open spec fn tx_at(buf: Seq<u8>, off: int, committed: u64) -> Option<(Seq<JournalOp>, int)> {
    if off < 0 || off + 16 > buf.len() || buf.subrange(off, off + 4) != journal_magic() || u32_at(
        buf,
        off + 4,
    ) != OP_BEGIN || u64_at(buf, off + 8) == 0 || u64_at(buf, off + 8) > committed {
        None
    } else {
        ops_at(buf, off, u64_at(buf, off + 8), off + 16)
    }
}

/// A commit record lies behind the start of its transaction, and within the journal.
pub proof fn lemma_ops_at_end(buf: Seq<u8>, begin: int, seq: u64, off: int)
    ensures
        ops_at(buf, begin, seq, off) matches Some((_, end)) ==> off < end <= buf.len(),
    decreases buf.len() - off,
{
    if !(off < 0 || off + 16 > buf.len()) && (u32_at(buf, off) == OP_INODE || u32_at(buf, off)
        == OP_BLOCK) {
        let n = u32_at(buf, off + 12);
        if off + 16 + n <= buf.len() {
            lemma_ops_at_end(buf, begin, seq, off + 16 + n);
        }
    }
}

/// The committed transactions that stand one after the other from `off` on.
pub open spec fn txs_at(buf: Seq<u8>, off: int, committed: u64) -> Seq<Seq<JournalOp>>
    decreases buf.len() - off,
{
    match tx_at(buf, off, committed) {
        None => Seq::empty(),
        Some((ops, end)) => {
            proof {
                lemma_ops_at_end(buf, off, u64_at(buf, off + 8), off + 16);
            }
            seq![ops] + txs_at(buf, end, committed)
        },
    }
}

/// Whether an operation puts a whole block into the image.
pub open spec fn is_block_op(op: JournalOp) -> bool {
    op.kind == OP_BLOCK && op.data.len() == 4096
}

/// Whether an operation is the record of an inode.
pub open spec fn is_inode_op(op: JournalOp) -> bool {
    op.kind == OP_INODE && op.data.len() == 256
}

/// Block and byte of the slot of inode `ino` in an inode table.
pub open spec fn slot_place(t: Seq<Extent>, ino: u64) -> Option<(int, int)> {
    match find_ext(t, (ino / 16) as int) {
        None => None,
        Some(e) => Some((e.physical + (ino / 16 - e.logical), (ino % 16) * 256)),
    }
}

/// An image after `data` was written at byte `at`; it grows where it ends too early.
pub open spec fn bytes_written(image: Seq<u8>, at: int, data: Seq<u8>) -> Seq<u8> {
    splice(
        if at + data.len() <= image.len() {
            image
        } else {
            padded(image, grown_len(at + data.len()) as nat)
        },
        at,
        data,
    )
}

/// The image after one operation: a whole block is put in its place, and the record of an inode
/// into its slot in inode table `t`.
pub open spec fn op_applied(image: Seq<u8>, t: Seq<Extent>, op: JournalOp) -> Seq<u8> {
    if is_block_op(op) {
        block_written(image, op.key as int, op.data)
    } else if is_inode_op(op) && slot_place(t, op.key) is Some {
        let (b, off) = slot_place(t, op.key)->0;
        bytes_written(image, b * 4096 + off, op.data)
    } else {
        image
    }
}

/// The image after the operations of a transaction.
pub open spec fn ops_applied(image: Seq<u8>, t: Seq<Extent>, ops: Seq<JournalOp>) -> Seq<u8>
    decreases ops.len(),
{
    if ops.len() == 0 {
        image
    } else {
        op_applied(ops_applied(image, t, ops.drop_last()), t, ops.last())
    }
}

/// The image after a list of transactions.
pub open spec fn txs_applied(image: Seq<u8>, t: Seq<Extent>, txs: Seq<Seq<JournalOp>>) -> Seq<u8>
    decreases txs.len(),
{
    if txs.len() == 0 {
        image
    } else {
        ops_applied(txs_applied(image, t, txs.drop_last()), t, txs.last())
    }
}

/// Whether an operation lies within the limits of an image.
pub open spec fn op_fits(t: Seq<Extent>, op: JournalOp) -> bool {
    if is_block_op(op) {
        op.key < max_blocks()
    } else if is_inode_op(op) && slot_place(t, op.key) is Some {
        (slot_place(t, op.key)->0).0 < max_blocks()
    } else {
        true
    }
}

/// Whether every operation of a transaction lies within the limits of an image.
pub open spec fn ops_fit(t: Seq<Extent>, ops: Seq<JournalOp>) -> bool {
    forall|i: int| 0 <= i < ops.len() ==> op_fits(t, #[trigger] ops[i])
}

/// The journal area of an image.
pub open spec fn journal_area(image: Seq<u8>, blocks: int) -> Seq<u8> {
    image.subrange(4096, 4096 + blocks * 4096)
}

/// The journal, up to its head where that lies behind the tail.
pub open spec fn journal_used(image: Seq<u8>, sb: SuperView) -> Seq<u8> {
    let area = journal_area(image, sb.journal_blocks as int);
    if sb.journal_tail < sb.journal_head <= area.len() {
        area.take(sb.journal_head as int)
    } else {
        area
    }
}

/// The transactions that a mount finds in the journal: those from its tail on. Where the tail has
/// come up to the head, everything was written to its place.
pub open spec fn found_txs(image: Seq<u8>, sb: SuperView) -> Seq<Seq<JournalOp>> {
    if sb.journal_tail == sb.journal_head {
        Seq::empty()
    } else {
        txs_at(journal_used(image, sb), sb.journal_tail as int, sb.journal_committed)
    }
}

/// Image `b` is image `a` after the record `full` was written to byte `at` of the journal, as far as
/// the host file goes; and it was waited for, where `sync` says so.
pub open spec fn record_written(a: Image, b: Image, at: int, full: Seq<u8>, sync: bool) -> bool {
    exists|m: Image| #[trigger]
        logs_write(a, m, 4096 + at, full) && b.log@ == if sync {
            m.log@.push(HostOp::SyncData)
        } else {
            m.log@
        }
}

#[derive(Debug)]
pub struct Journal {
    pub start_block: u64,
    pub blocks: u32,
    pub seq: u64,
    /// Byte offset within the journal area.
    pub head: u32,
}

#[derive(Debug)]
pub struct Transaction {
    pub seq: u64,
    pub buf: Vec<u8>,
}

impl Journal {
    pub fn new(sb: &Superblock) -> (j: Self)
        ensures
            j.start_block == 1,
            j.blocks == sb.journal_blocks,
            j.seq == sb.journal_seq,
            j.head == sb.journal_head,
    {
        Self {
            start_block: sb.journal_start(),
            blocks: sb.journal_blocks,
            seq: sb.journal_seq,
            head: sb.journal_head,
        }
    }

    pub fn area_bytes(&self) -> (n: u64)
        ensures
            n == self.blocks * 4096,
    {
        self.blocks as u64 * 4096
    }

    pub fn begin(&mut self) -> (tx: Transaction)
        requires
            old(self).seq < u64::MAX,
        ensures
            *final(self) == (Journal { seq: (old(self).seq + 1) as u64, ..*old(self) }),
            tx.seq == old(self).seq + 1,
            tx.buf@ == begin_bytes(tx.seq),
    {
        self.seq = self.seq + 1;
        let mut buf: Vec<u8> = copy_bytes(&[74u8, 82, 78, 76]);
        assert(buf@ =~= journal_magic());
        put_u32_vec(&mut buf, OP_BEGIN);
        put_u64_vec(&mut buf, self.seq);
        Transaction { seq: self.seq, buf }
    }

    /// Where a transaction of `len` bytes is written: behind the last one, or at the start where
    /// it does not fit there.
    pub open spec fn slot(&self, len: int) -> int {
        if self.head + len + 8 > self.blocks * 4096 {
            0
        } else {
            self.head as int
        }
    }

    /// Writes the transaction with a commit record into the journal area of the image; fails
    /// with `EIO` where the area is too small for it.
    pub fn commit(
        &mut self,
        image: &mut Image,
        sb: &mut Superblock,
        tx: Transaction,
        sync: bool,
    ) -> (r: Result<()>)
        requires
            old(image).wf(),
            old(self).start_block == 1,
            1 + old(self).blocks <= max_blocks(),
            tx.buf@.len() <= usize::MAX - 32,
        ensures
            extends(*old(image), *final(image)),
            final(image).wf(),
            final(self).start_block == old(self).start_block,
            final(self).blocks == old(self).blocks,
            final(self).seq == old(self).seq,
            ({
                let full = committed_bytes(tx.seq, tx.buf@);
                match r {
                    Ok(_) => {
                        let at = old(self).slot(full.len() as int);
                        &&& full.len() + 8 <= old(self).blocks * 4096
                        &&& record_written(*old(image), *final(image), at, full, sync)
                        &&& final(image)@ == splice(
                            if 4096 + at + full.len() <= old(image)@.len() {
                                old(image)@
                            } else {
                                crate::bytes::padded(
                                    old(image)@,
                                    crate::store::grown_len(4096 + at + full.len()) as nat,
                                )
                            },
                            4096 + at,
                            full,
                        )
                        &&& final(self).head == if at + full.len() <= u32::MAX {
                            (at + full.len()) as u32
                        } else {
                            u32::MAX
                        }
                        &&& final(sb)@ == (SuperView {
                            journal_seq: final(self).seq,
                            journal_head: final(self).head,
                            journal_tail: if at == 0 {
                                0
                            } else {
                                old(sb)@.journal_tail
                            },
                            journal_committed: final(self).seq,
                            ..old(sb)@
                        })
                    },
                    Err(e) => {
                        &&& full.len() + 8 > old(self).blocks * 4096
                        &&& e.is(EIO)
                        &&& *final(image) == *old(image)
                        &&& *final(sb) == *old(sb)
                        &&& *final(self) == *old(self)
                    },
                }
            }),
    {
        proof {
            lemma_le();
        }
        let mut buf = tx.buf;
        put_u32_vec(&mut buf, OP_COMMIT);
        put_u64_vec(&mut buf, tx.seq);
        let csum = crc32(buf.as_slice());
        put_u32_vec(&mut buf, csum);
        assert(buf@ == committed_bytes(tx.seq, tx.buf@));
        let len: u64 = buf.len() as u64;
        let area: u64 = self.area_bytes();
        if area < 8 || len > area - 8 {
            return Err(eio("journal transaction too large"));
        }
        if self.head as u64 + (len + 8) > area {
            self.head = 0;
        }
        let limit = block_limit();
        if self.head == 0 {
            sb.journal_tail = 0;
        }
        let off: u64 = 4096 + self.head as u64;
        image.write_all_at(buf.as_slice(), off);
        assert(logs_write(*old(image), *image, off as int, buf@));
        if sync {
            image.sync_data();
        }
        let end: u64 = self.head as u64 + len;
        self.head = if end <= u32::MAX as u64 {
            end as u32
        } else {
            u32::MAX
        };
        sb.journal_seq = self.seq;
        sb.journal_head = self.head;
        sb.journal_committed = self.seq;
        Ok(())
    }
}

impl Transaction {
    pub fn write_inode(&mut self, ino: u64, raw: &[u8])
        ensures
            final(self).seq == old(self).seq,
            final(self).buf@ == old(self).buf@ + op_bytes(
                JournalOp { kind: OP_INODE, key: ino, data: raw@ },
            ),
    {
        self.put_op(OP_INODE, ino, raw);
    }

    pub fn write_block(&mut self, block: u64, data: &[u8])
        ensures
            final(self).seq == old(self).seq,
            final(self).buf@ == old(self).buf@ + op_bytes(
                JournalOp { kind: OP_BLOCK, key: block, data: data@ },
            ),
    {
        self.put_op(OP_BLOCK, block, data);
    }

    fn put_op(&mut self, kind: u32, key: u64, data: &[u8])
        ensures
            final(self).seq == old(self).seq,
            final(self).buf@ == old(self).buf@ + op_bytes(JournalOp { kind, key, data: data@ }),
    {
        put_u32_vec(&mut self.buf, kind);
        put_u64_vec(&mut self.buf, key);
        put_u32_vec(&mut self.buf, data.len() as u32);
        append(&mut self.buf, data);
        assert(self.buf@ =~= old(self).buf@ + op_bytes(JournalOp { kind, key, data: data@ }));
    }
}

/// An operation that was read from the journal.
struct FoundOp {
    kind: u32,
    key: u64,
    data: Vec<u8>,
}

impl View for FoundOp {
    type V = JournalOp;

    closed spec fn view(&self) -> JournalOp {
        JournalOp { kind: self.kind, key: self.key, data: self.data@ }
    }
}

spec fn found_ops(s: Seq<FoundOp>) -> Seq<JournalOp> {
    Seq::new(s.len(), |i: int| s[i]@)
}

/// Reads the operations of a transaction up to its commit record.
fn read_ops(buf: &[u8], begin: usize, seq: u64, from: usize) -> (r: Option<(Vec<FoundOp>, usize)>)
    requires
        begin <= from <= buf@.len(),
    ensures
        match r {
            Some((ops, end)) => ops_at(buf@, begin as int, seq, from as int) == Some(
                (found_ops(ops@), end as int),
            ),
            None => ops_at(buf@, begin as int, seq, from as int) is None,
        },
{
    let total: usize = buf.len();
    let mut ops: Vec<FoundOp> = Vec::new();
    let mut off: usize = from;
    let ghost whole = ops_at(buf@, begin as int, seq, from as int);
    proof {
        assert(found_ops(ops@) =~= Seq::<JournalOp>::empty());
        if whole is Some {
            assert(found_ops(ops@) + (whole->0).0 =~= (whole->0).0);
        }
    }
    loop
        invariant
            total == buf@.len(),
            begin <= from <= off <= total,
            whole == ops_at(buf@, begin as int, seq, from as int),
            whole == match ops_at(buf@, begin as int, seq, off as int) {
                None => None,
                Some((rest, end)) => Some((found_ops(ops@) + rest, end)),
            },
        decreases total - off,
    {
        if total - off < 16 {
            return None;
        }
        let op = get_u32(buf, off);
        let key = get_u64(buf, off + 4);
        let last = get_u32(buf, off + 12);
        if op == OP_INODE || op == OP_BLOCK {
            let start: usize = off + 16;
            if last as u64 > (total - start) as u64 {
                return None;
            }
            let n: usize = last as usize;
            let data = copy_bytes(vstd::slice::slice_subrange(buf, start, start + n));
            let ghost done = found_ops(ops@);
            let ghost next = ops_at(buf@, begin as int, seq, off + 16 + n);
            ops.push(FoundOp { kind: op, key, data });
            assert(found_ops(ops@) =~= done.push(ops@.last()@));
            proof {
                if next is Some {
                    assert(done + (seq![ops@.last()@] + (next->0).0) =~= found_ops(ops@)
                        + (next->0).0);
                }
            }
            off = start + n;
        } else if op == OP_COMMIT && key == seq {
            let calc = crc32(vstd::slice::slice_subrange(buf, begin, off + 12));
            if calc != last {
                return None;
            }
            assert(found_ops(ops@) + Seq::<JournalOp>::empty() =~= found_ops(ops@));
            return Some((ops, off + 16));
        } else {
            return None;
        }
    }
}

/// Puts the blocks and inodes of a transaction into the image; fails with `ENOSPC` at one that
/// lies behind the limits of an image.
fn apply_ops(image: &mut Image, table: &Vec<Extent>, ops: &Vec<FoundOp>) -> (r: Result<()>)
    requires
        old(image).wf(),
    ensures
        final(image).wf(),
        match r {
            Ok(_) => ops_fit(table@, found_ops(ops@)) && final(image)@ == ops_applied(
                old(image)@,
                table@,
                found_ops(ops@),
            ),
            Err(e) => !ops_fit(table@, found_ops(ops@)) && e.is(ENOSPC),
        },
{
    let limit = block_limit();
    let n: usize = ops.len();
    let mut i: usize = 0;
    let ghost all = found_ops(ops@);
    assert(all.take(0) =~= Seq::<JournalOp>::empty());
    while i < n
        invariant
            n == ops@.len(),
            all == found_ops(ops@),
            i <= n,
            limit == max_blocks(),
            image.wf(),
            limit <= 0x1000_0000_0000,
            forall|k: int| 0 <= k < i ==> op_fits(table@, #[trigger] all[k]),
            image@ == ops_applied(old(image)@, table@, all.take(i as int)),
        decreases n - i,
    {
        let op = &ops[i];
        assert(all.take(i + 1).drop_last() =~= all.take(i as int));
        assert(all.take(i + 1).last() == op@);
        assert(all[i as int] == op@);
        if op.kind == OP_BLOCK && op.data.len() == 4096 {
            assert(is_block_op(all[i as int]));
            if op.key >= limit {
                assert(!op_fits(table@, all[i as int]));
                return Err(enospc());
            }
            let _ = image.write_block(op.key, op.data.as_slice());
        } else if op.kind == OP_INODE && op.data.len() == 256 {
            match locate(table, op.key / 16) {
                Some(k) => {
                    let e = table[k];
                    let l: u64 = op.key / 16 - e.logical;
                    if e.physical >= limit || l >= limit - e.physical {
                        assert(!op_fits(table@, all[i as int]));
                        return Err(enospc());
                    }
                    let at: u64 = (e.physical + l) * 4096 + op.key % 16 * 256;
                    image.write_all_at(op.data.as_slice(), at);
                },
                None => {},
            }
        }
        i = i + 1;
    }
    assert(all.take(n as int) =~= all);
    Ok(())
}

/// Redoes the committed transactions in the journal that were not written to their place yet, and
/// returns how many there were. A truncated transaction is ignored. Fails with `EIO` where the image ends inside the journal
/// area, and with `ENOSPC` at a block behind the limits of an image.
pub fn replay(image: &mut Image, sb: &Superblock) -> (r: Result<u32>)
    requires
        old(image).wf(),
    ensures
        final(image).wf(),
        ({
            let txs = found_txs(old(image)@, sb@);
            let t = sb@.table;
            match r {
                Ok(n) => if sb.journal_blocks == 0 {
                    n == 0 && *final(image) == *old(image)
                } else {
                    &&& 4096 + sb.journal_blocks * 4096 <= old(image)@.len()
                    &&& forall|i: int| 0 <= i < txs.len() ==> ops_fit(t, #[trigger] txs[i])
                    &&& final(image)@ == txs_applied(old(image)@, t, txs)
                    &&& txs.len() == 0 ==> *final(image) == *old(image)
                    &&& n == if txs.len() <= u32::MAX {
                        txs.len() as u32
                    } else {
                        u32::MAX
                    }
                },
                Err(e) => if 4096 + sb.journal_blocks * 4096 > old(image)@.len() {
                    e.is(EIO)
                } else {
                    e.is(ENOSPC) && exists|i: int|
                        0 <= i < txs.len() && !ops_fit(t, #[trigger] txs[i])
                },
            }
        }),
{
    let area: u64 = sb.journal_blocks as u64 * 4096;
    if area == 0 {
        return Ok(0);
    }
    if image.len() < 4096 || area > image.len() - 4096 {
        return Err(eio("read past end of image"));
    }
    if sb.journal_tail == sb.journal_head {
        return Ok(0);
    }
    let ghost t = sb@.table;
    let mut buf: Vec<u8> = zero_vec(area as usize);
    let _ = image.read_exact_at(buf.as_mut_slice(), 4096);
    assert(buf@ =~= journal_area(image@, sb.journal_blocks as int));
    if sb.journal_tail < sb.journal_head && sb.journal_head as u64 <= area {
        buf.truncate(sb.journal_head as usize);
    }
    let total: usize = buf.len();
    let ghost img0 = image@;
    let ghost log = journal_used(img0, sb@);
    let ghost committed = sb.journal_committed;
    let ghost whole = txs_at(log, sb.journal_tail as int, committed);
    assert(buf@ =~= log);
    let mut applied: u32 = 0;
    if sb.journal_tail as u64 > area {
        return Ok(0);
    }
    let mut off: usize = sb.journal_tail as usize;
    let ghost mut done: Seq<Seq<JournalOp>> = Seq::empty();
    assert(done + whole =~= whole);
    assert(off >= total ==> whole =~= done);
    let magic: &[u8] = &[74u8, 82, 78, 76];
    assert(magic@ =~= journal_magic());
    while off < total
        invariant_except_break
            whole == done + txs_at(log, off as int, committed),
        invariant
            total == buf@.len(),
            off <= total,
            buf@ == log,
            img0 == old(image)@,
            log == journal_used(img0, sb@),
            committed == sb.journal_committed,
            whole == found_txs(img0, sb@),
            t == sb@.table,
            t == sb.inode_table_extents@,
            magic@ == journal_magic(),
            image.wf(),
            sb.journal_blocks > 0,
            4096 + sb.journal_blocks * 4096 <= img0.len(),
            image@ == txs_applied(img0, t, done),
            done.len() == 0 ==> *image == *old(image),
            forall|i: int| 0 <= i < done.len() ==> ops_fit(t, #[trigger] done[i]),
            applied == if done.len() <= u32::MAX {
                done.len() as u32
            } else {
                u32::MAX
            },
        ensures
            whole == done,
        decreases total - off,
    {
        assert(txs_at(log, off as int, committed).len() == 0 ==> done + txs_at(
            log,
            off as int,
            committed,
        ) =~= done);
        if total - off < 16 || !bytes_equal(
            vstd::slice::slice_subrange(buf.as_slice(), off, off + 4),
            magic,
        ) {
            break;
        }
        if get_u32(buf.as_slice(), off + 4) != OP_BEGIN {
            break;
        }
        let seq = get_u64(buf.as_slice(), off + 8);
        if seq == 0 || seq > sb.journal_committed {
            break;
        }
        match read_ops(buf.as_slice(), off, seq, off + 16) {
            None => {
                break;
            },
            Some((ops, end)) => {
                proof {
                    lemma_ops_at_end(log, off as int, seq, off + 16);
                    let rest = txs_at(log, end as int, committed);
                    assert(txs_at(log, off as int, committed) == seq![found_ops(ops@)] + rest);
                    assert(done + (seq![found_ops(ops@)] + rest) =~= done.push(found_ops(ops@))
                        + rest);
                    assert(whole[done.len() as int] == found_ops(ops@));
                }
                match apply_ops(image, &sb.inode_table_extents, &ops) {
                    Ok(_) => {},
                    Err(e) => {
                        assert(!ops_fit(t, whole[done.len() as int]));
                        return Err(e);
                    },
                }
                proof {
                    let next = done.push(found_ops(ops@));
                    assert(next.drop_last() =~= done);
                    assert(next.last() == found_ops(ops@));
                    done = next;
                }
                if applied < u32::MAX {
                    applied = applied + 1;
                }
                off = end;
                assert(off >= total ==> txs_at(log, off as int, committed).len() == 0);
                assert(off >= total ==> done + txs_at(log, off as int, committed) =~= done);
            },
        }
    }
    Ok(applied)
}

proof fn lemma_ops_bytes_first(ops: Seq<JournalOp>)
    requires
        ops.len() > 0,
    ensures
        ops_bytes(ops) == op_bytes(ops[0]) + ops_bytes(ops.drop_first()),
    decreases ops.len(),
{
    if ops.len() == 1 {
        assert(ops.drop_last() =~= Seq::<JournalOp>::empty());
        assert(ops.drop_first() =~= Seq::<JournalOp>::empty());
        assert(ops_bytes(ops) =~= op_bytes(ops[0]) + ops_bytes(ops.drop_first()));
    } else {
        lemma_ops_bytes_first(ops.drop_last());
        assert(ops.drop_last().drop_first() =~= ops.drop_first().drop_last());
        assert(ops_bytes(ops) =~= op_bytes(ops[0]) + ops_bytes(ops.drop_first()));
    }
}

/// Whether an operation can be told apart on disk.
pub open spec fn op_good(op: JournalOp) -> bool {
    (op.kind == OP_INODE || op.kind == OP_BLOCK) && op.data.len() <= u32::MAX
}

proof fn lemma_op_fields(op: JournalOp)
    requires
        op.data.len() <= u32::MAX,
    ensures
        ({
            let b = op_bytes(op);
            &&& b.len() == 16 + op.data.len()
            &&& u32_at(b, 0) == op.kind
            &&& u64_at(b, 4) == op.key
            &&& u32_at(b, 12) == op.data.len()
            &&& b.subrange(16, 16 + op.data.len() as int) == op.data
        }),
{
    broadcast use {lemma_concat_front, lemma_concat_field};

    lemma_le();
    let b = op_bytes(op);
    assert(b.subrange(0, 4) == le32(op.kind)) by {
        assert(le32(op.kind).subrange(0, 4) =~= le32(op.kind));
    }
    assert(b.subrange(4, 12) == le64(op.key));
    assert(b.subrange(12, 16) == le32(op.data.len() as u32));
}

proof fn lemma_ops_found(buf: Seq<u8>, begin: int, seq: u64, off: int, ops: Seq<JournalOp>)
    requires
        0 <= begin <= off,
        off + ops_bytes(ops).len() + 16 <= buf.len(),
        buf.subrange(off, off + ops_bytes(ops).len()) == ops_bytes(ops),
        forall|i: int| 0 <= i < ops.len() ==> op_good(#[trigger] ops[i]),
        ({
            let c = off + ops_bytes(ops).len();
            &&& u32_at(buf, c) == OP_COMMIT
            &&& u64_at(buf, c + 4) == seq
            &&& u32_at(buf, c + 12) == crc32_of(buf.subrange(begin, c + 12))
        }),
    ensures
        ops_at(buf, begin, seq, off) == Some((ops, off + ops_bytes(ops).len() + 16)),
    decreases ops.len(),
{
    if ops.len() == 0 {
        assert(ops =~= Seq::<JournalOp>::empty());
    } else {
        let op = ops[0];
        let b = op_bytes(op);
        let n = op.data.len() as int;
        let t = buf.subrange(off, off + ops_bytes(ops).len());
        let rest = ops.drop_first();
        lemma_ops_bytes_first(ops);
        lemma_op_fields(op);
        assert(op_good(ops[0]));
        assert(buf.subrange(off, off + 4) =~= t.subrange(0, 4));
        assert(t.subrange(0, 4) =~= b.subrange(0, 4));
        assert(buf.subrange(off + 4, off + 12) =~= t.subrange(4, 12));
        assert(t.subrange(4, 12) =~= b.subrange(4, 12));
        assert(buf.subrange(off + 12, off + 16) =~= t.subrange(12, 16));
        assert(t.subrange(12, 16) =~= b.subrange(12, 16));
        assert(buf.subrange(off + 16, off + 16 + n) =~= t.subrange(16, 16 + n));
        assert(t.subrange(16, 16 + n) =~= b.subrange(16, 16 + n));
        assert(buf.subrange(off + b.len(), off + b.len() + ops_bytes(rest).len()) =~= ops_bytes(
            rest,
        )) by {
            assert(buf.subrange(off + b.len(), off + b.len() + ops_bytes(rest).len())
                =~= t.subrange(b.len() as int, t.len() as int));
        }
        assert forall|i: int| 0 <= i < rest.len() implies op_good(#[trigger] rest[i]) by {
            assert(rest[i] == ops[i + 1]);
        }
        lemma_ops_found(buf, begin, seq, off + b.len(), rest);
        assert(seq![op] + rest =~= ops);
    }
}

/// A committed inode that was not written to its slot yet is redone: after a replay its slot holds
/// what was recorded.
pub proof fn inode_is_redone(image: Seq<u8>, t: Seq<Extent>, ops: Seq<JournalOp>)
    requires
        ops.len() > 0,
        is_inode_op(ops.last()),
        slot_place(t, ops.last().key) is Some,
        0 <= (slot_place(t, ops.last().key)->0).0,
    ensures
        ({
            let (b, off) = slot_place(t, ops.last().key)->0;
            let at = b * 4096 + off;
            ops_applied(image, t, ops).subrange(at, at + 256) == ops.last().data
        }),
{
    let (b, off) = slot_place(t, ops.last().key)->0;
    let at = b * 4096 + off;
    assert(ops_applied(image, t, ops).subrange(at, at + 256) =~= ops.last().data);
}

/// A transaction that was committed at the start of the journal is found there again, with its
/// operations, whatever follows it.
pub proof fn journal_roundtrip(seq: u64, ops: Seq<JournalOp>, rest: Seq<u8>, committed: u64)
    requires
        0 < seq <= committed,
        forall|i: int| 0 <= i < ops.len() ==> op_good(#[trigger] ops[i]),
    ensures
        ({
            let full = committed_bytes(seq, begin_bytes(seq) + ops_bytes(ops));
            tx_at(full + rest, 0, committed) == Some((ops, full.len() as int))
        }),
{
    broadcast use {lemma_concat_front, lemma_concat_field};

    lemma_le();
    let head = begin_bytes(seq);
    let open = head + ops_bytes(ops);
    let signed = open + le32(OP_COMMIT) + le64(seq);
    let full = committed_bytes(seq, open);
    let buf = full + rest;
    assert(head.len() == 16);
    assert(buf.subrange(0, 4) == journal_magic()) by {
        assert(journal_magic().subrange(0, 4) =~= journal_magic());
    }
    assert(buf.subrange(4, 8) == le32(OP_BEGIN));
    assert(buf.subrange(8, 16) == le64(seq));
    let c = open.len() as int;
    assert(buf.subrange(16, c) =~= ops_bytes(ops));
    assert(buf.subrange(c, c + 4) == le32(OP_COMMIT));
    assert(buf.subrange(c + 4, c + 12) == le64(seq));
    assert(buf.subrange(c + 12, c + 16) == le32(crc32_of(signed)));
    assert(buf.subrange(0, c + 12) =~= signed);
    lemma_ops_found(buf, 0, seq, 16, ops);
}

/// A transaction is found wherever it stands in the journal.
pub proof fn lemma_tx_found(buf: Seq<u8>, at: int, seq: u64, ops: Seq<JournalOp>, committed: u64)
    requires
        0 < seq <= committed,
        0 <= at,
        forall|i: int| 0 <= i < ops.len() ==> op_good(#[trigger] ops[i]),
        ({
            let full = committed_bytes(seq, begin_bytes(seq) + ops_bytes(ops));
            &&& at + full.len() <= buf.len()
            &&& buf.subrange(at, at + full.len()) == full
        }),
    ensures
        tx_at(buf, at, committed) == Some(
            (ops, at + committed_bytes(seq, begin_bytes(seq) + ops_bytes(ops)).len()),
        ),
{
    broadcast use {lemma_concat_front, lemma_concat_field};

    lemma_le();
    let head = begin_bytes(seq);
    let open = head + ops_bytes(ops);
    let signed = open + le32(OP_COMMIT) + le64(seq);
    let full = committed_bytes(seq, open);
    let c = open.len() as int;
    assert(head.len() == 16);
    assert(full.len() == c + 16);
    assert forall|a: int, b: int| 0 <= a <= b <= full.len() implies #[trigger] buf.subrange(
        at + a,
        at + b,
    ) == full.subrange(a, b) by {
        assert(buf.subrange(at + a, at + b) =~= buf.subrange(at, at + full.len()).subrange(a, b));
    }
    assert(full.subrange(0, 4) == journal_magic()) by {
        assert(journal_magic().subrange(0, 4) =~= journal_magic());
    }
    assert(full.subrange(4, 8) == le32(OP_BEGIN));
    assert(full.subrange(8, 16) == le64(seq));
    assert(full.subrange(16, c) =~= ops_bytes(ops));
    assert(full.subrange(c, c + 4) == le32(OP_COMMIT));
    assert(full.subrange(c + 4, c + 12) == le64(seq));
    assert(full.subrange(c + 12, c + 16) == le32(crc32_of(signed)));
    assert(full.subrange(0, c + 12) =~= signed);
    assert(buf.subrange(at + 0, at + 4) == journal_magic());
    assert(buf.subrange(at + 4, at + 8) == le32(OP_BEGIN));
    assert(buf.subrange(at + 8, at + 16) == le64(seq));
    assert(buf.subrange(at + 16, at + c) == ops_bytes(ops));
    assert(buf.subrange(at + c, at + (c + 4)) == le32(OP_COMMIT));
    assert(buf.subrange(at + (c + 4), at + (c + 12)) == le64(seq));
    assert(buf.subrange(at + (c + 12), at + (c + 16)) == le32(crc32_of(signed)));
    assert(buf.subrange(at + 0, at + (c + 12)) == signed);
    lemma_ops_found(buf, at, seq, at + 16, ops);
}

/// A commit record ends in the checksum of its transaction.
proof fn lemma_signed(buf: Seq<u8>, begin: int, seq: u64, off: int)
    requires
        0 <= begin <= off,
    ensures
        ops_at(buf, begin, seq, off) matches Some((_, end)) ==> {
            &&& off + 16 <= end <= buf.len()
            &&& u32_at(buf, end - 4) == crc32_of(buf.subrange(begin, end - 4))
        },
    decreases buf.len() - off,
{
    if !(off < 0 || off + 16 > buf.len()) && (u32_at(buf, off) == OP_INODE || u32_at(buf, off)
        == OP_BLOCK) {
        let n = u32_at(buf, off + 12);
        if off + 16 + n <= buf.len() {
            lemma_signed(buf, begin, seq, off + 16 + n);
        }
    }
}

/// Byte `k` tells, of one of the records from `off` on, what it is, or how long.
pub open spec fn frames(buf: Seq<u8>, off: int, k: int) -> bool
    decreases buf.len() - off,
{
    if off < 0 || off + 16 > buf.len() {
        false
    } else if u32_at(buf, off) == OP_INODE || u32_at(buf, off) == OP_BLOCK {
        ||| off <= k < off + 4
        ||| off + 12 <= k < off + 16
        ||| off + 16 + u32_at(buf, off + 12) <= buf.len() && frames(
            buf,
            off + 16 + u32_at(buf, off + 12),
            k,
        )
    } else {
        off <= k < off + 4
    }
}

/// A changed byte that leaves the records where they are leaves no good commit record.
proof fn lemma_damaged(buf: Seq<u8>, begin: int, seq: u64, new_seq: u64, off: int, k: int, x: u8)
    requires
        0 <= begin <= off,
        ops_at(buf, begin, seq, off) matches Some((_, end)) && begin <= k < end,
        x != buf[k],
        !frames(buf, off, k),
    ensures
        ops_at(buf.update(k, x), begin, new_seq, off) is None,
    decreases buf.len() - off,
{
    let new = buf.update(k, x);
    lemma_signed(buf, begin, seq, off);
    assert(new.subrange(off, off + 4) =~= buf.subrange(off, off + 4));
    if u32_at(buf, off) == OP_INODE || u32_at(buf, off) == OP_BLOCK {
        let n = u32_at(buf, off + 12);
        assert(new.subrange(off + 12, off + 16) =~= buf.subrange(off + 12, off + 16));
        lemma_damaged(buf, begin, seq, new_seq, off + 16 + n, k, x);
    } else {
        let end = off + 16;
        let a = buf.subrange(begin, end);
        let b = new.subrange(begin, end);
        let n = end - 4 - begin;
        assert(b =~= a.update(k - begin, x));
        assert(a.subrange(0, n) =~= buf.subrange(begin, end - 4));
        assert(a.subrange(n, n + 4) =~= buf.subrange(end - 4, end));
        assert(b.subrange(0, n) =~= new.subrange(begin, end - 4));
        assert(b.subrange(n, n + 4) =~= new.subrange(end - 4, end));
        changed_byte_is_noticed(a, n, k - begin, x);
    }
}

/// Once any one byte of a committed transaction has changed, no committed transaction takes up its
/// place; and none at all stands there where the byte is not one that tells what a record is or how
/// long, such as a byte of the contents or of the checksum.
pub proof fn journal_damage_is_noticed(buf: Seq<u8>, off: int, committed: u64, k: int, x: u8)
    requires
        tx_at(buf, off, committed) is Some,
        off <= k < (tx_at(buf, off, committed)->0).1,
        x != buf[k],
    ensures
        tx_at(buf.update(k, x), off, committed) matches Some((_, end)) ==> end != (tx_at(
            buf,
            off,
            committed,
        )->0).1,
        !frames(buf, off + 16, k) ==> tx_at(buf.update(k, x), off, committed) is None,
{
    let end = (tx_at(buf, off, committed)->0).1;
    let new = buf.update(k, x);
    lemma_signed(buf, off, u64_at(buf, off + 8), off + 16);
    lemma_signed(new, off, u64_at(new, off + 8), off + 16);
    let a = buf.subrange(off, end);
    let b = new.subrange(off, end);
    let n = end - 4 - off;
    assert(b =~= a.update(k - off, x));
    assert(a.subrange(0, n) =~= buf.subrange(off, end - 4));
    assert(a.subrange(n, n + 4) =~= buf.subrange(end - 4, end));
    assert(b.subrange(0, n) =~= new.subrange(off, end - 4));
    assert(b.subrange(n, n + 4) =~= new.subrange(end - 4, end));
    changed_byte_is_noticed(a, n, k - off, x);
    if !frames(buf, off + 16, k) {
        lemma_damaged(buf, off, u64_at(buf, off + 8), u64_at(new, off + 8), off + 16, k, x);
    }
}

/// The journal of an image holds one committed transaction that was not written to its place yet.
pub open spec fn holds_tx(image: Seq<u8>, sb: SuperView, seq: u64, ops: Seq<JournalOp>) -> bool {
    let full = committed_bytes(seq, begin_bytes(seq) + ops_bytes(ops));
    &&& 0 < seq <= sb.journal_committed
    &&& forall|i: int| 0 <= i < ops.len() ==> op_good(#[trigger] ops[i])
    &&& sb.journal_tail + full.len() == sb.journal_head
    &&& sb.journal_head <= sb.journal_blocks * 4096
    &&& (1 + sb.journal_blocks) * 4096 <= image.len()
    &&& image.subrange(4096 + sb.journal_tail, 4096 + sb.journal_head) == full
}

/// A mount finds a committed transaction, with its operations and no others; and once a byte of it
/// has changed that does not tell what a record is or how long, it finds none.
pub proof fn committed_is_found(
    image: Seq<u8>,
    sb: SuperView,
    seq: u64,
    ops: Seq<JournalOp>,
    k: int,
    x: u8,
)
    requires
        holds_tx(image, sb, seq, ops),
        sb.journal_tail <= k < sb.journal_head,
        x != image[4096 + k],
    ensures
        found_txs(image, sb) == seq![ops],
        !frames(journal_used(image, sb), sb.journal_tail + 16, k) ==> found_txs(
            image.update(4096 + k, x),
            sb,
        ).len() == 0,
{
    let full = committed_bytes(seq, begin_bytes(seq) + ops_bytes(ops));
    let tail = sb.journal_tail as int;
    let head = sb.journal_head as int;
    let buf = journal_used(image, sb);
    lemma_le();
    assert(buf.subrange(tail, tail + full.len()) =~= image.subrange(4096 + tail, 4096 + head));
    lemma_tx_found(buf, tail, seq, ops, sb.journal_committed);
    assert(txs_at(buf, head, sb.journal_committed) =~= Seq::<Seq<JournalOp>>::empty());
    assert(found_txs(image, sb) =~= seq![ops]);
    let new = journal_used(image.update(4096 + k, x), sb);
    assert(new =~= buf.update(k, x));
    journal_damage_is_noticed(buf, tail, sb.journal_committed, k, x);
}

/// A committed block is redone: after a replay it holds what was recorded, and every other block is
/// what it was. Once a byte of what was recorded, or of the checksum, has changed, the replay does
/// nothing.
pub proof fn committed_block_is_redone(
    image: Seq<u8>,
    sb: SuperView,
    seq: u64,
    b: u64,
    d: Seq<u8>,
    k: int,
    x: u8,
)
    requires
        d.len() == 4096,
        holds_tx(image, sb, seq, seq![JournalOp { kind: OP_BLOCK, key: b, data: d }]),
        sb.journal_tail + 32 <= k < sb.journal_tail + 32 + 4096 || sb.journal_head - 4 <= k
            < sb.journal_head,
        x != image[4096 + k],
    ensures
        ({
            let now = txs_applied(image, sb.table, found_txs(image, sb));
            &&& found_txs(image, sb).len() == 1
            &&& image_block(now, b as int) == d
            &&& forall|c: int|
                c >= 0 && c != b ==> #[trigger] image_block(now, c) == image_block(image, c)
            &&& found_txs(image.update(4096 + k, x), sb).len() == 0
        }),
{
    let op = JournalOp { kind: OP_BLOCK, key: b, data: d };
    let ops = seq![op];
    let tail = sb.journal_tail as int;
    let head = sb.journal_head as int;
    let buf = journal_used(image, sb);
    let full = committed_bytes(seq, begin_bytes(seq) + ops_bytes(ops));
    lemma_le();
    reveal_with_fuel(ops_bytes, 2);
    assert(ops.drop_last() =~= Seq::<JournalOp>::empty());
    assert(ops_bytes(ops) =~= op_bytes(op));
    assert(full.len() == 4096 + 48);
    assert(op_good(ops[0]));
    assert(!frames(buf, tail + 16, k)) by {
        assert(buf.subrange(tail, tail + 4096 + 48) =~= full) by {
            assert(image.subrange(4096 + tail, 4096 + head) == full);
        }
        lemma_block_frames(buf, tail, seq, op);
        reveal_with_fuel(frames, 3);
    }
    committed_is_found(image, sb, seq, ops, k, x);
    let found = found_txs(image, sb);
    assert(found.drop_last() =~= Seq::<Seq<JournalOp>>::empty());
    assert(found.last() == ops);
    reveal_with_fuel(txs_applied, 2);
    reveal_with_fuel(ops_applied, 2);
    let now = txs_applied(image, sb.table, found);
    assert(ops_applied(image, sb.table, ops.drop_last()) == image);
    assert(now == block_written(image, b as int, d));
    assert(image_block(now, b as int) =~= d);
    assert forall|c: int| c >= 0 && c != b implies #[trigger] image_block(now, c) == image_block(
        image,
        c,
    ) by {
        assert(image_block(now, c) =~= image_block(image, c));
    }
}

/// The records of a transaction of one operation.
proof fn lemma_block_frames(buf: Seq<u8>, at: int, seq: u64, op: JournalOp)
    requires
        op.data.len() == 4096,
        0 <= at,
        at + 4096 + 48 <= buf.len(),
        buf.subrange(at, at + 4096 + 48) == committed_bytes(seq, begin_bytes(seq) + op_bytes(op)),
    ensures
        u32_at(buf, at + 16) == op.kind,
        u32_at(buf, at + 28) == 4096,
        u32_at(buf, at + 32 + 4096) == OP_COMMIT,
{
    broadcast use {lemma_concat_front, lemma_concat_field};

    lemma_le();
    lemma_op_fields(op);
    let open = begin_bytes(seq) + op_bytes(op);
    let full = committed_bytes(seq, open);
    let o = op_bytes(op);
    assert(open.len() == 32 + 4096);
    assert(buf.subrange(at + 16, at + 20) =~= full.subrange(16, 20));
    assert(full.subrange(16, 20) =~= o.subrange(0, 4));
    assert(buf.subrange(at + 28, at + 32) =~= full.subrange(28, 32));
    assert(full.subrange(28, 32) =~= o.subrange(12, 16));
    let c = open.len() as int;
    assert(buf.subrange(at + c, at + c + 4) =~= full.subrange(c, c + 4));
    assert(full.subrange(c, c + 4) == le32(OP_COMMIT));
}

} // verus!
