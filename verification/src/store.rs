//! The image: the contents of the host file, with grow and shrink.
//!
//! An [`Image`] mirrors the host file in memory and logs every operation on it as a [`HostOp`],
//! in order. Performed one after the other on the host file that the image was made from, the
//! logged operations bring that file to the contents of the image.

use vstd::prelude::*;

use crate::bytes::{copy_bytes, copy_into, padded, splice, zeros};
use crate::error::{einval, eio, Result, EINVAL, EIO};

verus! {

/// An operation on the host file.
#[derive(Debug, Clone)]
pub enum HostOp {
    /// Set the length; new bytes are zero.
    SetLen(u64),
    /// Write `data` at `offset`.
    Write { offset: u64, data: Vec<u8> },
    /// Flush the data to the disk.
    SyncData,
    /// Flush data and metadata to the disk.
    SyncAll,
}

/// `s` cut or filled up with zeros to length `n`.
pub open spec fn resized(s: Seq<u8>, n: nat) -> Seq<u8> {
    if n <= s.len() {
        s.take(n as int)
    } else {
        padded(s, n)
    }
}

/// The contents of the host file after one operation.
pub open spec fn after_op(s: Seq<u8>, op: HostOp) -> Seq<u8> {
    match op {
        HostOp::SetLen(n) => resized(s, n as nat),
        HostOp::Write { offset, data } => splice(s, offset as int, data@),
        HostOp::SyncData => s,
        HostOp::SyncAll => s,
    }
}

/// The contents of the host file after a list of operations.
pub open spec fn after_ops(s: Seq<u8>, ops: Seq<HostOp>) -> Seq<u8>
    decreases ops.len(),
{
    if ops.len() == 0 {
        s
    } else {
        after_op(after_ops(s, ops.drop_last()), ops.last())
    }
}

/// The most blocks that an image may have, by the address space of the machine.
pub open spec fn max_blocks() -> int {
    if usize::MAX <= 0xffff_ffff {
        0xf_fe00
    } else {
        0x1000_0000_0000
    }
}

/// The most blocks that an image may have.
pub fn block_limit() -> (n: u64)
    ensures
        n == max_blocks(),
        n * 4096 <= usize::MAX,
        n * 4096 <= 0x100_0000_0000_0000,
{
    if usize::MAX as u64 <= 0xffff_ffff {
        0xf_fe00
    } else {
        0x1000_0000_0000
    }
}

/// `n`, rounded up to a whole MiB.
pub open spec fn grown_len(n: int) -> int {
    (n + 0xf_ffff) / 0x10_0000 * 0x10_0000
}

/// Block `b` of an image; what lies behind the end is zero.
pub open spec fn image_block(s: Seq<u8>, b: int) -> Seq<u8> {
    Seq::new(4096, |i: int| if b * 4096 + i < s.len() { s[b * 4096 + i] } else { 0u8 })
}

/// An image after block `b` was overwritten; it grows where it ends too early.
pub open spec fn block_written(s: Seq<u8>, b: int, data: Seq<u8>) -> Seq<u8> {
    splice(
        if (b + 1) * 4096 <= s.len() {
            s
        } else {
            padded(s, grown_len((b + 1) * 4096) as nat)
        },
        b * 4096,
        data,
    )
}

/// The host file's contents, as far as the file system knows it.
pub struct Image {
    /// The contents.
    pub data: Vec<u8>,
    /// The operations that the host file has still to see.
    pub log: Vec<HostOp>,
    /// The contents of the host file before those operations.
    pub base: Ghost<Seq<u8>>,
}

impl View for Image {
    type V = Seq<u8>;

    open spec fn view(&self) -> Seq<u8> {
        self.data@
    }
}

impl Image {
    /// The logged operations lead from the host file to the contents.
    pub open spec fn wf(&self) -> bool {
        &&& after_ops(self.base@, self.log@) == self@
        &&& self@.len() <= max_blocks() * 4096
    }

    /// A new image of `initial_len` zeros.
    pub fn create(initial_len: u64) -> (i: Self)
        requires
            initial_len <= max_blocks() * 4096,
        ensures
            i.wf(),
            i@ == zeros(initial_len as nat),
            i.base@ == Seq::<u8>::empty(),
            i.log@ == seq![HostOp::SetLen(initial_len)],
    {
        let limit = block_limit();
        let data = crate::bytes::zero_vec(initial_len as usize);
        let mut log: Vec<HostOp> = Vec::new();
        log.push(HostOp::SetLen(initial_len));
        let i = Self { data, log, base: Ghost(Seq::empty()) };
        assert(i.log@ =~= seq![HostOp::SetLen(initial_len)]);
        assert(i.log@.drop_last() =~= Seq::<HostOp>::empty());
        assert(resized(Seq::<u8>::empty(), initial_len as nat) =~= i@) by {
            assert(padded(Seq::<u8>::empty(), initial_len as nat) =~= zeros(initial_len as nat));
        }
        assert(after_ops(i.base@, i.log@.drop_last()) == Seq::<u8>::empty());
        i
    }

    /// The image that a host file with these contents holds.
    pub fn open(data: Vec<u8>) -> (i: Self)
        requires
            data@.len() <= max_blocks() * 4096,
        ensures
            i.wf(),
            i@ == data@,
            i.base@ == data@,
            i.log@ == Seq::<HostOp>::empty(),
    {
        Self { base: Ghost(data@), data, log: Vec::new() }
    }

    pub fn len(&self) -> (n: u64)
        ensures
            n == self@.len(),
    {
        self.data.len() as u64
    }

    /// Hands out the operations that the host file has still to see.
    pub fn take_ops(&mut self) -> (ops: Vec<HostOp>)
        requires
            old(self).wf(),
        ensures
            final(self).wf(),
            final(self)@ == old(self)@,
            ops@ == old(self).log@,
            after_ops(old(self).base@, ops@) == final(self)@,
            final(self).log@ == Seq::<HostOp>::empty(),
            final(self).base@ == final(self)@,
    {
        let mut ops: Vec<HostOp> = Vec::new();
        std::mem::swap(&mut ops, &mut self.log);
        self.base = Ghost(self.data@);
        ops
    }

    fn note(&mut self, op: HostOp)
        ensures
            extends(*old(self), *final(self)),
            final(self).data == old(self).data,
            final(self).base == old(self).base,
            final(self).log@ == old(self).log@.push(op),
            after_ops(final(self).base@, final(self).log@) == after_op(
                after_ops(old(self).base@, old(self).log@),
                op,
            ),
    {
        self.log.push(op);
        assert(self.log@.drop_last() =~= old(self).log@);
        reveal(extends);
    }

    /// Grows the image to at least `new_len` bytes, in steps of 1 MiB.
    pub fn grow_to(&mut self, new_len: u64)
        requires
            old(self).wf(),
            new_len <= max_blocks() * 4096,
        ensures
            extends(*old(self), *final(self)),
            final(self).wf(),
            final(self)@ == if new_len <= old(self)@.len() {
                old(self)@
            } else {
                padded(old(self)@, grown_len(new_len as int) as nat)
            },
            final(self)@.len() >= new_len,
            final(self).log@ == if new_len <= old(self)@.len() {
                old(self).log@
            } else {
                old(self).log@.push(HostOp::SetLen(grown_len(new_len as int) as u64))
            },
    {
        reveal(extends);

        if new_len <= self.len() {
            return;
        }
        let limit = block_limit();
        let aligned: u64 = (new_len + 0xf_ffff) / 0x10_0000 * 0x10_0000;
        assert(aligned <= max_blocks() * 4096);
        crate::bytes::pad_to(&mut self.data, aligned as usize);
        self.note(HostOp::SetLen(aligned));
    }

    /// Cuts the image down to `new_len` bytes.
    pub fn shrink_to(&mut self, new_len: u64)
        requires
            old(self).wf(),
        ensures
            extends(*old(self), *final(self)),
            final(self).wf(),
            final(self)@ == if new_len >= old(self)@.len() {
                old(self)@
            } else {
                old(self)@.take(new_len as int)
            },
            final(self).log@ == if new_len >= old(self)@.len() {
                old(self).log@
            } else {
                old(self).log@.push(HostOp::SetLen(new_len))
            },
    {
        reveal(extends);

        if new_len >= self.len() {
            return;
        }
        self.data.truncate(new_len as usize);
        assert(self.data@ =~= old(self)@.take(new_len as int));
        self.note(HostOp::SetLen(new_len));
    }

    /// Reads `buf.len()` bytes from `offset` on; fails with `EIO` behind the end.
    pub fn read_exact_at(&self, buf: &mut [u8], offset: u64) -> (r: Result<()>)
        ensures
            final(buf)@.len() == old(buf)@.len(),
            match r {
                Ok(_) => offset + old(buf)@.len() <= self@.len() && final(buf)@ == self@.subrange(
                    offset as int,
                    offset + old(buf)@.len(),
                ),
                Err(e) => offset + old(buf)@.len() > self@.len() && final(buf)@ == old(buf)@
                    && e.is(EIO),
            },
    {
        let n: usize = buf.len();
        let total: usize = self.data.len();
        if offset > total as u64 || n > total - offset as usize {
            return Err(eio("read past end of image"));
        }
        let off: usize = offset as usize;
        copy_into(buf, 0, vstd::slice::slice_subrange(self.data.as_slice(), off, off + n));
        assert(buf@ =~= self@.subrange(off as int, off + n));
        Ok(())
    }

    /// Writes `buf` at `offset`, after growing the image where it ends too early.
    pub fn write_all_at(&mut self, buf: &[u8], offset: u64)
        requires
            old(self).wf(),
            offset + buf@.len() <= max_blocks() * 4096,
        ensures
            extends(*old(self), *final(self)),
            logs_write(*old(self), *final(self), offset as int, buf@),
            final(self).wf(),
            final(self)@ == splice(
                if offset + buf@.len() <= old(self)@.len() {
                    old(self)@
                } else {
                    padded(old(self)@, grown_len(offset + buf@.len()) as nat)
                },
                offset as int,
                buf@,
            ),
    {
        reveal(extends);

        let limit = block_limit();
        let end: u64 = offset + buf.len() as u64;
        if end > self.len() {
            self.grow_to(end);
        }
        copy_into(self.data.as_mut_slice(), offset as usize, buf);
        let data = copy_bytes(buf);
        self.note(HostOp::Write { offset, data });
    }

    /// Reads block `block`; fails with `EINVAL` for a buffer of the wrong size, and with `EIO`
    /// behind the end.
    pub fn read_block(&self, block: u64, buf: &mut [u8]) -> (r: Result<()>)
        requires
            block * 4096 <= u64::MAX,
        ensures
            final(buf)@.len() == old(buf)@.len(),
            match r {
                Ok(_) => old(buf)@.len() == 4096 && (block + 1) * 4096 <= self@.len() && final(buf)@ == image_block(self@, block as int),
                Err(e) => final(buf)@ == old(buf)@ && if old(buf)@.len() != 4096 {
                    e.is(EINVAL)
                } else {
                    (block + 1) * 4096 > self@.len() && e.is(EIO)
                },
            },
    {
        if buf.len() != 4096 {
            return Err(einval("block buffer size"));
        }
        let r = self.read_exact_at(buf, block * 4096);
        assert(r is Ok ==> buf@ =~= image_block(self@, block as int));
        r
    }

    /// Writes block `block`; fails with `EINVAL` for a buffer of the wrong size.
    pub fn write_block(&mut self, block: u64, buf: &[u8]) -> (r: Result<()>)
        requires
            old(self).wf(),
            block < max_blocks(),
        ensures
            extends(*old(self), *final(self)),
            final(self).wf(),
            match r {
                Ok(_) => buf@.len() == 4096 && logs_write(
                    *old(self),
                    *final(self),
                    block * 4096,
                    buf@,
                ) && final(self)@ == block_written(
                    old(self)@,
                    block as int,
                    buf@,
                ) && final(self)@.len() >= old(self)@.len() && final(self)@.len() >= (block + 1)
                    * 4096 && image_block(final(self)@, block as int) == buf@
                    && forall|b: int|
                    b >= 0 && b != block ==> #[trigger] image_block(final(self)@, b)
                        == image_block(old(self)@, b),
                Err(e) => buf@.len() != 4096 && e.is(EINVAL) && *final(self) == *old(self),
            },
    {
        reveal(extends);

        if buf.len() != 4096 {
            return Err(einval("block buffer size"));
        }
        let limit = block_limit();
        self.write_all_at(buf, block * 4096);
        assert(image_block(self@, block as int) =~= buf@);
        assert forall|b: int| b >= 0 && b != block implies #[trigger] image_block(self@, b)
            == image_block(old(self)@, b) by {
            assert(image_block(self@, b) =~= image_block(old(self)@, b));
        }
        Ok(())
    }

    pub fn sync(&mut self)
        requires
            old(self).wf(),
        ensures
            extends(*old(self), *final(self)),
            final(self).wf(),
            final(self)@ == old(self)@,
            final(self).log@ == old(self).log@.push(HostOp::SyncAll),
    {
        self.note(HostOp::SyncAll);
    }

    pub fn sync_data(&mut self)
        requires
            old(self).wf(),
        ensures
            extends(*old(self), *final(self)),
            final(self).wf(),
            final(self)@ == old(self)@,
            final(self).log@ == old(self).log@.push(HostOp::SyncData),
    {
        self.note(HostOp::SyncData);
    }
}

/// Image `b` is image `a` after a write of `data` at byte `offset`, as far as the host file goes: it
/// is made longer where it ends too early, and then written to.
pub open spec fn logs_write(a: Image, b: Image, offset: int, data: Seq<u8>) -> bool {
    let n = a.log@.len() as int;
    let end = offset + data.len();
    &&& extends(a, b)
    &&& b.log@.len() == n + if end > a@.len() {
        2int
    } else {
        1
    }
    &&& end > a@.len() ==> b.log@[n] == HostOp::SetLen(grown_len(end) as u64)
    &&& b.log@.last() matches HostOp::Write { offset: o, data: d } && o == offset && d@ == data
}

/// Image `b` has seen all that image `a` has, in the same order, and maybe more since then.
#[verifier::opaque]
pub open spec fn extends(a: Image, b: Image) -> bool {
    &&& b.base == a.base
    &&& a.log@.len() <= b.log@.len()
    &&& forall|i: int| 0 <= i < a.log@.len() ==> #[trigger] b.log@[i] == a.log@[i]
}

pub broadcast proof fn lemma_extends_self(a: Image)
    ensures
        #[trigger] extends(a, a),
{
    reveal(extends);
}

pub broadcast proof fn lemma_extends(a: Image, b: Image, c: Image)
    requires
        #[trigger] extends(a, b),
        #[trigger] extends(b, c),
    ensures
        extends(a, c),
{
    reveal(extends);
    assert forall|i: int| 0 <= i < a.log@.len() implies #[trigger] c.log@[i] == a.log@[i] by {
        assert(b.log@[i] == a.log@[i]);
    }
}

pub broadcast group group_extends {
    lemma_extends_self,
    lemma_extends,
}

/// An earlier state of an image is what the host file holds once it has seen some of the operations
/// that lead to a later one.
pub proof fn earlier_image_is_passed(a: Image, b: Image)
    requires
        extends(a, b),
        a.wf(),
    ensures
        exists|k: int|
            0 <= k <= b.log@.len() && #[trigger] after_ops(b.base@, b.log@.take(k)) == a@,
{
    reveal(extends);
    let k = a.log@.len() as int;
    assert(b.log@.take(k) =~= a.log@);
    assert(after_ops(b.base@, b.log@.take(k)) == a@);
}

/// Growing an image does not change any of its blocks.
pub proof fn lemma_grow_blocks(s: Seq<u8>, n: nat)
    requires
        s.len() <= n,
    ensures
        forall|b: int| b >= 0 ==> #[trigger] image_block(padded(s, n), b) == image_block(s, b),
{
    assert forall|b: int| b >= 0 implies #[trigger] image_block(padded(s, n), b) == image_block(
        s,
        b,
    ) by {
        assert(image_block(padded(s, n), b) =~= image_block(s, b));
    }
}

} // verus!
