//! The free-space map in its own blocks of the image.

use vstd::prelude::*;

use crate::allocator::{is_best_fit, none_fits, taken, Allocator};
use crate::bytes::{
    append, bytes_equal, copy_into, get_u32, le32, lemma_concat_field, lemma_concat_front, lemma_le,
    pad_to, padded, put_u32_vec, u32_at, zero_vec, zeros,
};
use crate::error::{eio, Error, Result, EFBIG, EIO, ENOSPC};
use crate::store::{block_limit, extends, image_block, max_blocks, Image};

verus! {

broadcast use crate::store::group_extends;

/// Bytes of the map that a block holds.
pub const MAP_BYTES_PER_BLOCK: usize = 4080;

/// Most free runs that an area can list: its length fields have 32 bits.
pub const MAX_MAP_RUNS: usize = 0xf00_0000;

/// `ALN` and a zero byte
pub open spec fn area_magic() -> Seq<u8> {
    seq![65u8, 76, 78, 0]
}

/// The part of the map that block `i` of the area holds.
pub open spec fn area_part(bytes: Seq<u8>, i: int) -> Seq<u8> {
    if 4080 * i >= bytes.len() {
        Seq::empty()
    } else if 4080 * (i + 1) <= bytes.len() {
        bytes.subrange(4080 * i, 4080 * (i + 1))
    } else {
        bytes.subrange(4080 * i, bytes.len() as int)
    }
}

/// Block `i` of an area of `n` blocks that holds the map `bytes`. The first block starts with a
/// header of 16 bytes.
pub open spec fn area_block(bytes: Seq<u8>, n: int, i: int) -> Seq<u8> {
    if i == 0 {
        padded(
            area_magic() + le32(n as u32) + le32(bytes.len() as u32) + zeros(4) + area_part(
                bytes,
                0,
            ),
            4096,
        )
    } else {
        padded(area_part(bytes, i), 4096)
    }
}

/// Whether a block starts an area.
pub open spec fn is_area_head(block: Seq<u8>) -> bool {
    block.subrange(0, 4) == area_magic()
}

/// Number of blocks of the area that a block starts.
pub open spec fn area_len(block: Seq<u8>) -> int {
    u32_at(block, 4) as int
}

/// Number of bytes of the map in the area that a block starts.
pub open spec fn area_bytes_len(block: Seq<u8>) -> int {
    u32_at(block, 8) as int
}

/// Blocks of an area that are read to get `nbytes` bytes: one more than hold them, where there
/// is one.
pub open spec fn area_reads(n: int, nbytes: int) -> int {
    let k = (nbytes + 4079) / 4080 + 1;
    if n < k {
        n
    } else {
        k
    }
}

/// Whether an area stands at block `start`, and all of it that is read lies in the image.
pub open spec fn is_area(image: Seq<u8>, start: int) -> bool {
    let head = image_block(image, start);
    &&& start != 0
    &&& (start + 1) * 4096 <= image.len()
    &&& is_area_head(head)
    &&& (start + area_reads(area_len(head), area_bytes_len(head))) * 4096 <= image.len()
}

/// The map that the area at block `start` holds.
pub open spec fn area_contents(image: Seq<u8>, start: int) -> Seq<u8> {
    let head = image_block(image, start);
    Seq::new(
        area_bytes_len(head) as nat,
        |p: int|
            if p / 4080 < area_len(head) {
                image_block(image, start + p / 4080)[(if p / 4080 == 0 {
                    16int
                } else {
                    0int
                }) + p % 4080]
            } else {
                0u8
            },
    )
}

/// Whether the `n` blocks from `start` on hold the map `bytes`.
pub open spec fn area_stands(image: Seq<u8>, start: int, n: int, bytes: Seq<u8>) -> bool {
    forall|i: int|
        0 <= i < n ==> #[trigger] image_block(image, start + i) == area_block(bytes, n, i)
}

/// Block for block, what is free after an area of `n` blocks at `start` took the place of one of
/// `old_n` blocks at `existing`.
pub open spec fn area_claimed(
    a0: Allocator,
    a1: Allocator,
    start: int,
    n: int,
    existing: int,
    old_n: int,
) -> bool {
    &&& forall|b: int|
        start <= b < start + n ==> !#[trigger] a1.is_free(b) && (a0.is_free(b) || existing <= b
            < existing + old_n || b >= a0.total_blocks)
    &&& forall|b: int|
        !(start <= b < start + n) && b < a0.total_blocks ==> (#[trigger] a1.is_free(b)
            <==> a0.is_free(b) || existing <= b < existing + old_n)
    &&& forall|b: int|
        a0.total_blocks <= b < a1.total_blocks && !(start <= b < start + n)
            ==> #[trigger] a1.is_free(b)
}

/// The same blocks in two images, but for the `n` blocks from `start` on.
pub open spec fn same_blocks_outside(i0: Seq<u8>, i1: Seq<u8>, start: int, n: int) -> bool {
    forall|b: int|
        b >= 0 && !(start <= b < start + n) ==> #[trigger] image_block(i1, b) == image_block(i0, b)
}

/// Blocks that the area for a map of `nbytes` bytes gets, with some room for the allocation of
/// the area itself.
pub open spec fn area_blocks(nbytes: int) -> int {
    (nbytes + 64 + 4079) / 4080
}

/// The blocks of the area at `existing` that a new area takes the place of.
pub open spec fn old_area(image: Seq<u8>, existing: int) -> int {
    let head = image_block(image, existing);
    if existing != 0 && (existing + 1) * 4096 <= image.len() && is_area_head(head) {
        area_len(head)
    } else {
        0
    }
}

/// Number of blocks of the area at `existing`, or 0 where there is none.
pub fn old_area_len(image: &Image, existing: u64) -> (n: u64)
    ensures
        n == old_area(image@, existing as int),
        n <= u32::MAX,
{
    if existing == 0 || existing >= image.len() / 4096 {
        assert(existing == 0 || (existing + 1) * 4096 > image@.len());
        return 0;
    }
    assert((existing + 1) * 4096 <= image@.len());
    let mut hdr: Vec<u8> = zero_vec(4096);
    let _ = image.read_block(existing, hdr.as_mut_slice());
    let magic: &[u8] = &[65u8, 76, 78, 0];
    assert(magic@ =~= area_magic());
    if bytes_equal(vstd::slice::slice_subrange(hdr.as_slice(), 0, 4), magic) {
        get_u32(hdr.as_slice(), 4) as u64
    } else {
        0
    }
}

/// The bytes of block `i` of an area.
fn make_area_block(bytes: &[u8], n: u64, i: u64) -> (blk: Vec<u8>)
    requires
        bytes@.len() <= usize::MAX - 4096,
        n <= u32::MAX,
        i < n,
    ensures
        blk@ == area_block(bytes@, n as int, i as int),
        blk@.len() == 4096,
{
    proof {
        lemma_le();
    }
    let mut blk: Vec<u8> = Vec::new();
    if i == 0 {
        append(&mut blk, &[65u8, 76, 78, 0]);
        assert(blk@ =~= area_magic());
        put_u32_vec(&mut blk, n as u32);
        put_u32_vec(&mut blk, bytes.len() as u32);
        append(&mut blk, &[0u8, 0, 0, 0]);
        assert(blk@ =~= area_magic() + le32(n as u32) + le32(bytes@.len() as u32) + zeros(4));
    }
    let len: u64 = bytes.len() as u64;
    let src_off: u64 = i * 4080;
    if src_off < len {
        let take: u64 = if len - src_off < 4080 {
            len - src_off
        } else {
            4080
        };
        let from: usize = src_off as usize;
        let to: usize = (src_off + take) as usize;
        append(&mut blk, vstd::slice::slice_subrange(bytes, from, to));
        assert(bytes@.subrange(from as int, to as int) =~= area_part(bytes@, i as int));
        assert(i != 0 ==> blk@ =~= area_part(bytes@, i as int));
    } else {
        assert(i != 0 ==> blk@ =~= area_part(bytes@, i as int));
        assert(i == 0 ==> blk@ =~= blk@ + area_part(bytes@, 0));
    }
    pad_to(&mut blk, 4096);
    blk
}

proof fn lemma_one_taken(a0: Allocator, a1: Allocator)
    requires
        a0.free@.len() == 1,
        a0.free@[0].1 > 1,
        a1.total_blocks == a0.total_blocks,
        exists|k: int| #[trigger]
            is_best_fit(a0.free@, 1, k) && a1.free@ == taken(a0.free@, k, 1),
    ensures
        one_taken(a0, a1),
{
    let k = choose|k: int| #[trigger]
        is_best_fit(a0.free@, 1, k) && a1.free@ == taken(a0.free@, k, 1);
    assert(k == 0);
    assert(a1.free@ =~= seq![((a0.free@[0].0 + 1) as u64, (a0.free@[0].1 - 1) as u64)]);
}

/// The first block of the only free run was taken.
pub open spec fn one_taken(a0: Allocator, a1: Allocator) -> bool {
    &&& a1.total_blocks == a0.total_blocks
    &&& a1.free@ == seq![((a0.free@[0].0 + 1) as u64, (a0.free@[0].1 - 1) as u64)]
}

/// Writes the free-space map into blocks of its own, which take the place of those at
/// `existing`. Returns the first of them.
#[verifier::rlimit(60)]
pub fn write_alloc_blocks(image: &mut Image, alloc: &mut Allocator, existing: u64) -> (r: Result<
    u64,
>)
    requires
        old(alloc).wf(),
        old(image).wf(),
        ({
            let n = old_area(old(image)@, existing as int);
            n > 0 ==> existing >= old(alloc).first_data && existing + n <= old(alloc).total_blocks
                && forall|b: int| existing <= b < existing + n ==> !#[trigger] old(alloc).is_free(b)
        }),
    ensures
        extends(*old(image), *final(image)),
        final(alloc).wf(),
        final(image).wf(),
        final(alloc).first_data == old(alloc).first_data,
        final(alloc).total_blocks >= old(alloc).total_blocks,
        final(alloc).used_end() <= old(alloc).used_end() + 2 * area_blocks(
            24 + 16 * (old(alloc).free@.len() as int + 1),
        ),
        final(image)@.len() >= old(image)@.len(),
        existing == 0 && old(alloc).free@.len() == 1 && old(alloc).free@[0].1 > 1 ==> r is Ok
            && one_taken(*old(alloc), *final(alloc)) && (old(alloc).total_blocks * 4096
            <= old(image)@.len() ==> final(image)@.len() == old(image)@.len()),
        match r {
            Ok(start) => {
                let n: int = area_len(image_block(final(image)@, start as int));
                let old_n = old_area(old(image)@, existing as int);
                &&& old(alloc).free@.len() <= MAX_MAP_RUNS
                &&& 0 < n <= 0x10_0000
                &&& old(alloc).first_data <= start
                &&& start + n <= final(alloc).total_blocks
                &&& 24 + 16 * final(alloc).free@.len() <= n * 4080
                &&& (start + n) * 4096 <= final(image)@.len()
                &&& area_claimed(*old(alloc), *final(alloc), start as int, n, existing as int, old_n)
                &&& area_stands(final(image)@, start as int, n, final(alloc).bytes())
                &&& same_blocks_outside(old(image)@, final(image)@, start as int, n)
            },
            Err(e) => {
                &&& *final(alloc) == *old(alloc)
                &&& *final(image) == *old(image)
                &&& if old(alloc).free@.len() > MAX_MAP_RUNS {
                    e.is(EFBIG)
                } else {
                    &&& e.is(ENOSPC)
                    &&& old(alloc).used_end() + 2 * area_blocks(
                        24 + 16 * (old(alloc).free@.len() as int + 1),
                    ) > max_blocks()
                }
            },
        },
{
    proof {
        lemma_le();
    }
    if alloc.free.len() > MAX_MAP_RUNS {
        return Err(Error::from_errno(EFBIG));
    }
    let limit = block_limit();
    let old_n: u64 = old_area_len(image, existing);
    let mut work = alloc.duplicate();
    assert forall|b: int| #[trigger] work.is_free(b) == alloc.is_free(b) by {}
    if old_n > 0 {
        assert forall|b: int| existing <= b < existing + old_n implies !#[trigger] work.is_free(
            b,
        ) by {
            assert(!alloc.is_free(b));
        }
        work.free(existing, old_n);
    }
    let ghost mid = work;
    assert forall|b: int| #[trigger] mid.is_free(b) <==> old(alloc).is_free(b) || existing <= b
        < existing + old_n by {}
    // An upper bound, so that the allocation of the area itself is reflected in the map.
    let estimate: u64 = 24 + 16 * work.free.len() as u64 + 64;
    let nblocks: u64 = (estimate + 4079) / 4080;
    let start = match work.allocate(image, nblocks) {
        Ok(s) => s,
        Err(e) => {
            assert(nblocks <= area_blocks(24 + 16 * (old(alloc).free@.len() as int + 1)));
            return Err(e);
        },
    };
    proof {
        if existing == 0 && old(alloc).free@.len() == 1 && old(alloc).free@[0].1 > 1 {
            assert(old_n == 0);
            assert(nblocks == 1);
            assert(!none_fits(mid.free@, 1));
            lemma_one_taken(*old(alloc), work);
        }
    }
    let ghost image1 = image@;
    let bytes = work.encode();
    assert(bytes@.len() <= nblocks * 4080);
    let mut i: u64 = 0;
    while i < nblocks
        invariant
            i <= nblocks,
            nblocks <= u32::MAX,
            nblocks > 0,
            image.wf(),
            start + nblocks <= max_blocks(),
            bytes@.len() <= usize::MAX - 4096,
            extends(*old(image), *image),
            image@.len() >= image1.len(),
            (start + nblocks) * 4096 <= image1.len() ==> image@.len() == image1.len(),
            i > 0 ==> image@.len() >= (start + i) * 4096,
            forall|k: int|
                0 <= k < i ==> #[trigger] image_block(image@, start + k) == area_block(
                    bytes@,
                    nblocks as int,
                    k,
                ),
            forall|b: int|
                b >= 0 && !(start <= b < start + i) ==> #[trigger] image_block(image@, b)
                    == image_block(image1, b),
        decreases nblocks - i,
    {
        let blk = make_area_block(bytes.as_slice(), nblocks, i);
        let ghost before = image@;
        let _ = image.write_block(start + i, blk.as_slice());
        assert forall|k: int| 0 <= k < i + 1 implies #[trigger] image_block(image@, start + k)
            == area_block(bytes@, nblocks as int, k) by {
            if k < i {
                assert(image_block(before, start + k) == area_block(bytes@, nblocks as int, k));
            }
        }
        assert forall|b: int| b >= 0 && !(start <= b < start + i + 1) implies #[trigger] image_block(
            image@,
            b,
        ) == image_block(image1, b) by {
            assert(image_block(before, b) == image_block(image1, b));
        }
        i = i + 1;
    }
    proof {
        assert(image_block(image@, start + 0) == area_block(bytes@, nblocks as int, 0));
        lemma_area_head(bytes@, nblocks as int);
        assert(area_stands(image@, start as int, nblocks as int, work.bytes()));
        assert(same_blocks_outside(old(image)@, image@, start as int, nblocks as int));
        lemma_area_claimed(
            *old(alloc),
            mid,
            work,
            start as int,
            nblocks as int,
            existing as int,
            old_n as int,
        );
    }
    *alloc = work;
    Ok(start)
}

proof fn lemma_area_claimed(
    a0: Allocator,
    mid: Allocator,
    a1: Allocator,
    start: int,
    n: int,
    existing: int,
    old_n: int,
)
    requires
        mid.total_blocks == a0.total_blocks,
        forall|b: int| #[trigger]
            mid.is_free(b) <==> a0.is_free(b) || existing <= b < existing + old_n,
        forall|b: int|
            start <= b < start + n ==> (mid.is_free(b) || b >= mid.total_blocks)
                && !#[trigger] a1.is_free(b),
        forall|b: int|
            !(start <= b < start + n) && b < mid.total_blocks ==> (#[trigger] a1.is_free(b)
                <==> mid.is_free(b)),
        forall|b: int|
            mid.total_blocks <= b < a1.total_blocks && !(start <= b < start + n)
                ==> #[trigger] a1.is_free(b),
    ensures
        area_claimed(a0, a1, start, n, existing, old_n),
{
}

/// The header of an area says how many blocks and bytes it has.
pub proof fn lemma_area_head(bytes: Seq<u8>, n: int)
    requires
        0 < n <= u32::MAX,
    ensures
        area_block(bytes, n, 0).len() == 4096,
        is_area_head(area_block(bytes, n, 0)),
        area_len(area_block(bytes, n, 0)) == n,
        bytes.len() <= u32::MAX ==> area_bytes_len(area_block(bytes, n, 0)) == bytes.len(),
{
    broadcast use {lemma_concat_front, lemma_concat_field};

    lemma_le();
    let b = area_block(bytes, n, 0);
    assert(area_part(bytes, 0).len() <= 4080);
    assert(b.subrange(0, 4) == area_magic()) by {
        assert(area_magic().subrange(0, 4) =~= area_magic());
    }
    assert(b.subrange(4, 8) == le32(n as u32));
    assert(b.subrange(8, 12) == le32(bytes.len() as u32));
}

/// A map is read back from the area it is written to.
pub proof fn area_roundtrip(image: Seq<u8>, start: int, n: int, bytes: Seq<u8>)
    requires
        start > 0,
        0 < n <= u32::MAX,
        bytes.len() <= n * 4080,
        bytes.len() <= u32::MAX,
        (start + n) * 4096 <= image.len(),
        area_stands(image, start, n, bytes),
    ensures
        is_area(image, start),
        area_contents(image, start) == bytes,
{
    lemma_le();
    lemma_area_head(bytes, n);
    let head = image_block(image, start + 0);
    assert(head == area_block(bytes, n, 0));
    let got = area_contents(image, start);
    assert forall|p: int| 0 <= p < bytes.len() implies got[p] == bytes[p] by {
        let i = p / 4080;
        let q = p % 4080;
        assert(p == 4080 * i + q && 0 <= q < 4080);
        assert(i < n);
        let blk = image_block(image, start + i);
        assert(blk == area_block(bytes, n, i));
        assert(area_part(bytes, i)[q] == bytes[p]);
        if i == 0 {
            assert(blk[16 + q] == area_part(bytes, 0)[q]);
        } else {
            assert(blk[q] == area_part(bytes, i)[q]);
        }
    }
    assert(got =~= bytes);
}

/// Reads the free-space map from the area at block `start`.
pub fn read_alloc_blocks(image: &Image, start: u64) -> (r: Result<Allocator>)
    requires
        image.wf(),
    ensures
        match r {
            Ok(a) => is_area(image@, start as int) && Allocator::decoded(
                area_contents(image@, start as int),
                a,
            ),
            Err(e) => e.is(EIO) && !(is_area(image@, start as int) && crate::allocator::is_map(
                area_contents(image@, start as int),
            )),
        },
{
    let limit = block_limit();
    if start == 0 {
        return Err(eio("missing allocator"));
    }
    if start >= limit {
        return Err(eio("read past end of image"));
    }
    let mut hdr: Vec<u8> = zero_vec(4096);
    match image.read_block(start, hdr.as_mut_slice()) {
        Ok(_) => {},
        Err(e) => return Err(e),
    }
    let magic: &[u8] = &[65u8, 76, 78, 0];
    assert(magic@ =~= area_magic());
    if !bytes_equal(vstd::slice::slice_subrange(hdr.as_slice(), 0, 4), magic) {
        return Err(eio("bad allocator header"));
    }
    let nblocks: u64 = get_u32(hdr.as_slice(), 4) as u64;
    let nbytes: usize = get_u32(hdr.as_slice(), 8) as usize;
    let mut bytes: Vec<u8> = zero_vec(nbytes);
    let ghost head = hdr@;
    let ghost want = area_contents(image@, start as int);
    let mut i: u64 = 0;
    let mut done: bool = false;
    assert(bytes@ =~= Seq::new(nbytes as nat, |p: int| if p < i * 4080 { want[p] } else { 0u8 }));
    while i < nblocks && !done
        invariant
            i <= nblocks,
            nblocks == area_len(head),
            nbytes == area_bytes_len(head),
            nblocks <= u32::MAX,
            nbytes <= u32::MAX,
            head == image_block(image@, start as int),
            is_area_head(head),
            image.wf(),
            0 < start < max_blocks(),
            limit == max_blocks(),
            limit * 4096 <= 0x100_0000_0000_0000,
            (start + 1) * 4096 <= image@.len(),
            want == area_contents(image@, start as int),
            bytes@.len() == nbytes,
            bytes@ == Seq::new(nbytes as nat, |p: int| if p < i * 4080 { want[p] } else { 0u8 }),
            !done ==> i * 4080 < nbytes + 4080,
            !done ==> (start + i) * 4096 <= image@.len(),
            done ==> i * 4080 >= nbytes && (start + area_reads(nblocks as int, nbytes as int))
                * 4096 <= image@.len(),
        decreases nblocks - i + (if done { 0int } else { 1int }),
    {
        let mut blk: Vec<u8> = zero_vec(4096);
        match image.read_block(start + i, blk.as_mut_slice()) {
            Ok(_) => {},
            Err(e) => {
                assert(area_reads(nblocks as int, nbytes as int) >= i + 1);
                return Err(e);
            },
        }
        let src_off: u64 = i * 4080;
        if src_off >= nbytes as u64 {
            done = true;
        } else {
            let take: u64 = if nbytes as u64 - src_off < 4080 {
                nbytes as u64 - src_off
            } else {
                4080
            };
            let src: usize = if i == 0 {
                16
            } else {
                0
            };
            let ghost before = bytes@;
            copy_into(
                bytes.as_mut_slice(),
                src_off as usize,
                vstd::slice::slice_subrange(blk.as_slice(), src, src + take as usize),
            );
            assert forall|p: int| 0 <= p < nbytes implies #[trigger] bytes@[p] == (if p < (i + 1)
                * 4080 {
                want[p]
            } else {
                0u8
            }) by {
                if i * 4080 <= p < (i + 1) * 4080 {
                    assert(p / 4080 == i as int && p % 4080 == p - i * 4080);
                } else if p < i * 4080 {
                    assert(before[p] == want[p]);
                }
            }
            assert(bytes@ =~= Seq::new(
                nbytes as nat,
                |p: int| if p < (i + 1) * 4080 { want[p] } else { 0u8 },
            ));
            i = i + 1;
        }
    }
    assert((start + area_reads(nblocks as int, nbytes as int)) * 4096 <= image@.len());
    assert forall|p: int| 0 <= p < nbytes implies bytes@[p] == want[p] by {
        if p >= i * 4080 {
            assert(p / 4080 >= nblocks);
        }
    }
    assert(bytes@ =~= want);
    Allocator::decode(bytes.as_slice())
}

} // verus!
