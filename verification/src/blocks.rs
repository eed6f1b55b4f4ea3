//! File data block by block: reading, writing and cutting extent lists.

use vstd::prelude::*;

use crate::bytes::{append, copy_into, splice, zero_vec, zeros};
use crate::compress::Compression;
use crate::error::{Result, EIO, ENOSPC};
use crate::extents::{
    add_extent, at_place, ext_claimed, ext_wf, exts_claimed, exts_readable, exts_wf, find_ext,
    lemma_claimed_at, lemma_find, lemma_find_some, lemma_packed_same, lemma_ublock_same, loc_in,
    locate, lookup, maps_all, maps_only, no_new_packed, owns_only, packed_raw, punch, record_data,
    record_size_ok, stays_tight, ublock, ubyte, Loc, MAX_FILE_BLOCKS,
};
use crate::format::Extent;
use crate::records::{
    lemma_claims_kept, lemma_disjoint_from, lemma_record_start, load_record, patched_byte,
    store_record,
};
use crate::store::{block_limit, max_blocks};
use crate::types::MAX_FILE_SIZE;
use crate::volume::{frame, lemma_frame_trans, same_blocks, unchanged, wrote, Owner, Owners, Volume};

verus! {

/// No extent is compressed.
pub open spec fn all_raw(s: Seq<Extent>) -> bool {
    forall|i: int| 0 <= i < s.len() ==> (#[trigger] s[i]).compress == 0
}

/// A file's extents are in order and own their blocks.
pub open spec fn file_ok(v: Volume, s: Seq<Extent>, ino: u64, rb: int) -> bool {
    &&& v.wf()
    &&& record_size_ok(rb)
    &&& exts_wf(s, rb)
    &&& exts_claimed(v.owner@, ino, s)
}

/// Byte `p` after `src` was written at `off`.
pub open spec fn written_byte(v: Volume, s: Seq<Extent>, p: int, off: int, src: Seq<u8>) -> u8 {
    if off <= p < off + src.len() {
        src[p - off]
    } else {
        ubyte(v, s, p)
    }
}

/// The same bytes outside the `n` bytes from `off` on.
pub open spec fn same_outside(
    v0: Volume,
    s0: Seq<Extent>,
    v1: Volume,
    s1: Seq<Extent>,
    off: int,
    n: int,
) -> bool {
    forall|p: int|
        p >= 0 && !(off <= p < off + n) ==> #[trigger] ubyte(v1, s1, p) == ubyte(v0, s0, p)
}

/// A block write leaves the frame of its inode.
pub proof fn lemma_wrote_frame(v0: Volume, v1: Volume, x: int, ino: u64)
    requires
        v0.wf(),
        wrote(v0, v1, x),
        v0.owner@.contains_key(x) ==> v0.owner@[x] is Data && v0.owner@[x]->Data_0 == ino,
    ensures
        frame(v0, v1, ino),
{
    assert forall|b: int| #[trigger]
        v0.owner@.contains_key(b) && !(v0.owner@[b] is Fresh) && !(v0.owner@[b] is Data
            && v0.owner@[b]->Data_0 == ino) implies v1.owner@.contains_key(b) && v1.owner@[b]
        == v0.owner@[b] && v1.d(b) == v0.d(b) by {
        assert(b >= 0);
        assert(b != x);
    }
}

/// A block of a file without compressed records that does not lie in physical block `x` reads as
/// before a write to `x`.
proof fn lemma_other_block(v0: Volume, v1: Volume, s: Seq<Extent>, ino: u64, l: int, x: int, rb: int)
    requires
        file_ok(v0, s, ino, rb),
        all_raw(s),
        forall|b: int| b >= 0 && b != x ==> #[trigger] v1.d(b) == v0.d(b),
        lookup(s, l) != Some(Loc::Raw(x)),
    ensures
        ublock(v1, s, l) == ublock(v0, s, l),
{
    lemma_find_some(s, l);
    if let Some(e) = find_ext(s, l) {
        let i = s.index_of(e);
        assert(s[i].compress == 0);
        assert(v1.d(e.physical + (l - e.logical)) == v0.d(e.physical + (l - e.logical)));
    }
}

/// Two blocks of a file do not share a physical block.
proof fn lemma_distinct(v: Volume, s: Seq<Extent>, ino: u64, l: int, k: int, x: int, rb: int)
    requires
        file_ok(v, s, ino, rb),
        lookup(s, l) == Some(Loc::Raw(x)),
        lookup(s, k) == Some(Loc::Raw(x)),
    ensures
        l == k,
{
    lemma_find_some(s, l);
    lemma_find_some(s, k);
    let e = find_ext(s, l)->0;
    let f = find_ext(s, k)->0;
    let i = s.index_of(e);
    let j = s.index_of(f);
    assert(ext_wf(s[i], rb) && ext_wf(s[j], rb));
    assert(ext_claimed(v.owner@, ino, s[i]));
    assert(ext_claimed(v.owner@, ino, s[j]));
    lemma_claimed_at(v.owner@, ino, e, x);
    lemma_claimed_at(v.owner@, ino, f, x);
}

/// An extent for blocks that were in no extent joins the others, with its blocks.
pub proof fn lemma_one_more(
    m0: Owners,
    s0: Seq<Extent>,
    m1: Owners,
    s1: Seq<Extent>,
    ino: u64,
    e: Extent,
)
    requires
        forall|l: int| #[trigger]
            lookup(s1, l) == if e.has(l) {
                Some(loc_in(e, l))
            } else {
                lookup(s0, l)
            },
        forall|l: int| e.has(l) ==> #[trigger] lookup(s0, l) is None,
        e.plen() <= e.length,
        forall|b: int| #[trigger]
            m1.contains_key(b) && m1[b] is Data && m1[b]->Data_0 == ino ==> (m0.contains_key(b)
                && m0[b] == m1[b]) || (e.physical <= b < e.physical + e.plen() && m1[b]
                == Owner::Data(ino, e.logical + (b - e.physical))),
    ensures
        stays_tight(m0, s0, m1, s1, ino),
        maps_only(s0, s1, e.logical as int, e.lend()),
{
    if owns_only(m0, ino, s0) {
        assert forall|b: int| #[trigger]
            m1.contains_key(b) && m1[b] is Data && m1[b]->Data_0 == ino implies at_place(
            s1,
            m1[b]->Data_1,
            b,
        ) by {
            let l = m1[b]->Data_1;
            if m0.contains_key(b) && m0[b] == m1[b] {
                assert(at_place(s0, l, b));
                assert(lookup(s0, l) is Some);
            } else {
                assert(e.has(l));
            }
            assert(lookup(s1, l) == if e.has(l) {
                Some(loc_in(e, l))
            } else {
                lookup(s0, l)
            });
        }
    }
    assert forall|l: int| #[trigger]
        lookup(s1, l) is Some && !(e.logical <= l < e.lend()) implies lookup(s0, l) is Some by {
        assert(!e.has(l));
    }
}

/// Writes `src` into logical block `l` at `within`; a hole gets a block first.
#[verifier::rlimit(40)]
pub fn write_part(
    v: &mut Volume,
    s: &mut Vec<Extent>,
    ino: Ghost<u64>,
    l: u64,
    within: usize,
    src: &[u8],
    rb: Ghost<int>,
) -> (r: Result<()>)
    requires
        file_ok(*old(v), old(s)@, ino@, rb@),
        all_raw(old(s)@),
        l < MAX_FILE_BLOCKS,
        within + src@.len() <= 4096,
    ensures
        final(v).end() <= old(v).end() + 2,
        match r {
            Ok(_) => {
                &&& file_ok(*final(v), final(s)@, ino@, rb@)
                &&& all_raw(final(s)@)
                &&& frame(*old(v), *final(v), ino@)
                &&& forall|p: int|
                    p >= 0 ==> #[trigger] ubyte(*final(v), final(s)@, p) == written_byte(
                        *old(v),
                        old(s)@,
                        p,
                        l * 4096 + within,
                        src@,
                    )
                &&& stays_tight(old(v).owner@, old(s)@, final(v).owner@, final(s)@, ino@)
                &&& maps_only(old(s)@, final(s)@, l as int, l + 1)
                &&& maps_all(old(s)@, final(s)@, l as int, l + 1)
            },
            Err(e) => e.is(ENOSPC) && old(v).full(2) && *final(v) == *old(v) && *final(s) == *old(s),
        },
{
    let limit = block_limit();
    let ghost v0 = *v;
    let ghost s0 = s@;
    match locate(s, l) {
        Some(i) => {
            let e = s[i];
            assert(s0[i as int].compress == 0);
            assert(ext_wf(s0[i as int], rb@));
            assert(ext_claimed(v0.owner@, ino@, s0[i as int]));
            let phys: u64 = e.physical + (l - e.logical);
            proof {
                lemma_claimed_at(v0.owner@, ino@, e, phys as int);
            }
            v.patch(phys, within, src);
            proof {
                lemma_wrote_frame(v0, *v, phys as int, ino@);
                assert forall|p: int| p >= 0 implies #[trigger] ubyte(*v, s@, p) == written_byte(
                    v0,
                    s0,
                    p,
                    l * 4096 + within,
                    src@,
                ) by {
                    let k = p / 4096;
                    if k == l {
                        assert(ublock(*v, s@, k) == splice(
                            v0.d(phys as int),
                            within as int,
                            src@,
                        ));
                        assert(p == l * 4096 + p % 4096);
                        assert(v0.d(phys as int).len() == 4096) by {
                            lemma_block_len(v0, phys as int);
                        }
                    } else {
                        if lookup(s0, k) == Some(Loc::Raw(phys as int)) {
                            lemma_distinct(v0, s0, ino@, l as int, k, phys as int, rb@);
                        }
                        lemma_other_block(v0, *v, s0, ino@, k, phys as int, rb@);
                    }
                }
            }
        },
        None => {
            let phys = match v.allocate(1, Ghost(Owner::Data(ino@, l as int))) {
                Ok(p) => p,
                Err(e) => return Err(e),
            };
            let ghost v1 = *v;
            assert forall|b: int| #[trigger] v0.owner@.contains_key(b) implies v1.owner@.contains_key(b)
                && v1.owner@[b] == v0.owner@[b] by {}
            let mut blk: Vec<u8> = zero_vec(4096);
            copy_into(blk.as_mut_slice(), within, src);
            let ghost new_block = blk@;
            v.put(phys, blk);
            let e = Extent::with_phys(l, phys, 1, 1, 0);
            proof {
                lemma_claims_kept(v0.owner@, v.owner@, ino@, s0);
                assert(ext_claimed(v.owner@, ino@, e)) by {
                    assert forall|b: int| e.physical <= b < e.physical + e.plen() implies #[trigger] v.owner@.contains_key(
                    b) && v.owner@[b] == Owner::Data(ino@, e.logical + (b - e.physical)) by {}
                }
                assert forall|k: int| l <= k < l + 1 implies #[trigger] lookup(s0, k) is None by {
                    assert(k == l);
                }
                lemma_disjoint_from(s0, l as int, l + 1, rb@);
            }
            add_extent(s, e, rb);
            proof {
                assert(all_raw(s@)) by {
                    assert forall|i: int| 0 <= i < s@.len() implies (#[trigger] s@[i]).compress
                        == 0 by {
                        let x = s@[i];
                        if x.compress != 0 {
                            assert(s@.contains(x));
                            assert(s0.contains(x));
                            let k = s0.index_of(x);
                            assert(s0[k].compress == 0);
                        }
                    }
                }
                assert(frame(v0, *v, ino@)) by {
                    assert forall|b: int| 0 <= b < v0.lo() implies #[trigger] crate::store::image_block(
                    v.image@, b) == crate::store::image_block(v0.image@, b) by {
                        assert(crate::store::image_block(v1.image@, b)
                            == crate::store::image_block(v0.image@, b));
                    }
                    assert forall|b: int| #[trigger]
                        v0.owner@.contains_key(b) && !(v0.owner@[b] is Fresh) && !(
                        v0.owner@[b] is Data && v0.owner@[b]->Data_0
                            == ino@) implies v.owner@.contains_key(b) && v.owner@[b]
                        == v0.owner@[b] && v.d(b) == v0.d(b) by {
                        assert(b != phys);
                        assert(v1.d(b) == v0.d(b));
                        assert(v.d(b) == v1.d(b));
                    }
                }
                lemma_one_more(v0.owner@, s0, v.owner@, s@, ino@, e);
                assert forall|p: int| p >= 0 implies #[trigger] ubyte(*v, s@, p) == written_byte(
                    v0,
                    s0,
                    p,
                    l * 4096 + within,
                    src@,
                ) by {
                    let k = p / 4096;
                    assert(lookup(s@, k) == if e.has(k) {
                        Some(loc_in(e, k))
                    } else {
                        lookup(s0, k)
                    });
                    if k == l {
                        assert(ublock(*v, s@, k) == new_block);
                        assert(ublock(v0, s0, k) == zeros(4096));
                        assert(p == l * 4096 + p % 4096);
                    } else {
                        lemma_find_some(s0, k);
                        if let Some(x) = find_ext(s0, k) {
                            let i = s0.index_of(x);
                            assert(s0[i].compress == 0);
                            assert(ext_wf(s0[i], rb@));
                            assert(ext_claimed(v0.owner@, ino@, s0[i]));
                            let b = x.physical + (k - x.logical);
                            lemma_claimed_at(v0.owner@, ino@, x, b);
                            assert(b != phys);
                            assert(v1.d(b) == v0.d(b));
                            assert(v.d(b) == v1.d(b));
                        }
                    }
                }
            }
        },
    }
    Ok(())
}

/// A block has 4096 bytes.
pub proof fn lemma_block_len(v: Volume, b: int)
    requires
        v.wf(),
    ensures
        v.d(b).len() == 4096,
{
    if 0 <= b <= u64::MAX && v.cache.map@.contains_key(b as u64) {
    }
}

/// Writes `buf` at byte `off` of a file without compressed records.
#[verifier::rlimit(30)]
pub fn write_raw(
    v: &mut Volume,
    s: &mut Vec<Extent>,
    ino: Ghost<u64>,
    off: u64,
    buf: &[u8],
    rb: Ghost<int>,
) -> (r: Result<()>)
    requires
        file_ok(*old(v), old(s)@, ino@, rb@),
        all_raw(old(s)@),
        off + buf@.len() <= MAX_FILE_SIZE,
    ensures
        final(v).end() <= old(v).end() + 2 * (buf@.len() as int / 4096 + 2),
        file_ok(*final(v), final(s)@, ino@, rb@),
        all_raw(final(s)@),
        frame(*old(v), *final(v), ino@),
        same_outside(*old(v), old(s)@, *final(v), final(s)@, off as int, buf@.len() as int),
        stays_tight(old(v).owner@, old(s)@, final(v).owner@, final(s)@, ino@),
        maps_only(old(s)@, final(s)@, off as int / 4096, (off + buf@.len() + 4095) / 4096),
        match r {
            Ok(_) => (buf@.len() > 0 ==> maps_all(
                old(s)@,
                final(s)@,
                off as int / 4096,
                (off + buf@.len() + 4095) / 4096,
            )) && forall|p: int|
                p >= 0 ==> #[trigger] ubyte(*final(v), final(s)@, p) == written_byte(
                    *old(v),
                    old(s)@,
                    p,
                    off as int,
                    buf@,
                ),
            Err(e) => e.is(ENOSPC) && old(v).full(2 * (buf@.len() as int / 4096 + 2)),
        },
{
    let ghost v0 = *v;
    let ghost s0 = s@;
    let len: usize = buf.len();
    let mut done: usize = 0;
    proof {
        lemma_frame_refl(v0, ino@);
    }
    while done < len
        invariant
            done <= len,
            0 < done < len ==> (off + done) % 4096 == 0,
            done == 0 ==> v.end() == v0.end(),
            done > 0 ==> v.end() <= v0.end() + 2 * ((off + done - 1) / 4096 - off as int / 4096 + 1),
            len == buf@.len(),
            off + len <= MAX_FILE_SIZE,
            v0 == *old(v),
            s0 == old(s)@,
            file_ok(*v, s@, ino@, rb@),
            all_raw(s@),
            frame(v0, *v, ino@),
            stays_tight(v0.owner@, s0, v.owner@, s@, ino@),
            maps_only(s0, s@, off as int / 4096, (off + len + 4095) / 4096),
            done == 0 ==> s@ == s0,
            done > 0 ==> maps_all(s0, s@, off as int / 4096, (off + done + 4095) / 4096),
            forall|p: int|
                p >= 0 ==> #[trigger] ubyte(*v, s@, p) == if off <= p < off + done {
                    buf@[p - off]
                } else {
                    ubyte(v0, s0, p)
                },
        decreases len - done,
    {
        let pos: u64 = off + done as u64;
        let l: u64 = pos / 4096;
        let within: usize = (pos % 4096) as usize;
        let chunk: usize = if 4096 - within < len - done {
            4096 - within
        } else {
            len - done
        };
        let part = vstd::slice::slice_subrange(buf, done, done + chunk);
        let ghost v1 = *v;
        let ghost s1 = s@;
        match write_part(v, s, ino, l, within, part, rb) {
            Ok(_) => {},
            Err(e) => return Err(e),
        }
        proof {
            lemma_frame_trans(v0, v1, *v, ino@);
            assert(maps_all(s0, s@, off as int / 4096, (off + (done + chunk) + 4095) / 4096)) by {
                assert forall|k: int|
                    off as int / 4096 <= k < (off + (done + chunk) + 4095) / 4096 || lookup(
                        s0,
                        k,
                    ) is Some implies #[trigger] lookup(s@, k) is Some by {
                    if k != l {
                        assert(lookup(s1, k) is Some);
                    }
                }
            }
            assert(maps_only(s0, s@, off as int / 4096, (off + len + 4095) / 4096)) by {
                assert forall|k: int| #[trigger]
                    lookup(s@, k) is Some && !(off as int / 4096 <= k < (off + len + 4095)
                        / 4096) implies lookup(s0, k) is Some by {
                    assert(k != l);
                    assert(lookup(s1, k) is Some);
                }
            }
            assert forall|p: int| p >= 0 implies #[trigger] ubyte(*v, s@, p) == (if off <= p < off
                + (done + chunk) {
                buf@[p - off]
            } else {
                ubyte(v0, s0, p)
            }) by {
                assert(ubyte(v1, s1, p) == if off <= p < off + done {
                    buf@[p - off]
                } else {
                    ubyte(v0, s0, p)
                });
            }
        }
        done = done + chunk;
    }
    Ok(())
}

/// Doing nothing keeps the frame.
pub proof fn lemma_frame_refl(v: Volume, ino: u64)
    ensures
        frame(v, v, ino),
{
}

/// `n` bytes of a file from `off` on, as they stand on disk.
pub open spec fn ubytes(v: Volume, s: Seq<Extent>, off: int, n: nat) -> Seq<u8> {
    Seq::new(n, |i: int| ubyte(v, s, off + i))
}

/// Reads `n` bytes from `off` on of a file without compressed records.
pub fn read_raw(
    v: &mut Volume,
    s: &Vec<Extent>,
    ino: Ghost<u64>,
    off: u64,
    n: usize,
    rb: Ghost<int>,
) -> (out: Vec<u8>)
    requires
        file_ok(*old(v), s@, ino@, rb@),
        all_raw(s@),
        off + n <= MAX_FILE_SIZE,
    ensures
        final(v).wf(),
        unchanged(*old(v), *final(v)),
        out@ == ubytes(*old(v), s@, off as int, n as nat),
{
    let limit = block_limit();
    let ghost v0 = *v;
    let mut out: Vec<u8> = Vec::new();
    let mut done: usize = 0;
    while done < n
        invariant
            done <= n,
            limit == max_blocks(),
            limit <= 0x1000_0000_0000,
            off + n <= MAX_FILE_SIZE,
            file_ok(v0, s@, ino@, rb@),
            all_raw(s@),
            v.wf(),
            unchanged(v0, *v),
            out@.len() == done,
            out@ == ubytes(v0, s@, off as int, done as nat),
        decreases n - done,
    {
        let pos: u64 = off + done as u64;
        let l: u64 = pos / 4096;
        let within: usize = (pos % 4096) as usize;
        let chunk: usize = if 4096 - within < n - done {
            4096 - within
        } else {
            n - done
        };
        let mut blk: Vec<u8> = zero_vec(4096);
        match locate(s, l) {
            Some(i) => {
                let e = s[i];
                assert(s@[i as int].compress == 0);
                assert(ext_wf(s@[i as int], rb@));
                assert(ext_claimed(v0.owner@, ino@, s@[i as int]));
                proof {
                    lemma_claimed_at(v0.owner@, ino@, e, e.physical + (l - e.logical));
                }
                blk = v.get(e.physical + (l - e.logical));
            },
            None => {},
        }
        assert(blk@ == ublock(v0, s@, l as int));
        let ghost before = out@;
        append(&mut out, vstd::slice::slice_subrange(blk.as_slice(), within, within + chunk));
        assert forall|i: int| 0 <= i < done + chunk implies out@[i] == ubyte(v0, s@, off + i) by {
            if i < done {
                assert(out@[i] == before[i]);
            } else {
                let p = off + i;
                assert(p / 4096 == l && p % 4096 == within + (i - done));
            }
        }
        done = done + chunk;
        assert(out@ =~= ubytes(v0, s@, off as int, done as nat));
    }
    out
}

/// What cutting a file down to `n` bytes does.
pub open spec fn cut(
    v0: Volume,
    s0: Seq<Extent>,
    v1: Volume,
    s1: Seq<Extent>,
    ino: u64,
    n: int,
    rb: int,
) -> bool {
    &&& file_ok(v1, s1, ino, rb)
    &&& frame(v0, v1, ino)
    &&& forall|p: int|
        p >= 0 ==> #[trigger] ubyte(v1, s1, p) == if p < n {
            ubyte(v0, s0, p)
        } else {
            0
        }
    &&& exts_readable(v0, s0) ==> exts_readable(v1, s1)
    &&& stays_tight(v0.owner@, s0, v1.owner@, s1, ino)
    &&& ends_at(s1, n)
}

/// A file has no blocks behind byte `n`.
pub open spec fn ends_at(s: Seq<Extent>, n: int) -> bool {
    forall|l: int| l * 4096 >= n ==> (#[trigger] lookup(s, l)) is None
}

/// Cuts a file without compressed records down to `n` bytes.
pub fn cut_raw(v: &mut Volume, s: &mut Vec<Extent>, ino: Ghost<u64>, n: u64, rb: Ghost<int>)
    requires
        file_ok(*old(v), old(s)@, ino@, rb@),
        all_raw(old(s)@),
        n <= MAX_FILE_SIZE,
    ensures
        cut(*old(v), old(s)@, *final(v), final(s)@, ino@, n as int, rb@),
        all_raw(final(s)@),
        final(v).end() <= old(v).end(),
{
    let limit = block_limit();
    let ghost v0 = *v;
    let ghost s0 = s@;
    let first_drop: u64 = (n + 4095) / 4096;
    punch(v, s, ino, first_drop, 0x8000_0000_0000_0000, rb);
    let ghost v1 = *v;
    let ghost s1 = s@;
    proof {
        assert(all_raw(s1)) by {
            assert forall|i: int| 0 <= i < s1.len() implies (#[trigger] s1[i]).compress == 0 by {
                let x = s1[i];
                if x.compress != 0 {
                    assert(s1.contains(x));
                    assert(s0.contains(x));
                    let k = s0.index_of(x);
                    assert(s0[k].compress == 0);
                }
            }
        }
        assert forall|l: int| #[trigger] lookup(s1, l) is Some implies 0 <= l < MAX_FILE_BLOCKS by {
            lemma_find_some(s1, l);
            let e = find_ext(s1, l)->0;
            let i = s1.index_of(e);
            assert(ext_wf(s1[i], rb@));
        }
        assert forall|l: int| l >= 0 implies #[trigger] ublock(v1, s1, l) == (if l < first_drop {
            ublock(v0, s0, l)
        } else {
            zeros(4096)
        }) by {
            assert(lookup(s1, l) == if first_drop <= l < 0x8000_0000_0000_0000 {
                None
            } else {
                lookup(s0, l)
            });
            if l < first_drop {
                lemma_find_some(s0, l);
                if let Some(e) = find_ext(s0, l) {
                    let i = s0.index_of(e);
                    assert(s0[i].compress == 0);
                    assert(v1.d(e.physical + (l - e.logical)) == v0.d(e.physical + (l
                        - e.logical)));
                }
            }
        }
    }
    let within: usize = (n % 4096) as usize;
    let l: u64 = n / 4096;
    if within != 0 {
        match locate(s, l) {
            Some(i) => {
                let e = s[i];
                assert(s1[i as int].compress == 0);
                assert(ext_wf(s1[i as int], rb@));
                assert(ext_claimed(v1.owner@, ino@, s1[i as int]));
                let phys: u64 = e.physical + (l - e.logical);
                proof {
                    lemma_claimed_at(v1.owner@, ino@, e, phys as int);
                    lemma_block_len(v1, phys as int);
                }
                let fill = zero_vec(4096 - within);
                v.patch(phys, within, fill.as_slice());
                proof {
                    lemma_wrote_frame(v1, *v, phys as int, ino@);
                    lemma_frame_trans(v0, v1, *v, ino@);
                    assert forall|k: int| k >= 0 && k != l implies #[trigger] ublock(*v, s1, k)
                        == ublock(v1, s1, k) by {
                        if lookup(s1, k) == Some(Loc::Raw(phys as int)) {
                            lemma_distinct(v1, s1, ino@, l as int, k, phys as int, rb@);
                        }
                        lemma_other_block(v1, *v, s1, ino@, k, phys as int, rb@);
                    }
                    assert(ublock(*v, s1, l as int) == splice(
                        ublock(v1, s1, l as int),
                        within as int,
                        fill@,
                    ));
                }
            },
            None => {},
        }
    }
    proof {
        assert forall|p: int| p >= 0 implies #[trigger] ubyte(*v, s@, p) == (if p < n {
            ubyte(v0, s0, p)
        } else {
            0
        }) by {
            let k = p / 4096;
            assert(p == k * 4096 + p % 4096);
            assert(ublock(v1, s1, k) == if k < first_drop {
                ublock(v0, s0, k)
            } else {
                zeros(4096)
            });
            if k == l && within != 0 {
            } else {
                assert(ublock(*v, s1, k) == ublock(v1, s1, k));
            }
        }
        assert(exts_readable(*v, s@));
        assert forall|k: int| k * 4096 >= n implies (#[trigger] lookup(s@, k)) is None by {
            assert(lookup(s1, k) is Some ==> k < MAX_FILE_BLOCKS);
        }
    }
}

/// Gives all blocks of a file back.
pub fn free_all(v: &mut Volume, s: &mut Vec<Extent>, ino: Ghost<u64>, rb: Ghost<int>)
    requires
        file_ok(*old(v), old(s)@, ino@, rb@),
    ensures
        final(v).wf(),
        final(s)@.len() == 0,
        frame(*old(v), *final(v), ino@),
        final(v).alloc.total_blocks == old(v).alloc.total_blocks,
        final(v).end() <= old(v).end(),
        forall|b: int| b >= 0 ==> #[trigger] final(v).d(b) == old(v).d(b),
        forall|b: int| #[trigger]
            old(v).owner@.contains_key(b) && !final(v).owner@.contains_key(b) ==> final(v).alloc.is_free(b),
        stays_tight(old(v).owner@, old(s)@, final(v).owner@, final(s)@, ino@),
{
    proof {
        vstd::arithmetic::div_mod::lemma_small_mod(0, rb@ as nat);
    }
    punch(v, s, ino, 0, 0x8000_0000_0000_0000, rb);
    proof {
        if s@.len() > 0 {
            let e = s@[0];
            assert(ext_wf(s@[0], rb@));
            lemma_find(s@, 0, e.logical as int);
            assert(lookup(s@, e.logical as int) is None);
        }
    }
}

/// Cuts a file that may have compressed records down to `n` bytes. The last record that stays is
/// stored anew.
#[verifier::rlimit(40)]
pub fn cut_packed(
    v: &mut Volume,
    s: &mut Vec<Extent>,
    ino: Ghost<u64>,
    n: u64,
    algo: Compression,
    rb: u32,
) -> (r: Result<bool>)
    requires
        file_ok(*old(v), old(s)@, ino@, rb as int),
        0 < n <= MAX_FILE_SIZE,
    ensures
        final(v).end() <= old(v).end() + 64,
        match r {
            Ok(packed) => cut(
                *old(v),
                old(s)@,
                *final(v),
                final(s)@,
                ino@,
                n as int,
                rb as int,
            ) && (!packed ==> no_new_packed(old(s)@, final(s)@)) && (packed ==> algo is Lz4),
            Err(e) => {
                &&& unchanged(*old(v), *final(v))
                &&& final(v).wf()
                &&& *final(s) == *old(s)
                &&& ({
                    ||| e.is(EIO) && !exts_readable(*old(v), old(s)@)
                    ||| e.is(ENOSPC) && old(v).full(64)
                })
            },
        },
{
    let ghost v0 = *v;
    let ghost s0 = s@;
    let last: u64 = (n - 1) / 4096;
    proof {
        lemma_record_start(last as int, rb as int);
    }
    let start: u64 = last - last % rb as u64;
    let keep: u64 = n - start * 4096;
    let mut data = match load_record(v, s, ino, start, rb) {
        Ok(d) => d,
        Err(e) => return Err(e),
    };
    let ghost whole = data@;
    let ghost v1 = *v;
    data.truncate(keep as usize);
    assert(data@ =~= whole.take(keep as int));
    proof {
        lemma_unchanged_file(v0, v1, s0, ino@, rb as int);
    }
    let packed = match store_record(v, s, ino, start, data.as_slice(), algo, rb) {
        Ok(p) => p,
        Err(e) => return Err(e),
    };
    let ghost v2 = *v;
    let ghost s2 = s@;
    proof {
        lemma_next_record(start as int, rb as int);
    }
    punch(v, s, ino, start + rb as u64, 0x8000_0000_0000_0000, Ghost(rb as int));
    proof {
        assert(frame(v0, v1, ino@));
        lemma_frame_trans(v0, v1, v2, ino@);
        lemma_frame_trans(v0, v2, *v, ino@);
        assert forall|p: int| p >= 0 implies #[trigger] ubyte(*v, s@, p) == (if p < n {
            ubyte(v0, s0, p)
        } else {
            0
        }) by {
            let l = p / 4096;
            assert(p == l * 4096 + p % 4096);
            assert(lookup(s@, l) == if start + rb <= l < 0x8000_0000_0000_0000 {
                None
            } else {
                lookup(s2, l)
            });
            if l < start + rb {
                lemma_punched_block(v2, s2, *v, s@, ino@, l, rb as int);
                assert(ubyte(*v, s@, p) == ubyte(v2, s2, p));
                assert(ubyte(v2, s2, p) == patched_byte(
                    v1,
                    s0,
                    p,
                    start as int,
                    rb as int,
                    data@,
                ));
                let q = p - start * 4096;
                if 0 <= q < data@.len() {
                    assert(data@[q] == whole[q]);
                    assert(whole[q] == ubyte(v0, s0, start * 4096 + q));
                }
                assert(ubyte(v1, s0, p) == ubyte(v0, s0, p));
            } else {
                lemma_find_some(s@, l);
                if lookup(s@, l) is Some {
                    let e = find_ext(s@, l)->0;
                    let i = s@.index_of(e);
                    assert(ext_wf(s@[i], rb as int));
                }
            }
        }
        if exts_readable(v0, s0) {
            assert(exts_readable(v2, s2));
            assert forall|i: int| 0 <= i < s@.len() && (#[trigger] s@[i]).compress
                != 0 implies record_data(packed_raw(*v, s@[i])) is Some by {
                let x = s@[i];
                assert(s@.contains(x));
                assert(s2.contains(x));
                let k = s2.index_of(x);
                assert(s2[k] == x);
                lemma_packed_same(v2, *v, x);
            }
        }
        if !packed {
            assert forall|x: Extent| #[trigger] s@.contains(x) && x.compress != 0 implies s0.contains(
            x) by {
                assert(s2.contains(x));
            }
        }
        assert forall|l: int| l * 4096 >= n implies (#[trigger] lookup(s@, l)) is None by {
            assert(lookup(s@, l) == if start + rb <= l < 0x8000_0000_0000_0000 {
                None
            } else {
                lookup(s2, l)
            });
            if l < start + rb {
                assert(lookup(s2, l) is None);
            } else {
                lemma_find_some(s@, l);
                if lookup(s@, l) is Some {
                    let e = find_ext(s@, l)->0;
                    let i = s@.index_of(e);
                    assert(ext_wf(s@[i], rb as int));
                }
            }
        }
    }
    Ok(packed)
}

pub proof fn lemma_next_record(start: int, rb: int)
    requires
        record_size_ok(rb),
        start % rb == 0,
    ensures
        (start + rb) % rb == 0,
{
    vstd::arithmetic::div_mod::lemma_mod_add_multiples_vanish(start, rb);
}

/// A file reads the same on a volume where nothing changed.
pub proof fn lemma_unchanged_file(v0: Volume, v1: Volume, s: Seq<Extent>, ino: u64, rb: int)
    requires
        file_ok(v0, s, ino, rb),
        v1.wf(),
        same_blocks(v0, v1),
    ensures
        file_ok(v1, s, ino, rb),
        frame(v0, v1, ino),
        forall|p: int| #[trigger] ubyte(v1, s, p) == ubyte(v0, s, p),
        exts_readable(v0, s) <==> exts_readable(v1, s),
{
    assert forall|p: int| #[trigger] ubyte(v1, s, p) == ubyte(v0, s, p) by {
        let l = p / 4096;
        lemma_find_some(s, l);
        if let Some(e) = find_ext(s, l) {
            let i = s.index_of(e);
            assert(ext_wf(s[i], rb));
        }
        lemma_ublock_same(v0, v1, s, l);
    }
    assert forall|i: int| 0 <= i < s.len() implies packed_raw(v1, #[trigger] s[i]) == packed_raw(
        v0,
        s[i],
    ) by {
        lemma_packed_same(v0, v1, s[i]);
    }
}

/// Punching elsewhere leaves a block alone.
proof fn lemma_punched_block(
    v0: Volume,
    s0: Seq<Extent>,
    v1: Volume,
    s1: Seq<Extent>,
    ino: u64,
    l: int,
    rb: int,
)
    requires
        exts_wf(s0, rb),
        lookup(s1, l) == lookup(s0, l),
        forall|b: int| b >= 0 ==> #[trigger] v1.d(b) == v0.d(b),
    ensures
        ublock(v1, s1, l) == ublock(v0, s0, l),
{
    lemma_find_some(s0, l);
    if let Some(e) = find_ext(s0, l) {
        let i = s0.index_of(e);
        assert(ext_wf(s0[i], rb));
        if e.compress != 0 {
            lemma_packed_same(v0, v1, e);
        }
    }
}

} // verus!
