//! Reading the inodes of an image, and checking that no block belongs to two of them.

use vstd::prelude::*;

use crate::allocator::{in_run, Allocator};
use crate::bytes::{bytes_equal, get_u32};
use crate::compress::RecordHeader;
use crate::disk::{resolve, tree_ext, tree_exts, tree_len};
use crate::error::{eio, Result, EIO};
use crate::extents::{ext_claimed, ext_wf, exts_claimed, exts_wf, record_size_ok, MAX_FILE_BLOCKS};
use crate::format::{get_extents, Extent};
use crate::inner::owned_by;
use crate::store::{block_limit, max_blocks};
use crate::tree::tree_magic;
use crate::volume::{accounted, claimed, unchanged, Owner, Volume};

verus! {

/// Whether all `n` blocks from `start` on are free.
pub(crate) fn range_free(a: &Allocator, start: u64, n: u64) -> (r: bool)
    requires
        a.wf(),
        n > 0,
        start + n <= u64::MAX,
    ensures
        r == forall|b: int| start <= b < start + n ==> #[trigger] a.is_free(b),
{
    let len: usize = a.free.len();
    let ghost s = a.free@;
    let mut i: usize = 0;
    while i < len
        invariant
            i <= len,
            len == a.free@.len(),
            s == a.free@,
            a.wf(),
            start + n <= u64::MAX,
            forall|k: int|
                0 <= k < i ==> !((#[trigger] s[k]).0 <= start && start + n <= s[k].0 + s[k].1),
        decreases len - i,
    {
        let (first, count) = a.free[i];
        assert(s[i as int].0 + s[i as int].1 <= a.total_blocks);
        if first <= start && start + n <= first + count {
            assert forall|b: int| start <= b < start + n implies #[trigger] a.is_free(b) by {
                assert(in_run(s[i as int], b));
            }
            return true;
        }
        i = i + 1;
    }
    proof {
        if forall|b: int| start <= b < start + n ==> #[trigger] a.is_free(b) {
            assert(a.is_free(start as int));
            let k = choose|k: int| 0 <= k < s.len() && in_run(#[trigger] s[k], start as int);
            let e = s[k].0 + s[k].1;
            assert(e < start + n);
            assert(a.is_free(e));
            let j = choose|j: int| 0 <= j < s.len() && in_run(#[trigger] s[j], e);
            assert(j != k);
            if j < k {
                assert(s[j].0 + s[j].1 < s[k].0);
            } else {
                assert(s[k].0 + s[k].1 < s[j].0);
            }
            assert(false);
        }
    }
    false
}

/// Whether none of the `n` blocks from `start` on is free.
pub(crate) fn range_used(a: &Allocator, start: u64, n: u64) -> (r: bool)
    requires
        a.wf(),
        n > 0,
        start + n <= u64::MAX,
    ensures
        r == forall|b: int| start <= b < start + n ==> !#[trigger] a.is_free(b),
{
    let len: usize = a.free.len();
    let ghost s = a.free@;
    let mut i: usize = 0;
    while i < len
        invariant
            i <= len,
            len == a.free@.len(),
            s == a.free@,
            a.wf(),
            start + n <= u64::MAX,
            n > 0,
            forall|k: int, b: int|
                0 <= k < i && start <= b < start + n ==> !#[trigger] in_run(s[k], b),
        decreases len - i,
    {
        let (first, count) = a.free[i];
        assert(s[i as int].0 + s[i as int].1 <= a.total_blocks);
        if first < start + n && start < first + count {
            proof {
                let b = if first <= start {
                    start as int
                } else {
                    first as int
                };
                assert(in_run(s[i as int], b));
                assert(a.is_free(b));
            }
            return false;
        }
        i = i + 1;
    }
    true
}

/// The blocks that no inode claimed yet.
pub open spec fn mirrors(v: Volume, left: Allocator) -> bool {
    &&& left.wf()
    &&& forall|b: int| #[trigger]
        left.is_free(b) <==> v.lo() <= b < v.alloc.total_blocks && !v.owner@.contains_key(b)
}

/// Only the owners of a volume changed: `n` blocks from `start` on went to `o`.
pub open spec fn owner_grew(v0: Volume, v1: Volume, start: int, n: int, o: Owner) -> bool {
    &&& v1 == (Volume { owner: v1.owner, ..v0 })
    &&& v1.owner@ == claimed(v0.owner@, start, n, o)
    &&& forall|b: int| start <= b < start + n ==> !#[trigger] v0.owner@.contains_key(b)
}

/// Block `b` is a used block of the data area that nobody claimed.
pub open spec fn claimable(v: Volume, b: int) -> bool {
    v.lo() <= b < v.alloc.total_blocks && !v.alloc.is_free(b) && !v.owner@.contains_key(b)
}

/// Claims `n` blocks from `start` on for `o`, where they are in use and nobody claimed them yet.
pub fn claim(v: &mut Volume, left: &mut Allocator, start: u64, n: u64, o: Ghost<Owner>) -> (r: bool)
    requires
        old(v).wf(),
        mirrors(*old(v), *old(left)),
        n > 0,
        start + n <= u64::MAX,
    ensures
        final(v).wf(),
        mirrors(*final(v), *final(left)),
        r ==> owner_grew(*old(v), *final(v), start as int, n as int, o@) && old(v).lo() <= start
            && start + n <= old(v).alloc.total_blocks,
        !r ==> *final(v) == *old(v) && *final(left) == *old(left) && exists|b: int|
            start <= b < start + n && !#[trigger] claimable(*old(v), b),
{
    if !range_free(left, start, n) {
        proof {
            let b = choose|b: int| start <= b < start + n && !#[trigger] left.is_free(b);
            assert(!left.is_free(b));
            assert(!claimable(*v, b));
        }
        return false;
    }
    if !range_used(&v.alloc, start, n) {
        proof {
            let b = choose|b: int| start <= b < start + n && #[trigger] v.alloc.is_free(b);
            assert(!claimable(*v, b));
        }
        return false;
    }
    let ghost v0 = *v;
    left.reserve(start, n);
    v.owner = Ghost(claimed(v.owner@, start as int, n as int, o@));
    proof {
        reveal(accounted);
        assert forall|b: int| start <= b < start + n implies !#[trigger] v0.owner@.contains_key(b) by {
            assert(old(left).is_free(b));
        }
        assert(old(left).is_free(start as int));
        assert(old(left).is_free(start + n - 1));
        assert forall|b: int| #[trigger] v.owner@.contains_key(b) implies v.lo() <= b
            < v.alloc.total_blocks && !v.alloc.is_free(b) by {
            if start <= b < start + n {
                assert(old(left).is_free(b));
            } else {
                assert(v0.owner@.contains_key(b));
            }
        }
    }
    true
}

/// Blocks read as before, and all owners are still there; new ones are of one inode.
pub open spec fn loaded_more(v0: Volume, v1: Volume, ino: u64) -> bool {
    &&& v1.wf()
    &&& v1.alloc == v0.alloc
    &&& v1.cache.capacity == v0.cache.capacity
    &&& v1.image@.len() >= v0.image@.len()
    &&& forall|b: int| b >= 0 ==> #[trigger] v1.d(b) == v0.d(b)
    &&& forall|b: int| #[trigger]
        v0.owner@.contains_key(b) ==> v1.owner@.contains_key(b) && v1.owner@[b] == v0.owner@[b]
    &&& forall|b: int| #[trigger]
        v1.owner@.contains_key(b) && !v0.owner@.contains_key(b) ==> owned_by(v1.owner@[b], ino)
    &&& v0.idle() ==> v1.idle() && v1.image == v0.image
}

/// Reads the extent tree at block `tree`, and claims its blocks.
#[verifier::rlimit(40)]
pub(crate) fn read_tree(v: &mut Volume, left: &mut Allocator, ino: Ghost<u64>, tree: u64, good: Ghost<bool>) -> (r:
    Result<(Vec<Extent>, u64)>)
    requires
        old(v).wf(),
        mirrors(*old(v), *old(left)),
        good@ ==> forall|b: int|
            tree <= b < tree + tree_len(*old(v), tree as int) ==> #[trigger] claimable(*old(v), b),
    ensures
        final(v).wf(),
        mirrors(*final(v), *final(left)),
        loaded_more(*old(v), *final(v), ino@),
        match r {
            Ok((exts, n)) => {
                &&& exts@ == tree_exts(*old(v), tree as int)
                &&& n == tree_len(*old(v), tree as int)
                &&& old(v).lo() <= tree
                &&& tree + n <= old(v).alloc.total_blocks
                &&& final(v).owner@ == claimed(
                    old(v).owner@,
                    tree as int,
                    n as int,
                    Owner::Tree(ino@),
                )
                &&& forall|b: int|
                    tree <= b < tree + n ==> !#[trigger] old(v).owner@.contains_key(b)
            },
            Err(e) => e.is(EIO) && !good@,
        },
{
    let ghost v0 = *v;
    let limit = block_limit();
    assert(tree <= tree < tree + tree_len(v0, tree as int));
    if tree >= limit {
        assert(good@ ==> claimable(v0, tree as int));
        return Err(eio("bad extent tree"));
    }
    if !claim(v, left, tree, 1, Ghost(Owner::Tree(ino@))) {
        return Err(eio("bad extent tree"));
    }
    let ghost v1 = *v;
    let first = v.get(tree);
    let n: u64 = get_u32(first.as_slice(), 0) as u64;
    let magic: &[u8] = &[69u8, 88, 84, 50];
    assert(magic@ =~= tree_magic());
    if !bytes_equal(vstd::slice::slice_subrange(first.as_slice(), 8, 12), magic) {
        let count: usize = if n < 200 {
            n as usize
        } else {
            200
        };
        let exts = get_extents(first.as_slice(), 8, count);
        proof {
            lemma_loaded(v0, v1, *v, tree as int, 1, ino@);
        }
        return Ok((exts, 1));
    }
    let said: u64 = get_u32(first.as_slice(), 4) as u64;
    let nb: u64 = if said == 0 {
        1
    } else {
        said
    };
    let ghost v2 = *v;
    if nb > 1 {
        proof {
            assert forall|b: int|
                good@ && tree + 1 <= b < tree + 1 + (nb - 1) implies #[trigger] claimable(v2, b) by {
                assert(claimable(v0, b));
            }
        }
        if !claim(v, left, tree + 1, nb - 1, Ghost(Owner::Tree(ino@))) {
            proof {
                lemma_loaded(v0, v1, *v, tree as int, 1, ino@);
            }
            return Err(eio("bad extent tree"));
        }
    }
    let ghost v3 = *v;
    proof {
        assert forall|b: int| b >= 0 implies #[trigger] v3.d(b) == v0.d(b) by {
            assert(v2.d(b) == v1.d(b));
            assert(v1.d(b) == v0.d(b));
        }
        assert(v3.owner@ =~= claimed(v0.owner@, tree as int, nb as int, Owner::Tree(ino@)));
        assert forall|b: int| tree <= b < tree + nb implies !#[trigger] v0.owner@.contains_key(b) by {
            if b > tree {
                assert(!v2.owner@.contains_key(b));
            }
        }
    }
    let room: u64 = nb * 204;
    let total: u64 = if n < room {
        n
    } else {
        room
    };
    let mut exts: Vec<Extent> = Vec::new();
    let mut k: u64 = 0;
    while k < nb
        invariant
            k <= nb,
            nb == tree_len(v0, tree as int),
            0 < nb <= u32::MAX,
            room == nb * 204,
            total <= room,
            total <= n,
            n <= u32::MAX,
            v3.lo() <= tree,
            tree + nb <= v3.alloc.total_blocks,
            v3.alloc.total_blocks <= max_blocks(),
            v.wf(),
            unchanged(v3, *v),
            v3.wf(),
            forall|b: int| b >= 0 ==> #[trigger] v3.d(b) == v0.d(b),
            exts@.len() == if total < k * 204 {
                total as int
            } else {
                k * 204
            },
            forall|j: int| 0 <= j < exts@.len() ==> #[trigger] exts@[j] == tree_ext(v0, tree as int, j),
        decreases nb - k,
    {
        let blk = v.get(tree + k);
        let have: u64 = k * 204;
        if have < total {
            let count: usize = if total - have < 204 {
                (total - have) as usize
            } else {
                204
            };
            let off: usize = if k == 0 {
                16
            } else {
                0
            };
            let mut more = get_extents(blk.as_slice(), off, count);
            let ghost before = exts@;
            let ghost added = more@;
            exts.append(&mut more);
            proof {
                assert(exts@ =~= before + added);
                assert forall|j: int| 0 <= j < exts@.len() implies #[trigger] exts@[j] == tree_ext(
                    v0,
                    tree as int,
                    j,
                ) by {
                    if j < before.len() {
                        assert(exts@[j] == before[j]);
                    } else {
                        let q = j - have;
                        assert(j / 204 == k && j % 204 == q);
                        assert(exts@[j] == added[q]);
                        assert(blk@ == v0.d(tree + k));
                    }
                }
            }
        }
        k = k + 1;
    }
    proof {
        assert(exts@ =~= tree_exts(v0, tree as int));
        lemma_loaded(v0, v3, *v, tree as int, nb as int, ino@);
    }
    Ok((exts, nb))
}

/// Claims and reads add up.
proof fn lemma_loaded(v0: Volume, v1: Volume, v2: Volume, start: int, n: int, ino: u64)
    requires
        v0.wf(),
        v1.owner@ == claimed(v0.owner@, start, n, Owner::Tree(ino)),
        forall|b: int| start <= b < start + n ==> !#[trigger] v0.owner@.contains_key(b),
        v1.alloc == v0.alloc,
        v1.cache.capacity == v0.cache.capacity,
        v1.image@.len() >= v0.image@.len(),
        forall|b: int| b >= 0 ==> #[trigger] v1.d(b) == v0.d(b),
        v2.wf(),
        unchanged(v1, v2),
        v0.idle() ==> v1.idle() && v1.image == v0.image,
    ensures
        loaded_more(v0, v2, ino),
{
    assert forall|b: int| b >= 0 implies #[trigger] v2.d(b) == v0.d(b) by {
        assert(v1.d(b) == v0.d(b));
    }
}

/// Finds out which extents are records.
pub(crate) fn resolve_extents(v: &mut Volume, exts: &Vec<Extent>, good: Ghost<bool>) -> (r: Result<Vec<Extent>>)
    requires
        old(v).wf(),
        good@ ==> forall|k: int|
            0 <= k < exts@.len() ==> old(v).lo() <= (#[trigger] exts@[k]).physical
                < old(v).alloc.total_blocks,
    ensures
        final(v).wf(),
        unchanged(*old(v), *final(v)),
        match r {
            Ok(out) => out@ == Seq::new(exts@.len(), |k: int| resolve(*old(v), exts@[k])),
            Err(e) => e.is(EIO) && !good@,
        },
{
    let ghost v0 = *v;
    let n: usize = exts.len();
    let mut out: Vec<Extent> = Vec::new();
    let mut k: usize = 0;
    let lo = v.alloc.first_data;
    let total = v.alloc.total_blocks;
    while k < n
        invariant
            k <= n,
            n == exts@.len(),
            v0.wf(),
            v0 == *old(v),
            v.wf(),
            unchanged(v0, *v),
            lo == v0.lo(),
            total == v0.alloc.total_blocks,
            out@.len() == k,
            good@ ==> forall|k: int|
                0 <= k < exts@.len() ==> v0.lo() <= (#[trigger] exts@[k]).physical
                    < v0.alloc.total_blocks,
            forall|j: int| 0 <= j < k ==> #[trigger] out@[j] == resolve(v0, exts@[j]),
        decreases n - k,
    {
        let mut e = exts[k];
        if e.physical < lo || e.physical >= total {
            assert(good@ ==> v0.lo() <= exts@[k as int].physical);
            return Err(eio("bad extent"));
        }
        let blk = v.get(e.physical);
        match RecordHeader::parse(blk.as_slice()) {
            Some(h) => {
                e.phys_length = h.phys_blocks();
                e.compress = 1;
            },
            None => {
                e.phys_length = e.length;
            },
        }
        out.push(e);
        k = k + 1;
    }
    assert(out@ =~= Seq::new(exts@.len(), |k: int| resolve(v0, exts@[k])));
    Ok(out)
}

/// Whether the extents of a file are in order.
pub(crate) fn extents_ok(s: &Vec<Extent>, rb: u32) -> (r: bool)
    requires
        record_size_ok(rb as int),
    ensures
        r == exts_wf(s@, rb as int),
{
    let limit = block_limit();
    let n: usize = s.len();
    let mut k: usize = 0;
    let mut end: u64 = 0;
    while k < n
        invariant
            k <= n,
            n == s@.len(),
            limit == max_blocks(),
            record_size_ok(rb as int),
            forall|i: int| 0 <= i < k ==> ext_wf(#[trigger] s@[i], rb as int),
            forall|i: int, j: int|
                0 <= i < j < k ==> (#[trigger] s@[i]).lend() <= (#[trigger] s@[j]).logical,
            forall|i: int| 0 <= i < k ==> (#[trigger] s@[i]).lend() <= end,
            end <= MAX_FILE_BLOCKS,
            k == 0 ==> end == 0,
            k > 0 ==> end == s@[k - 1].lend(),
        decreases n - k,
    {
        let e = s[k];
        assert(s@[k as int] == e);
        let fine = e.length > 0 && e.logical <= MAX_FILE_BLOCKS && e.logical + e.length as u64
            <= MAX_FILE_BLOCKS && e.physical <= limit && (if e.compress == 0 {
            e.phys_length == 0 || e.phys_length == e.length
        } else {
            e.compress == 1 && e.logical % rb as u64 == 0 && e.length <= rb && e.phys_length > 0
                && e.phys_length <= e.length
        });
        if !fine {
            assert(!ext_wf(s@[k as int], rb as int));
            return false;
        }
        if e.logical < end {
            assert(!(s@[k - 1].lend() <= s@[k as int].logical));
            return false;
        }
        end = e.logical + e.length as u64;
        k = k + 1;
    }
    true
}

/// The physical blocks of extent `k` are used blocks that nobody claimed.
pub open spec fn ext_claimable(v: Volume, e: Extent) -> bool {
    forall|b: int| e.physical <= b < e.physical + e.plen() ==> #[trigger] claimable(v, b)
}

/// No two extents share a physical block.
pub open spec fn apart(s: Seq<Extent>) -> bool {
    forall|i: int, j: int|
        0 <= i < j < s.len() ==> (#[trigger] s[i]).physical + s[i].plen() <= (#[trigger] s[j]).physical
            || s[j].physical + s[j].plen() <= s[i].physical
}

/// Claims the physical blocks of the extents of a file.
pub(crate) fn claim_extents(
    v: &mut Volume,
    left: &mut Allocator,
    s: &Vec<Extent>,
    ino: Ghost<u64>,
    rb: Ghost<int>,
    good: Ghost<bool>,
) -> (r: Result<()>)
    requires
        old(v).wf(),
        mirrors(*old(v), *old(left)),
        exts_wf(s@, rb@),
        good@ ==> apart(s@) && forall|k: int|
            0 <= k < s@.len() ==> ext_claimable(*old(v), #[trigger] s@[k]),
    ensures
        final(v).wf(),
        mirrors(*final(v), *final(left)),
        loaded_more(*old(v), *final(v), ino@),
        final(v).cache == old(v).cache,
        final(v).image == old(v).image,
        match r {
            Ok(_) => exts_claimed(final(v).owner@, ino@, s@) && forall|b: int| #[trigger]
                final(v).owner@.contains_key(b) && !old(v).owner@.contains_key(b)
                    ==> final(v).owner@[b] is Data && exists|k: int|
                    0 <= k < s@.len() && (#[trigger] s@[k]).physical <= b < s@[k].physical
                        + s@[k].plen(),
            Err(e) => e.is(EIO) && !good@,
        },
{
    let ghost v0 = *v;
    let limit = block_limit();
    let n: usize = s.len();
    let mut k: usize = 0;
    while k < n
        invariant
            k <= n,
            n == s@.len(),
            v0.wf(),
            v0 == *old(v),
            v.wf(),
            limit == max_blocks(),
            limit <= 0x1000_0000_0000,
            mirrors(*v, *left),
            exts_wf(s@, rb@),
            loaded_more(v0, *v, ino@),
            v.cache == v0.cache,
            v.image == v0.image,
            good@ ==> apart(s@) && forall|k: int|
                0 <= k < s@.len() ==> ext_claimable(v0, #[trigger] s@[k]),
            forall|i: int| 0 <= i < k ==> ext_claimed(v.owner@, ino@, #[trigger] s@[i]),
            forall|b: int| #[trigger]
                v.owner@.contains_key(b) && !v0.owner@.contains_key(b) ==> v.owner@[b] is Data
                    && exists|i: int|
                    0 <= i < k && (#[trigger] s@[i]).physical <= b < s@[i].physical + s@[i].plen(),
        decreases n - k,
    {
        let e = s[k];
        let ghost v1 = *v;
        assert(ext_wf(s@[k as int], rb@));
        let len = e.phys_len();
        proof {
            if good@ {
                assert(ext_claimable(v0, s@[k as int]));
                assert forall|b: int| e.physical <= b < e.physical + e.plen() implies #[trigger] claimable(
                    v1,
                    b,
                ) by {
                    assert(claimable(v0, b));
                    if v1.owner@.contains_key(b) {
                        let i = choose|i: int|
                            0 <= i < k && (#[trigger] s@[i]).physical <= b < s@[i].physical
                                + s@[i].plen();
                        assert(s@[i].physical + s@[i].plen() <= s@[k as int].physical
                            || s@[k as int].physical + s@[k as int].plen() <= s@[i].physical);
                    }
                }
            }
        }
        if !claim(v, left, e.physical, len, Ghost(Owner::Data(ino@, e.logical as int))) {
            return Err(eio("extent in use twice"));
        }
        proof {
            assert forall|i: int| 0 <= i < k + 1 implies ext_claimed(
                v.owner@,
                ino@,
                #[trigger] s@[i],
            ) by {
                if i < k {
                    let f = s@[i];
                    assert(ext_claimed(v1.owner@, ino@, s@[i]));
                    assert forall|b: int| f.physical <= b < f.physical + f.plen() implies #[trigger] v.owner@.contains_key(
                        b) && v.owner@[b] == Owner::Data(ino@, f.logical + (b - f.physical)) by {
                        assert(v1.owner@.contains_key(b));
                    }
                }
            }
            assert forall|b: int| #[trigger]
                v.owner@.contains_key(b) && !v0.owner@.contains_key(b) implies v.owner@[b] is Data
                && exists|i: int|
                0 <= i < k + 1 && (#[trigger] s@[i]).physical <= b < s@[i].physical
                    + s@[i].plen() by {
                if e.physical <= b < e.physical + e.plen() {
                    assert(s@[k as int].physical <= b);
                } else {
                    assert(v1.owner@.contains_key(b));
                    let i = choose|i: int|
                        0 <= i < k && (#[trigger] s@[i]).physical <= b < s@[i].physical
                            + s@[i].plen();
                    assert(s@[i].physical <= b);
                }
            }
            assert forall|b: int| b >= 0 implies #[trigger] v.d(b) == v0.d(b) by {
                assert(v1.d(b) == v0.d(b));
            }
        }
        k = k + 1;
    }
    Ok(())
}

} // verus!
