//! Inspecting inodes that were read from disk.

use vstd::prelude::*;

use crate::bytes::{bytes_equal, pad_to};
use crate::extents::{
    ext_claimed, ext_wf, exts_claimed, exts_wf, find_ext, lemma_claimed_at, lemma_find,
    lemma_find_some, packed_data, record_size_ok, ubyte, MAX_FILE_BLOCKS,
};
use crate::format::{Extent, MAX_DIRECT_EXTENTS};
use crate::inner::{meta_claimed, persisted, slot, tree_stands};
use crate::inode::{DataKind, Inode};
use crate::persist::lemma_extents_count;
use crate::records::read_compressed_extent;
use crate::tree::{make_tree_block, tree_block, tree_blocks};
use crate::types::MAX_FILE_SIZE;
use crate::volume::{unchanged, Volume};
use crate::xattr::encode_xattrs;

verus! {

/// Whether the bytes of `b` from `from` up to `to` are zero.
fn zero_between(b: &Vec<u8>, from: usize, to: usize) -> (r: bool)
    requires
        to <= b@.len(),
    ensures
        r ==> forall|i: int| from <= i < to ==> #[trigger] b@[i] == 0,
        !r ==> exists|i: int| from <= i < to && #[trigger] b@[i] != 0,
{
    let mut i: usize = from;
    while i < to
        invariant
            from <= i,
            to <= b@.len(),
            forall|k: int| from <= k < i ==> #[trigger] b@[k] == 0,
        decreases to - i,
    {
        if b[i] != 0 {
            assert(b@[i as int] != 0);
            return false;
        }
        i = i + 1;
    }
    true
}

/// The bytes of extent `k` from `from` on are zero.
spec fn ext_zero(v: Volume, s: Seq<Extent>, k: int, from: int) -> bool {
    forall|p: int|
        from <= p && s[k].logical * 4096 <= p < s[k].lend() * 4096 ==> #[trigger] ubyte(v, s, p)
            == 0
}

/// A byte in extent `k` is found there.
proof fn lemma_ext_byte(v: Volume, s: Seq<Extent>, rb: int, k: int, p: int)
    requires
        exts_wf(s, rb),
        0 <= k < s.len(),
        s[k].logical * 4096 <= p < s[k].lend() * 4096,
    ensures
        s[k].compress == 0 ==> ubyte(v, s, p) == v.d(s[k].physical + (p / 4096 - s[k].logical))[p
            % 4096],
        s[k].compress != 0 ==> ubyte(v, s, p) == ({
            let d = packed_data(v, s[k]);
            let q = p - s[k].logical * 4096;
            if q < d.len() {
                d[q]
            } else {
                0
            }
        }),
{
    let l = p / 4096;
    assert(s[k].has(l));
    lemma_find(s, k, l);
    assert(ext_wf(s[k], rb));
}

/// Whether extent `k` holds nothing but zeros from byte `size` of the file on.
fn raw_ends_clean(
    v: &mut Volume,
    s: &Vec<Extent>,
    k: usize,
    size: u64,
    ino: Ghost<u64>,
    rb: Ghost<int>,
) -> (r: bool)
    requires
        old(v).wf(),
        exts_wf(s@, rb@),
        exts_claimed(old(v).owner@, ino@, s@),
        k < s@.len(),
        s@[k as int].compress == 0,
        size <= MAX_FILE_SIZE,
    ensures
        final(v).wf(),
        unchanged(*old(v), *final(v)),
        r ==> ext_zero(*old(v), s@, k as int, size as int),
        !r ==> exists|p: int| p >= size && #[trigger] ubyte(*old(v), s@, p) != 0,
{
    let ghost v0 = *v;
    let e = s[k];
    proof {
        assert(ext_wf(s@[k as int], rb@));
        assert(ext_claimed(v0.owner@, ino@, s@[k as int]));
    }
    let end: u64 = e.logical + e.length as u64;
    let first: u64 = size / 4096;
    let mut l: u64 = if e.logical >= first {
        e.logical
    } else {
        first
    };
    while l < end
        invariant
            v.wf(),
            unchanged(v0, *v),
            v0.wf(),
            v0 == *old(v),
            exts_wf(s@, rb@),
            k < s@.len(),
            e == s@[k as int],
            e.compress == 0,
            ext_wf(e, rb@),
            ext_claimed(v0.owner@, ino@, e),
            end == e.lend(),
            first == size / 4096,
            e.logical <= l,
            first <= l,
            forall|p: int|
                size <= p && e.logical * 4096 <= p < l * 4096 ==> #[trigger] ubyte(v0, s@, p) == 0,
        decreases end - l,
    {
        let ghost b = e.physical + (l - e.logical);
        proof {
            lemma_claimed_at(v0.owner@, ino@, e, b);
        }
        let blk = v.get(e.physical + (l - e.logical));
        assert(blk@ == v0.d(b));
        let from: usize = if l * 4096 < size {
            (size - l * 4096) as usize
        } else {
            0
        };
        if !zero_between(&blk, from, 4096) {
            proof {
                let q = choose|q: int| from <= q < 4096 && #[trigger] blk@[q] != 0;
                let p = l * 4096 + q;
                lemma_ext_byte(v0, s@, rb@, k as int, p);
                assert(ubyte(v0, s@, p) != 0);
            }
            return false;
        }
        proof {
            assert forall|p: int|
                size <= p && e.logical * 4096 <= p < (l + 1) * 4096 implies #[trigger] ubyte(
                v0,
                s@,
                p,
            ) == 0 by {
                if p >= l * 4096 {
                    lemma_ext_byte(v0, s@, rb@, k as int, p);
                    assert(blk@[p % 4096] == 0);
                }
            }
        }
        l = l + 1;
    }
    true
}

/// Whether extent `k`, a record, holds nothing but zeros from byte `size` of the file on.
fn packed_ends_clean(
    v: &mut Volume,
    s: &Vec<Extent>,
    k: usize,
    size: u64,
    ino: Ghost<u64>,
    rb: Ghost<int>,
) -> (r: bool)
    requires
        old(v).wf(),
        record_size_ok(rb@),
        exts_wf(s@, rb@),
        exts_claimed(old(v).owner@, ino@, s@),
        k < s@.len(),
        s@[k as int].compress != 0,
        size <= MAX_FILE_SIZE,
    ensures
        final(v).wf(),
        unchanged(*old(v), *final(v)),
        r ==> ext_zero(*old(v), s@, k as int, size as int),
        !r ==> exists|p: int| p >= size && #[trigger] ubyte(*old(v), s@, p) != 0,
{
    let ghost v0 = *v;
    let e = s[k];
    proof {
        assert(ext_wf(s@[k as int], rb@));
        assert(ext_claimed(v0.owner@, ino@, s@[k as int]));
        lemma_claimed_at(v0.owner@, ino@, e, e.physical as int);
        lemma_claimed_at(v0.owner@, ino@, e, e.physical + e.plen() - 1);
    }
    let d = match read_compressed_extent(v, &e, rb) {
        Ok(d) => d,
        Err(_) => {
            proof {
                assert(packed_data(v0, e).len() == 0);
                assert forall|p: int|
                    size <= p && e.logical * 4096 <= p < e.lend() * 4096 implies #[trigger] ubyte(
                    v0,
                    s@,
                    p,
                ) == 0 by {
                    lemma_ext_byte(v0, s@, rb@, k as int, p);
                }
            }
            return true;
        },
    };
    let start: u64 = e.logical * 4096;
    let from: u64 = if size > start {
        size - start
    } else {
        0
    };
    let room: u64 = e.length as u64 * 4096;
    let to: usize = if (d.len() as u64) < room {
        d.len()
    } else {
        room as usize
    };
    if from >= to as u64 {
        proof {
            assert forall|p: int|
                size <= p && e.logical * 4096 <= p < e.lend() * 4096 implies #[trigger] ubyte(
                v0,
                s@,
                p,
            ) == 0 by {
                lemma_ext_byte(v0, s@, rb@, k as int, p);
            }
        }
        return true;
    }
    if !zero_between(&d, from as usize, to) {
        proof {
            let q = choose|q: int| from <= q < to && #[trigger] d@[q] != 0;
            let p = e.logical * 4096 + q;
            lemma_ext_byte(v0, s@, rb@, k as int, p);
            assert(ubyte(v0, s@, p) != 0);
        }
        return false;
    }
    proof {
        assert forall|p: int|
            size <= p && e.logical * 4096 <= p < e.lend() * 4096 implies #[trigger] ubyte(
            v0,
            s@,
            p,
        ) == 0 by {
            lemma_ext_byte(v0, s@, rb@, k as int, p);
            let q = p - e.logical * 4096;
            if q < d@.len() {
                assert(d@[q] == 0);
            }
        }
    }
    true
}

/// Whether a file with these extents holds nothing but zeros from byte `size` on.
pub(crate) fn ends_clean(
    v: &mut Volume,
    s: &Vec<Extent>,
    size: u64,
    ino: Ghost<u64>,
    rb: Ghost<int>,
) -> (r: bool)
    requires
        old(v).wf(),
        record_size_ok(rb@),
        exts_wf(s@, rb@),
        exts_claimed(old(v).owner@, ino@, s@),
        size <= MAX_FILE_SIZE,
    ensures
        final(v).wf(),
        unchanged(*old(v), *final(v)),
        r ==> forall|p: int| p >= size ==> #[trigger] ubyte(*old(v), s@, p) == 0,
        !r ==> exists|p: int| p >= size && #[trigger] ubyte(*old(v), s@, p) != 0,
{
    let ghost v0 = *v;
    let n: usize = s.len();
    let mut k: usize = 0;
    while k < n
        invariant
            v.wf(),
            unchanged(v0, *v),
            v0 == *old(v),
            v0.wf(),
            record_size_ok(rb@),
            exts_wf(s@, rb@),
            exts_claimed(v0.owner@, ino@, s@),
            size <= MAX_FILE_SIZE,
            n == s@.len(),
            k <= n,
            forall|j: int| 0 <= j < k ==> #[trigger] ext_zero(v0, s@, j, size as int),
        decreases n - k,
    {
        let ghost va = *v;
        proof {
            assert forall|p: int| #[trigger] ubyte(va, s@, p) == ubyte(v0, s@, p) by {
                lemma_same_bytes_at(v0, va, s@, p);
            }
        }
        let ok = if s[k].compress == 0 {
            raw_ends_clean(v, s, k, size, ino, rb)
        } else {
            packed_ends_clean(v, s, k, size, ino, rb)
        };
        if !ok {
            proof {
                let p = choose|p: int| p >= size && #[trigger] ubyte(va, s@, p) != 0;
                assert(ubyte(v0, s@, p) != 0);
            }
            return false;
        }
        proof {
            assert(ext_zero(v0, s@, k as int, size as int)) by {
                assert forall|p: int|
                    size <= p && s@[k as int].logical * 4096 <= p < s@[k as int].lend()
                        * 4096 implies #[trigger] ubyte(v0, s@, p) == 0 by {
                    assert(ubyte(va, s@, p) == 0);
                }
            }
        }
        k = k + 1;
    }
    proof {
        assert forall|p: int| p >= size implies #[trigger] ubyte(v0, s@, p) == 0 by {
            let l = p / 4096;
            lemma_find_some(s@, l);
            match find_ext(s@, l) {
                Some(e) => {
                    let j = s@.index_of(e);
                    assert(ext_zero(v0, s@, j, size as int));
                },
                None => {},
            }
        }
    }
    true
}

/// A byte of a file reads the same where all blocks do.
pub proof fn lemma_same_bytes_at(v0: Volume, v1: Volume, s: Seq<Extent>, p: int)
    requires
        forall|b: int| b >= 0 ==> #[trigger] v1.d(b) == v0.d(b),
    ensures
        ubyte(v1, s, p) == ubyte(v0, s, p),
{
    lemma_find_some(s, p / 4096);
    crate::extents::lemma_ublock_same(v0, v1, s, p / 4096);
}

/// Whether the disk holds an inode as it is; `raw` is its slot in the table.
pub(crate) fn stands_on_disk(
    v: &mut Volume,
    t: Ghost<Seq<Extent>>,
    raw: &Vec<u8>,
    i: &Inode,
    rb: Ghost<int>,
) -> (r: bool)
    requires
        old(v).wf(),
        raw@ == slot(*old(v), t@, i.ino as int),
        exts_wf(i.extents@, rb@),
        meta_claimed(old(v).owner@, *i),
    ensures
        final(v).wf(),
        unchanged(*old(v), *final(v)),
        r ==> persisted(*old(v), t@, *i),
{
    let ghost v0 = *v;
    if i.extents.len() as u64 > u32::MAX as u64 {
        return false;
    }
    let enc = i.encode();
    if !bytes_equal(raw.as_slice(), enc.as_slice()) {
        return false;
    }
    if i.xattr.len() == 0 {
        if i.xattr_block != 0 {
            return false;
        }
    } else {
        if i.xattr_block == 0 {
            return false;
        }
        let mut x = encode_xattrs(i.xattr.as_slice());
        if x.len() > 4096 {
            return false;
        }
        pad_to(&mut x, 4096);
        let blk = v.get(i.xattr_block);
        if !bytes_equal(x.as_slice(), blk.as_slice()) {
            return false;
        }
    }
    let n: usize = i.extents.len();
    if n <= MAX_DIRECT_EXTENTS {
        return i.extent_tree == 0 && i.data_kind != DataKind::ExtentTree;
    }
    proof {
        lemma_extents_count(i.extents@, rb@);
    }
    let want: u64 = (n as u64 + 203) / 204;
    if i.extent_tree == 0 || i.data_kind != DataKind::ExtentTree || i.extent_tree_blocks as u64
        != want {
        return false;
    }
    let mut b: u64 = 0;
    while b < want
        invariant
            v.wf(),
            unchanged(v0, *v),
            v0 == *old(v),
            v0.wf(),
            meta_claimed(v0.owner@, *i),
            i.extent_tree != 0,
            i.extents@.len() <= MAX_FILE_BLOCKS,
            want == tree_blocks(i.extents@.len() as int),
            want == i.extent_tree_blocks,
            b <= want,
            forall|j: int|
                i.extent_tree <= j < i.extent_tree + b ==> #[trigger] v0.d(j) == tree_block(
                    i.extents@,
                    want as int,
                    j - i.extent_tree,
                ),
        decreases want - b,
    {
        assert(v0.owner@.contains_key(i.extent_tree + b));
        let blk = v.get(i.extent_tree + b);
        let made = make_tree_block(&i.extents, want, b);
        if !bytes_equal(made.as_slice(), blk.as_slice()) {
            return false;
        }
        b = b + 1;
    }
    assert(tree_stands(v0, *i));
    true
}

} // verus!
