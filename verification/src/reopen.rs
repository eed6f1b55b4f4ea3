//! Mounting an image.


use vstd::prelude::*;

use crate::allocator::Allocator;
use crate::blocks::all_raw;
use crate::bytes::copy_bytes;
use crate::data::lemma_compressed_flag;
use crate::disk::{
    bare_exts, clear, disk_attrs, disk_byte, disk_exts, disk_meta, lemma_disk_exts,
    lemma_same_disk_file, lemma_same_disk_files, tree_len, tree_roundtrip,
};
use crate::error::{eio, Result, EIO};
use crate::extents::{count_sectors, ext_claimed, ext_wf, exts_claimed, exts_wf, record_size_ok};
use crate::flush::lies;
use crate::format::{Extent, FLAG_COMPRESSED};
use crate::inner::{
    fbyte, in_inode, inode_shape, meta_claimed, owned_by, persisted, slot, table_capacity, table_ok,
    Inner,
};
use crate::inode::{inode_roundtrip, parsed_inode, DataKind, Inode, InodeView};
use crate::load::{
    apart, claim, claim_extents, claimable, ext_claimable, extents_ok, loaded_more, mirrors,
    read_tree, resolve_extents,
};
use crate::model::meta_of;
use crate::store::{block_limit, max_blocks};
use crate::table::{lemma_limit, lemma_table_maps};
use crate::types::MAX_FILE_SIZE;
use crate::volume::{unchanged, Owner, Volume};
use crate::xattr::{attrs, decode_xattrs};

verus! {

broadcast use vstd::std_specs::hash::group_hash_axioms;

/// The owners found so far are those of volume `w`.
pub open spec fn agrees(w: Inner, v: Volume) -> bool {
    forall|b: int| #[trigger]
        v.owner@.contains_key(b) ==> w.vol.owner@.contains_key(b) && w.vol.owner@[b] == v.owner@[b]
}

/// The image that is being mounted is one that volume `w` stands in, and what was found so far is
/// what `w` has.
pub open spec fn fits(w: Inner, v: Volume, t: Seq<Extent>, rb: int) -> bool {
    &&& lies(w)
    &&& w.sound()
    &&& clear(w)
    &&& w.table() == t
    &&& w.rb() == rb
    &&& w.vol.lo() == v.lo()
    &&& forall|b: int| b >= 0 ==> #[trigger] v.d(b) == w.vol.d(b)
    &&& forall|b: int| #[trigger]
        w.vol.owner@.contains_key(b) ==> b < v.alloc.total_blocks && !v.alloc.is_free(b)
    &&& agrees(w, v)
}

/// No block was claimed for inode `ino` yet.
pub open spec fn unseen(v: Volume, ino: u64) -> bool {
    forall|b: int| #[trigger] v.owner@.contains_key(b) ==> !owned_by(v.owner@[b], ino)
}

/// A block of `w` that belongs to an inode that was not seen yet can be claimed.
proof fn lemma_claimable(w: Inner, v: Volume, t: Seq<Extent>, rb: int, ino: u64, b: int)
    requires
        fits(w, v, t, rb),
        unseen(v, ino),
        w.vol.owner@.contains_key(b),
        owned_by(w.vol.owner@[b], ino),
    ensures
        claimable(v, b),
{
    assert(w.vol.wf());
}

/// What the inode of number `ino` on disk must satisfy where `w` stands there.
#[verifier::rlimit(40)]
pub proof fn lemma_fits(w: Inner, v: Volume, t: Seq<Extent>, rb: int, ino: u64)
    requires
        fits(w, v, t, rb),
        v.wf(),
        unseen(v, ino),
        0 < ino < w.sb.next_inode,
        parsed_inode(slot(v, t, ino as int)) is Some,
    ensures
        w.inodes@.contains_key(ino),
        ({
            let i = w.inodes@[ino];
            let iv = parsed_inode(slot(v, t, ino as int))->0;
            let d = disk_exts(v, iv);
            &&& iv == i@.stored()
            &&& iv.size <= MAX_FILE_SIZE
            &&& iv.data_kind is Inline ==> iv.inline_data.len() == iv.size
            &&& iv.xattr_block != 0 ==> w.vol.owner@.contains_key(iv.xattr_block as int)
                && w.vol.owner@[iv.xattr_block as int] == Owner::Xattr(ino)
            &&& iv.data_kind is ExtentTree && iv.extent_tree != 0 ==> forall|b: int|
                iv.extent_tree <= b < iv.extent_tree + tree_len(v, iv.extent_tree as int)
                    ==> #[trigger] w.vol.owner@.contains_key(b) && w.vol.owner@[b] == Owner::Tree(
                    ino,
                )
            &&& forall|k: int|
                0 <= k < bare_exts(v, iv).len() ==> v.lo() <= (#[trigger] bare_exts(
                    v,
                    iv,
                )[k]).physical < v.alloc.total_blocks
            &&& exts_wf(d, rb)
            &&& apart(d)
            &&& exts_claimed(w.vol.owner@, ino, d)
        }),
{
    let wv = w.vol;
    let sl = slot(v, t, ino as int);
    assert forall|b: int| b >= 0 implies #[trigger] wv.d(b) == v.d(b) by {}
    lemma_same_disk_files(v, wv, t, w.sb.next_inode as int);
    assert(slot(wv, t, ino as int) == sl);
    if !w.inodes@.contains_key(ino) {
        assert(parsed_inode(slot(wv, t, ino as int)) is None);
    }
    let i = w.inodes@[ino];
    assert(!w.dirty_inodes@.contains(ino));
    assert(persisted(wv, t, i));
    inode_roundtrip(i@, Seq::empty());
    assert(i@.bytes() + Seq::<u8>::empty() =~= i@.bytes());
    let iv = i@.stored();
    lemma_same_disk_file(v, wv, iv);
    if i.data_kind is Inline {
        assert(i@.kept_inline() =~= i.inline_data@);
        assert(bare_exts(v, iv).len() == 0);
        assert(disk_exts(v, iv).len() == 0);
    } else {
        lemma_disk_exts(wv, t, rb, i);
        let d = disk_exts(wv, iv);
        let e = i.extents@;
        assert forall|k: int| 0 <= k < d.len() implies ext_claimed(wv.owner@, ino, #[trigger] d[k])
            && ext_wf(d[k], rb) by {
            assert(ext_claimed(wv.owner@, ino, e[k]));
            assert(ext_wf(e[k], rb));
            assert forall|b: int| d[k].physical <= b < d[k].physical + d[k].plen() implies #[trigger] wv.owner@.contains_key(
                b) && wv.owner@[b] == Owner::Data(ino, d[k].logical + (b - d[k].physical)) by {
                crate::extents::lemma_claimed_at(wv.owner@, ino, e[k], b);
            }
        }
        assert forall|a: int, b: int| 0 <= a < b < d.len() implies (#[trigger] d[a]).lend() <= (
        #[trigger] d[b]).logical by {
            assert(e[a].lend() <= e[b].logical);
        }
        assert forall|a: int, b: int| 0 <= a < b < d.len() implies (#[trigger] d[a]).physical
            + d[a].plen() <= (#[trigger] d[b]).physical || d[b].physical + d[b].plen()
            <= d[a].physical by {
            if !(d[a].physical + d[a].plen() <= d[b].physical || d[b].physical + d[b].plen()
                <= d[a].physical) {
                let x = if d[a].physical >= d[b].physical {
                    d[a].physical as int
                } else {
                    d[b].physical as int
                };
                crate::extents::lemma_claimed_at(wv.owner@, ino, d[a], x);
                crate::extents::lemma_claimed_at(wv.owner@, ino, d[b], x);
                assert(ext_wf(d[a], rb) && ext_wf(d[b], rb));
                assert(d[a].lend() <= d[b].logical);
            }
        }
        assert forall|k: int| 0 <= k < bare_exts(v, iv).len() implies v.lo() <= (
        #[trigger] bare_exts(v, iv)[k]).physical < v.alloc.total_blocks by {
            assert(ext_wf(e[k], rb));
            assert(ext_claimed(wv.owner@, ino, e[k]));
            crate::extents::lemma_claimed_at(wv.owner@, ino, e[k], e[k].physical as int);
        }
        if iv.data_kind is ExtentTree && iv.extent_tree != 0 {
            tree_roundtrip(wv, i);
            assert forall|b: int|
                iv.extent_tree <= b < iv.extent_tree + tree_len(
                    v,
                    iv.extent_tree as int,
                ) implies #[trigger] wv.owner@.contains_key(b) && wv.owner@[b] == Owner::Tree(ino) by {}
        }
    }
    if iv.xattr_block != 0 {
        assert(wv.owner@.contains_key(iv.xattr_block as int));
    }
}

/// An inode that was read from disk has blocks of its own and is in order; what lies behind the
/// end of its data is another matter.
pub open spec fn sits(v: Volume, i: Inode, rb: int) -> bool {
    &&& inode_shape(i, rb)
    &&& exts_claimed(v.owner@, i.ino, i.extents@)
    &&& meta_claimed(v.owner@, i)
}

/// An inode in memory is the one on disk.
pub open spec fn read_from(v0: Volume, iv: InodeView, v1: Volume, i: Inode, rb: int) -> bool {
    &&& meta_of(i) == disk_meta(iv)
    &&& i.size == iv.size
    &&& attrs(i.xattr@) == disk_attrs(v0, iv)
    &&& i.data_kind is Inline <==> iv.data_kind is Inline
    &&& forall|p: int| #[trigger] fbyte(v1, None, rb, i, p) == disk_byte(v0, iv, p)
    &&& !(iv.data_kind is Inline) ==> i.extents@ == disk_exts(v0, iv)
    &&& i.compresses() == iv.compresses()
}

/// Whether one of the extents is a record.
fn any_packed(s: &Vec<Extent>) -> (r: bool)
    ensures
        !r ==> all_raw(s@),
{
    let n: usize = s.len();
    let mut k: usize = 0;
    while k < n
        invariant
            k <= n,
            n == s@.len(),
            forall|i: int| 0 <= i < k ==> (#[trigger] s@[i]).compress == 0,
        decreases n - k,
    {
        if s[k].compress != 0 {
            return true;
        }
        k = k + 1;
    }
    false
}

/// Reads slot `ino` of inode table `t`.
pub(crate) fn read_slot(v: &mut Volume, t: &Vec<Extent>, ino: u64) -> (raw: Vec<u8>)
    requires
        old(v).wf(),
        table_ok(old(v).owner@, t@),
        ino < table_capacity(t@),
    ensures
        final(v).wf(),
        unchanged(*old(v), *final(v)),
        raw@ == slot(*old(v), t@, ino as int),
        raw@.len() == 256,
{
    proof {
        lemma_table_maps(v.owner@, t@, (ino / 16) as int, t@.len() - 1);
        assert forall|k: int| 0 <= k < t@.len() implies (#[trigger] t@[k]).compress == 0
            && t@[k].physical <= max_blocks() by {
            assert(crate::inner::table_ext_claimed(v.owner@, t@[k]));
        }
    }
    let b: u64 = match crate::extents::map_extents(t, ino / 16) {
        Some(b) => b,
        None => 0,
    };
    assert(v.owner@.contains_key(b as int));
    let blk = v.get(b);
    let off: usize = (ino % 16) as usize * 256;
    copy_bytes(vstd::slice::slice_subrange(blk.as_slice(), off, off + 256))
}

/// Claims made for one inode.
proof fn lemma_more(v0: Volume, v1: Volume, v2: Volume, ino: u64)
    requires
        loaded_more(v0, v1, ino),
        loaded_more(v1, v2, ino),
    ensures
        loaded_more(v0, v2, ino),
{
    assert forall|b: int| b >= 0 implies #[trigger] v2.d(b) == v0.d(b) by {
        assert(v1.d(b) == v0.d(b));
    }
    assert forall|b: int| #[trigger]
        v0.owner@.contains_key(b) implies v2.owner@.contains_key(b) && v2.owner@[b]
        == v0.owner@[b] by {
        assert(v1.owner@.contains_key(b));
    }
    assert forall|b: int| #[trigger]
        v2.owner@.contains_key(b) && !v0.owner@.contains_key(b) implies owned_by(
        v2.owner@[b],
        ino,
    ) by {
        if v1.owner@.contains_key(b) {
            assert(v2.owner@[b] == v1.owner@[b]);
        }
    }
}

/// What was found still agrees with `w`.
proof fn lemma_fits_more(w: Inner, v0: Volume, v1: Volume, t: Seq<Extent>, rb: int, ino: u64)
    requires
        fits(w, v0, t, rb),
        loaded_more(v0, v1, ino),
        forall|b: int| #[trigger]
            v1.owner@.contains_key(b) && !v0.owner@.contains_key(b) ==> w.vol.owner@.contains_key(b)
                && w.vol.owner@[b] == v1.owner@[b],
    ensures
        fits(w, v1, t, rb),
{
    assert forall|b: int| b >= 0 implies #[trigger] v1.d(b) == w.vol.d(b) by {
        assert(v0.d(b) == w.vol.d(b));
    }
    assert forall|b: int| #[trigger] v1.owner@.contains_key(b) implies w.vol.owner@.contains_key(b)
        && w.vol.owner@[b] == v1.owner@[b] by {
        if v0.owner@.contains_key(b) {
            assert(v1.owner@[b] == v0.owner@[b]);
        }
    }
}

/// Reads inode `ino` with its attributes and extents, and claims its blocks. Fails with `EIO`
/// where the image is inconsistent.
#[verifier::rlimit(100)]
#[verifier::spinoff_prover]
pub(crate) fn load_inode(
    v: &mut Volume,
    left: &mut Allocator,
    t: &Vec<Extent>,
    ino: u64,
    rb: u32,
    w: Ghost<Inner>,
) -> (r: Result<Option<Inode>>)
    requires
        old(v).wf(),
        mirrors(*old(v), *old(left)),
        table_ok(old(v).owner@, t@),
        0 < ino < table_capacity(t@),
        record_size_ok(rb as int),
        unseen(*old(v), ino),
        fits(w@, *old(v), t@, rb as int) ==> ino < w@.sb.next_inode,
    ensures
        final(v).wf(),
        mirrors(*final(v), *final(left)),
        loaded_more(*old(v), *final(v), ino),
        match r {
            Ok(None) => parsed_inode(slot(*old(v), t@, ino as int)) is None && final(v).owner
                == old(v).owner && (fits(w@, *old(v), t@, rb as int) ==> fits(
                w@,
                *final(v),
                t@,
                rb as int,
            )),
            Ok(Some(i)) => {
                &&& parsed_inode(slot(*old(v), t@, ino as int)) is Some
                &&& i.ino == ino
                &&& sits(*final(v), i, rb as int)
                &&& read_from(
                    *old(v),
                    parsed_inode(slot(*old(v), t@, ino as int))->0,
                    *final(v),
                    i,
                    rb as int,
                )
                &&& fits(w@, *old(v), t@, rb as int) ==> fits(w@, *final(v), t@, rb as int)
                &&& forall|b: int| #[trigger]
                    final(v).owner@.contains_key(b) && !old(v).owner@.contains_key(b)
                        ==> in_inode(i, b, final(v).owner@[b])
            },
            Err(e) => e.is(EIO) && !fits(w@, *old(v), t@, rb as int),
        },
{
    let ghost v0 = *v;
    let ghost good = fits(w@, v0, t@, rb as int);
    let limit = block_limit();
    let raw = read_slot(v, t, ino);
    let ghost v1 = *v;
    proof {
        assert(loaded_more(v0, v1, ino));
        if good {
            lemma_fits_more(w@, v0, v1, t@, rb as int, ino);
        }
    }
    let mut i = match Inode::decode(ino, raw.as_slice()) {
        Ok(i) => i,
        Err(_) => return Ok(None),
    };
    let ghost iv = i@;
    proof {
        lemma_same_disk_file(v0, v1, iv);
        if good {
            lemma_fits(w@, v0, t@, rb as int, ino);
        }
    }
    if i.size > MAX_FILE_SIZE {
        return Err(eio("inode too large"));
    }
    let inline = i.data_kind == DataKind::Inline;
    if inline && i.inline_data.len() as u64 != i.size {
        return Err(eio("bad inline data"));
    }
    if i.xattr_block != 0 {
        if i.xattr_block >= limit {
            proof {
                if good {
                    assert(w@.vol.owner@.contains_key(iv.xattr_block as int));
                }
            }
            return Err(eio("bad attribute block"));
        }
        proof {
            if good {
                lemma_claimable(w@, v1, t@, rb as int, ino, iv.xattr_block as int);
            }
        }
        if !claim(v, left, i.xattr_block, 1, Ghost(Owner::Xattr(ino))) {
            return Err(eio("bad attribute block"));
        }
        let blk = v.get(i.xattr_block);
        i.xattr = decode_xattrs(blk.as_slice());
    }
    let ghost v2 = *v;
    proof {
        assert(loaded_more(v1, v2, ino)) by {
            assert forall|b: int| b >= 0 implies #[trigger] v2.d(b) == v1.d(b) by {}
        }
        lemma_more(v0, v1, v2, ino);
        lemma_same_disk_file(v0, v2, iv);
        assert(attrs(i.xattr@) =~= disk_attrs(v0, iv));
        if good {
            lemma_fits_more(w@, v0, v2, t@, rb as int, ino);
        }
    }
    if i.data_kind == DataKind::ExtentTree && i.extent_tree != 0 {
        proof {
            if good {
                assert forall|b: int|
                    iv.extent_tree <= b < iv.extent_tree + tree_len(
                        v2,
                        iv.extent_tree as int,
                    ) implies #[trigger] claimable(v2, b) by {
                    assert(w@.vol.owner@.contains_key(b));
                    lemma_claimable_at(w@, v2, t@, rb as int, b);
                }
            }
        }
        let (exts, n) = match read_tree(v, left, Ghost(ino), i.extent_tree, Ghost(good)) {
            Ok(x) => x,
            Err(e) => {
                proof {
                    lemma_more(v0, v2, *v, ino);
                }
                return Err(e);
            },
        };
        i.extents = exts;
        i.extent_tree_blocks = n;
    } else {
        i.extent_tree = 0;
        i.extent_tree_blocks = 0;
    }
    let ghost v3 = *v;
    proof {
        lemma_more(v0, v2, v3, ino);
        lemma_same_disk_file(v0, v3, iv);
        assert(i.extents@ == bare_exts(v0, iv));
        if good {
            assert forall|b: int| #[trigger]
                v3.owner@.contains_key(b) && !v2.owner@.contains_key(
                    b,
                ) implies w@.vol.owner@.contains_key(b) && w@.vol.owner@[b] == v3.owner@[b] by {
                assert(iv.data_kind is ExtentTree && iv.extent_tree != 0);
                assert(iv.extent_tree <= b < iv.extent_tree + tree_len(
                    v0,
                    iv.extent_tree as int,
                ));
                assert(w@.vol.owner@.contains_key(b));
            }
            lemma_fits_more(w@, v2, v3, t@, rb as int, ino);
        }
    }
    if i.uses_compression() {
        let found = match resolve_extents(v, &i.extents, Ghost(good)) {
            Ok(x) => x,
            Err(e) => {
                proof {
                    assert(loaded_more(v3, *v, ino));
                    lemma_more(v0, v3, *v, ino);
                }
                return Err(e);
            },
        };
        if any_packed(&found) {
            let ghost f0 = i.flags;
            i.flags = i.flags | FLAG_COMPRESSED;
            proof {
                lemma_compressed_flag(f0);
            }
        }
        i.extents = found;
    } else {
        assert(all_raw(i.extents@)) by {
            lemma_bare_raw(v0, iv);
        }
    }
    let ghost v4 = *v;
    proof {
        assert(loaded_more(v3, v4, ino));
        lemma_more(v0, v3, v4, ino);
        assert(i.extents@ =~= disk_exts(v0, iv)) by {
            lemma_same_disk_file(v0, v3, iv);
        }
        if good {
            lemma_fits_more(w@, v3, v4, t@, rb as int, ino);
        }
    }
    if !extents_ok(&i.extents, rb) {
        return Err(eio("bad extents"));
    }
    proof {
        if good {
            assert forall|k: int| 0 <= k < i.extents@.len() implies ext_claimable(
                v4,
                #[trigger] i.extents@[k],
            ) by {
                let e = i.extents@[k];
                assert(ext_claimed(w@.vol.owner@, ino, disk_exts(v0, iv)[k]));
                assert forall|b: int| e.physical <= b < e.physical + e.plen() implies #[trigger] claimable(
                    v4,
                    b,
                ) by {
                    crate::extents::lemma_claimed_at(w@.vol.owner@, ino, e, b);
                    lemma_claimable_at(w@, v4, t@, rb as int, b);
                }
            }
        }
    }
    match claim_extents(v, left, &i.extents, Ghost(ino), Ghost(rb as int), Ghost(good)) {
        Ok(_) => {},
        Err(e) => {
            proof {
                lemma_more(v0, v4, *v, ino);
            }
            return Err(e);
        },
    }
    i.blocks = count_sectors(&i.extents, Ghost(rb as int));
    proof {
        lemma_more(v0, v4, *v, ino);
        lemma_same_disk_file(v0, *v, iv);
        assert(meta_claimed(v.owner@, i)) by {
            if i.xattr_block != 0 {
                assert(v2.owner@.contains_key(i.xattr_block as int));
                assert(v3.owner@.contains_key(i.xattr_block as int));
                assert(v4.owner@.contains_key(i.xattr_block as int));
            }
            lemma_limit();
            assert forall|b: int|
                i.extent_tree != 0 && i.extent_tree <= b < i.extent_tree
                    + i.extent_tree_blocks implies #[trigger] v.owner@.contains_key(b)
                && v.owner@[b] == Owner::Tree(i.ino) by {
                assert(v3.owner@.contains_key(b));
                assert(v4.owner@.contains_key(b));
            }
        }
        if iv.data_kind is Inline {
            assert(i.extents@.len() == 0);
        }
        assert forall|p: int| #[trigger] fbyte(*v, None, rb as int, i, p) == disk_byte(v0, iv, p) by {
            assert(disk_byte(*v, iv, p) == disk_byte(v0, iv, p));
        }
        if good {
            assert forall|b: int| #[trigger]
                v.owner@.contains_key(b) && !v4.owner@.contains_key(
                    b,
                ) implies w@.vol.owner@.contains_key(b) && w@.vol.owner@[b] == v.owner@[b] by {
                let k = choose|k: int|
                    0 <= k < i.extents@.len() && (#[trigger] i.extents@[k]).physical <= b
                        < i.extents@[k].physical + i.extents@[k].plen();
                let e = i.extents@[k];
                assert(ext_claimed(w@.vol.owner@, ino, disk_exts(v0, iv)[k]));
                crate::extents::lemma_claimed_at(w@.vol.owner@, ino, e, b);
                assert(ext_claimed(v.owner@, ino, i.extents@[k]));
                crate::extents::lemma_claimed_at(v.owner@, ino, e, b);
            }
            lemma_fits_more(w@, v4, *v, t@, rb as int, ino);
        }
        lemma_blocks_in_inode(v1, v2, v3, v4, *v, i, rb as int);
    }
    Ok(Some(i))
}

/// The blocks that were claimed for an inode are in use by it.
proof fn lemma_blocks_in_inode(
    v1: Volume,
    v2: Volume,
    v3: Volume,
    v4: Volume,
    v5: Volume,
    i: Inode,
    rb: int,
)
    requires
        loaded_more(v1, v2, i.ino),
        loaded_more(v2, v3, i.ino),
        loaded_more(v3, v4, i.ino),
        loaded_more(v4, v5, i.ino),
        v4.owner == v3.owner,
        exts_wf(i.extents@, rb),
        exts_claimed(v5.owner@, i.ino, i.extents@),
        forall|b: int| #[trigger]
            v2.owner@.contains_key(b) && !v1.owner@.contains_key(b) ==> i.xattr_block != 0 && b
                == i.xattr_block && v2.owner@[b] == Owner::Xattr(i.ino),
        forall|b: int| #[trigger]
            v3.owner@.contains_key(b) && !v2.owner@.contains_key(b) ==> i.extent_tree != 0
                && i.extent_tree <= b < i.extent_tree + i.extent_tree_blocks && v3.owner@[b]
                == Owner::Tree(i.ino),
        forall|b: int| #[trigger]
            v5.owner@.contains_key(b) && !v4.owner@.contains_key(b) ==> exists|k: int|
                0 <= k < i.extents@.len() && (#[trigger] i.extents@[k]).physical <= b
                    < i.extents@[k].physical + i.extents@[k].plen(),
    ensures
        forall|b: int| #[trigger]
            v5.owner@.contains_key(b) && !v1.owner@.contains_key(b) ==> in_inode(
                i,
                b,
                v5.owner@[b],
            ),
{
    assert forall|b: int| #[trigger]
        v5.owner@.contains_key(b) && !v1.owner@.contains_key(b) implies in_inode(
        i,
        b,
        v5.owner@[b],
    ) by {
        if !v4.owner@.contains_key(b) {
            let k = choose|k: int|
                0 <= k < i.extents@.len() && (#[trigger] i.extents@[k]).physical <= b
                    < i.extents@[k].physical + i.extents@[k].plen();
            let e = i.extents@[k];
            assert(ext_wf(i.extents@[k], rb));
            assert(ext_claimed(v5.owner@, i.ino, i.extents@[k]));
            crate::extents::lemma_claimed_at(v5.owner@, i.ino, e, b);
            crate::extents::lemma_find(i.extents@, k, e.logical + (b - e.physical));
        } else {
            assert(v5.owner@[b] == v4.owner@[b]);
            if v2.owner@.contains_key(b) {
                assert(v3.owner@[b] == v2.owner@[b]);
            }
        }
    }
}

/// A block that `w` owns and nobody claimed can be claimed.
proof fn lemma_claimable_at(w: Inner, v: Volume, t: Seq<Extent>, rb: int, b: int)
    requires
        fits(w, v, t, rb),
        w.vol.owner@.contains_key(b),
        !v.owner@.contains_key(b),
    ensures
        claimable(v, b),
{
    assert(w.vol.wf());
}

/// Extents come from disk as raw ones.
proof fn lemma_bare_raw(v: Volume, iv: InodeView)
    requires
        forall|k: int| 0 <= k < iv.extents.len() ==> (#[trigger] iv.extents[k]).compress == 0,
    ensures
        all_raw(bare_exts(v, iv)),
{
}

} // verus!
