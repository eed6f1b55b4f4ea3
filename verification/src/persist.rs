//! Writing inodes to disk: their attributes, their extent trees, and their slots in the table.

use vstd::prelude::*;

use crate::bytes::{pad_to, padded};
use crate::data::lemma_same_view;
use crate::error::{eio, Error, Result, EFBIG, ENOSPC, ERANGE};
use crate::extents::{exts_readable, exts_wf, lemma_exts_kept, ubyte, MAX_FILE_BLOCKS};
use crate::format::{Extent, FLAG_COMPRESSED, FLAG_HAS_XATTR, MAX_DIRECT_EXTENTS};
use crate::inner::{
    all_bare, content, fbyte, in_place, inode_ok, inode_shape, keeps, lemma_bare_put,
    lemma_inode_own, lemma_persisted_own, lemma_table_kept, meta_claimed, node_of, own_kept,
    persisted, places_ok, rc_ok, slot, synced, tree_stands, Inner,
};
use crate::inode::{parsed_inode, DataKind, Inode};
use crate::store::{extends, max_blocks};
use crate::table::{lemma_base, lemma_limit, lemma_slot_patched, lemma_table_maps, unlist};
use crate::tree::{make_tree_block, tree_block, tree_blocks};
use crate::volume::{base_kept, table_kept, Owner, Owners, Volume};
use crate::xattr::{attrs, encode_xattrs, xattr_bytes};

verus! {

broadcast use {crate::store::group_extends, vstd::std_specs::hash::group_hash_axioms};

/// The flag that says that an inode has extended attributes is independent of the others.
pub proof fn lemma_xattr_flag(flags: u32)
    ensures
        (flags | FLAG_HAS_XATTR) & FLAG_COMPRESSED == flags & FLAG_COMPRESSED,
        (flags & !FLAG_HAS_XATTR) & FLAG_COMPRESSED == flags & FLAG_COMPRESSED,
{
    assert((flags | 1u32) & 8u32 == flags & 8u32) by (bit_vector);
    assert((flags & !1u32) & 8u32 == flags & 8u32) by (bit_vector);
}

/// An inode that needs no blocks but those of its data.
pub open spec fn plain(i: Inode) -> bool {
    i.xattr@.len() == 0 && i.xattr_block == 0 && i.extent_tree == 0 && i.extents@.len()
        <= MAX_DIRECT_EXTENTS
}

/// All blocks but those of owner `o` are left alone.
pub open spec fn kept_but(v0: Volume, v1: Volume, o: Owner) -> bool {
    &&& base_kept(v0, v1)
    &&& forall|b: int| #[trigger]
        v0.owner@.contains_key(b) && !(v0.owner@[b] is Fresh) && v0.owner@[b] != o
            ==> v1.owner@.contains_key(b) && v1.owner@[b] == v0.owner@[b] && v1.d(b) == v0.d(b)
    &&& forall|b: int| #[trigger]
        v1.owner@.contains_key(b) && v1.owner@[b] != o ==> v0.owner@.contains_key(b)
            && v0.owner@[b] == v1.owner@[b]
}

/// The blocks of an inode that hold no file data are those that it names, and no others.
pub open spec fn meta_only(m: Owners, i: Inode) -> bool {
    forall|b: int| #[trigger]
        m.contains_key(b) ==> (m[b] == Owner::Xattr(i.ino) ==> i.xattr_block != 0 && b
            == i.xattr_block) && (m[b] == Owner::Tree(i.ino) ==> i.extent_tree != 0 && i.extent_tree
            <= b < i.extent_tree + i.extent_tree_blocks)
}

/// The attributes of an inode stand on disk.
pub open spec fn attrs_stand(v: Volume, i: Inode) -> bool {
    if i.xattr@.len() == 0 {
        i.xattr_block == 0
    } else {
        i.xattr_block != 0 && xattr_bytes(attrs(i.xattr@)).len() <= 4096 && v.d(
            i.xattr_block as int,
        ) == padded(xattr_bytes(attrs(i.xattr@)), 4096)
    }
}

/// Writes the attributes of an inode into a block of their own; fails with `ERANGE` where they
/// do not fit.
fn store_xattrs(vol: &mut Volume, i: &mut Inode) -> (r: Result<()>)
    requires
        old(vol).wf(),
        meta_claimed(old(vol).owner@, *old(i)),
    ensures
        final(vol).end() <= old(vol).end() + 2,
        match r {
            Ok(_) => {
                &&& final(vol).wf()
                &&& kept_but(*old(vol), *final(vol), Owner::Xattr(old(i).ino))
                &&& meta_claimed(final(vol).owner@, *final(i))
                &&& attrs_stand(*final(vol), *final(i))
                &&& *final(i) == (Inode {
                    xattr_block: final(i).xattr_block,
                    flags: final(i).flags,
                    ..*old(i)
                })
                &&& final(i).flags & FLAG_COMPRESSED == old(i).flags & FLAG_COMPRESSED
                &&& plain(*old(i)) ==> *final(vol) == *old(vol) && plain(*final(i))
                &&& meta_only(old(vol).owner@, *old(i)) ==> meta_only(
                    final(vol).owner@,
                    *final(i),
                )
            },
            Err(e) => {
                &&& *final(vol) == *old(vol)
                &&& *final(i) == *old(i)
                &&& ({
                    ||| e.is(ERANGE) && old(i).xattr@.len() > 0 && xattr_bytes(
                        attrs(old(i).xattr@),
                    ).len() > 4096
                    ||| e.is(ENOSPC) && old(i).xattr@.len() > 0 && old(vol).full(2)
                })
            },
        },
{
    let ghost v0 = *vol;
    let ghost i0 = *i;
    let ghost ino = i.ino;
    proof {
        lemma_xattr_flag(i0.flags);
        lemma_limit();
    }
    if i.xattr.len() == 0 {
        if i.xattr_block != 0 {
            proof {
                assert(v0.owner@.contains_key(i.xattr_block as int));
            }
            vol.release(i.xattr_block, 1);
            i.xattr_block = 0;
            i.flags = i.flags & !FLAG_HAS_XATTR;
            proof {
                assert forall|b: int|
                    i.extent_tree != 0 && i.extent_tree <= b < i.extent_tree
                        + i.extent_tree_blocks implies #[trigger] vol.owner@.contains_key(b)
                    && vol.owner@[b] == Owner::Tree(i.ino) by {
                    assert(v0.owner@.contains_key(b));
                }
            }
        }
        return Ok(());
    }
    let mut blob = encode_xattrs(i.xattr.as_slice());
    if blob.len() > 4096 {
        return Err(Error::from_errno(ERANGE));
    }
    pad_to(&mut blob, 4096);
    let mut xb: u64 = i.xattr_block;
    if xb == 0 {
        xb = match vol.allocate(1, Ghost(Owner::Xattr(ino))) {
            Ok(b) => b,
            Err(e) => return Err(e),
        };
        i.xattr_block = xb;
        i.flags = i.flags | FLAG_HAS_XATTR;
    } else {
        proof {
            assert(v0.owner@.contains_key(xb as int));
        }
    }
    let ghost v1 = *vol;
    assert(v1.owner@.contains_key(xb as int) && v1.owner@[xb as int] == Owner::Xattr(ino));
    vol.put(xb, blob);
    proof {
        assert forall|b: int| #[trigger]
            v0.owner@.contains_key(b) && !(v0.owner@[b] is Fresh) && v0.owner@[b] != Owner::Xattr(
                ino,
            ) implies vol.owner@.contains_key(b) && vol.owner@[b] == v0.owner@[b] && vol.d(b)
            == v0.d(b) by {
            assert(b >= 0);
            assert(v1.owner@[b] == v0.owner@[b]);
            assert(b != xb);
            assert(vol.d(b) == v1.d(b));
        }
        if i0.xattr_block == 0 {
            lemma_base(v0, v1, v1, *vol);
        }
        assert forall|b: int|
            i.extent_tree != 0 && i.extent_tree <= b < i.extent_tree
                + i.extent_tree_blocks implies #[trigger] vol.owner@.contains_key(b)
            && vol.owner@[b] == Owner::Tree(i.ino) by {
            assert(v0.owner@.contains_key(b));
        }
    }
    Ok(())
}

/// The extents of an inode stand on disk: in its slot, or in a tree.
pub open spec fn extents_stand(v: Volume, i: Inode) -> bool {
    &&& i.extents@.len() <= u32::MAX
    &&& if i.extents@.len() <= MAX_DIRECT_EXTENTS {
        i.extent_tree == 0 && !(i.data_kind is ExtentTree)
    } else {
        &&& i.extent_tree != 0
        &&& i.data_kind is ExtentTree
        &&& tree_stands(v, i)
    }
}

/// Writes the blocks of a tree.
fn write_tree(vol: &mut Volume, tree: u64, n: u64, exts: &Vec<Extent>, o: Ghost<Owner>)
    requires
        old(vol).wf(),
        exts@.len() <= MAX_FILE_BLOCKS,
        n == tree_blocks(exts@.len() as int),
        old(vol).lo() <= tree,
        tree + n <= max_blocks(),
        forall|b: int|
            tree <= b < tree + n ==> #[trigger] old(vol).owner@.contains_key(b) && old(vol).owner@[b]
                == o@,
    ensures
        final(vol).wf(),
        final(vol).owner == old(vol).owner,
        final(vol).alloc == old(vol).alloc,
        base_kept(*old(vol), *final(vol)),
        forall|b: int|
            b >= 0 && !(tree <= b < tree + n) ==> #[trigger] final(vol).d(b) == old(vol).d(b),
        forall|b: int|
            tree <= b < tree + n ==> #[trigger] final(vol).d(b) == tree_block(
                exts@,
                n as int,
                b - tree,
            ),
{
    let ghost v0 = *vol;
    let mut k: u64 = 0;
    while k < n
        invariant
            k <= n,
            n == tree_blocks(exts@.len() as int),
            exts@.len() <= MAX_FILE_BLOCKS,
            tree + n <= max_blocks(),
            max_blocks() <= u64::MAX,
            vol.wf(),
            v0.lo() <= tree,
            vol.owner == v0.owner,
            vol.alloc == v0.alloc,
            v0 == *old(vol),
            k > 0 ==> base_kept(v0, *vol),
            k == 0 ==> *vol == v0,
            forall|b: int|
                b >= 0 && !(tree <= b < tree + k) ==> #[trigger] vol.d(b) == v0.d(b),
            forall|b: int|
                tree <= b < tree + k ==> #[trigger] vol.d(b) == tree_block(
                    exts@,
                    n as int,
                    b - tree,
                ),
        decreases n - k,
    {
        let blk = make_tree_block(exts, n, k);
        let ghost v1 = *vol;
        vol.put(tree + k, blk);
        proof {
            if k > 0 {
                lemma_base(v0, v1, v1, *vol);
            }
            assert forall|b: int| tree <= b < tree + k + 1 implies #[trigger] vol.d(b)
                == tree_block(exts@, n as int, b - tree) by {
                if b < tree + k {
                    assert(vol.d(b) == v1.d(b));
                }
            }
            assert forall|b: int| b >= 0 && !(tree <= b < tree + k + 1) implies #[trigger] vol.d(b)
                == v0.d(b) by {
                assert(vol.d(b) == v1.d(b));
            }
        }
        k = k + 1;
    }
}

/// Writes the extents of an inode that do not fit into it into a tree.
#[verifier::rlimit(40)]
fn store_extent_tree(vol: &mut Volume, i: &mut Inode, rb: Ghost<int>) -> (r: Result<()>)
    requires
        old(vol).wf(),
        meta_claimed(old(vol).owner@, *old(i)),
        inode_shape(*old(i), rb@),
    ensures
        final(vol).end() <= old(vol).end() + 2 * tree_blocks(old(i).extents@.len() as int),
        match r {
            Ok(_) => {
                &&& final(vol).wf()
                &&& kept_but(*old(vol), *final(vol), Owner::Tree(old(i).ino))
                &&& meta_claimed(final(vol).owner@, *final(i))
                &&& extents_stand(*final(vol), *final(i))
                &&& *final(i) == (Inode {
                    extent_tree: final(i).extent_tree,
                    extent_tree_blocks: final(i).extent_tree_blocks,
                    data_kind: final(i).data_kind,
                    ..*old(i)
                })
                &&& final(i).data_kind is Inline <==> old(i).data_kind is Inline
                &&& plain(*old(i)) ==> *final(vol) == *old(vol) && plain(*final(i))
                &&& meta_only(old(vol).owner@, *old(i)) ==> meta_only(
                    final(vol).owner@,
                    *final(i),
                )
            },
            Err(e) => {
                &&& *final(vol) == *old(vol)
                &&& *final(i) == *old(i)
                &&& old(i).extents@.len() > MAX_DIRECT_EXTENTS
                &&& ({
                    ||| e.is(EFBIG) && extents_too_many(*old(i))
                    ||| e.is(ENOSPC) && old(vol).full(
                        2 * tree_blocks(old(i).extents@.len() as int),
                    )
                })
            },
        },
{
    let ghost v0 = *vol;
    let ghost i0 = *i;
    let ghost ino = i.ino;
    let old_tree = i.extent_tree;
    let old_n = i.extent_tree_blocks;
    proof {
        lemma_limit();
        lemma_extents_count(i0.extents@, rb@);
    }
    let n: usize = i.extents.len();
    let mut tree: u64 = 0;
    let mut blocks: u64 = 0;
    if n > MAX_DIRECT_EXTENTS {
        if n as u64 > u32::MAX as u64 {
            return Err(Error::from_errno(EFBIG));
        }
        blocks = (n as u64 + 203) / 204;
        tree = match vol.allocate(blocks, Ghost(Owner::Tree(ino))) {
            Ok(b) => b,
            Err(e) => return Err(e),
        };
        let ghost v1 = *vol;
        assert forall|b: int| tree <= b < tree + blocks implies #[trigger] vol.owner@.contains_key(
            b,
        ) && vol.owner@[b] == Owner::Tree(ino) by {}
        write_tree(vol, tree, blocks, &i.extents, Ghost(Owner::Tree(ino)));
        proof {
            lemma_base(v0, v1, v1, *vol);
            assert forall|b: int| #[trigger]
                v0.owner@.contains_key(b) && !(v0.owner@[b] is Fresh) implies vol.owner@.contains_key(
                b) && vol.owner@[b] == v0.owner@[b] && vol.d(b) == v0.d(b) by {
                assert(b >= 0);
                assert(!(tree <= b < tree + blocks));
            }
        }
    }
    let ghost v2 = *vol;
    if old_tree != 0 {
        proof {
            assert forall|b: int| old_tree <= b < old_tree + old_n implies #[trigger] v2.owner@.contains_key(
                b) && v2.owner@[b] == Owner::Tree(ino) by {
                assert(v0.owner@.contains_key(b));
            }
        }
        vol.release(old_tree, old_n);
    }
    i.extent_tree = tree;
    i.extent_tree_blocks = blocks;
    if i.data_kind != DataKind::Inline {
        i.data_kind = crate::data::kind_for(n);
    }
    proof {
        if n > MAX_DIRECT_EXTENTS && old_tree != 0 {
            lemma_base(v0, v2, v2, *vol);
        }
        assert forall|b: int| #[trigger]
            v0.owner@.contains_key(b) && !(v0.owner@[b] is Fresh) && v0.owner@[b] != Owner::Tree(
                ino,
            ) implies vol.owner@.contains_key(b) && vol.owner@[b] == v0.owner@[b] && vol.d(b)
            == v0.d(b) by {
            assert(b >= 0);
            if old_tree != 0 && old_tree <= b < old_tree + old_n {
                assert(v0.owner@[b] == Owner::Tree(ino));
            }
            assert(v2.owner@.contains_key(b));
        }
        assert(meta_claimed(vol.owner@, *i)) by {
            if i.xattr_block != 0 {
                assert(v0.owner@.contains_key(i.xattr_block as int));
            }
            assert forall|b: int|
                i.extent_tree != 0 && i.extent_tree <= b < i.extent_tree
                    + i.extent_tree_blocks implies #[trigger] vol.owner@.contains_key(b)
                && vol.owner@[b] == Owner::Tree(i.ino) by {
                assert(v2.owner@.contains_key(b));
                assert(!v0.owner@.contains_key(b));
                if old_tree != 0 && old_tree <= b < old_tree + old_n {
                    assert(v0.owner@.contains_key(b));
                }
            }
        }
        if n > MAX_DIRECT_EXTENTS {
            assert forall|b: int|
                i.extent_tree <= b < i.extent_tree + i.extent_tree_blocks implies #[trigger] vol.d(b)
                == tree_block(i.extents@, i.extent_tree_blocks as int, b - i.extent_tree) by {
                assert(v2.d(b) == tree_block(i.extents@, blocks as int, b - tree));
            }
        }
    }
    Ok(())
}

/// There are no more extents than blocks they can cover.
pub proof fn lemma_extents_count(s: Seq<Extent>, rb: int)
    requires
        exts_wf(s, rb),
    ensures
        s.len() <= if s.len() == 0 {
            0
        } else {
            s.last().lend()
        },
        s.len() <= MAX_FILE_BLOCKS,
    decreases s.len(),
{
    if s.len() > 0 {
        let t = s.drop_last();
        assert(exts_wf(t, rb)) by {
            assert forall|i: int, j: int| 0 <= i < j < t.len() implies (#[trigger] t[i]).lend() <= (
            #[trigger] t[j]).logical by {
                assert(s[i].lend() <= s[j].logical);
            }
            assert forall|i: int| 0 <= i < t.len() implies crate::extents::ext_wf(
                #[trigger] t[i],
                rb,
            ) by {
                assert(crate::extents::ext_wf(s[i], rb));
            }
        }
        lemma_extents_count(t, rb);
        assert(crate::extents::ext_wf(s[s.len() - 1], rb));
        if t.len() > 0 {
            assert(s[t.len() - 1].lend() <= s[s.len() - 1].logical);
        }
    }
}

/// Inode `i1` is inode `i0`, but for where it keeps what is not file data.
pub open spec fn same_file(i0: Inode, i1: Inode) -> bool {
    &&& i1 == (Inode {
        xattr_block: i1.xattr_block,
        flags: i1.flags,
        extent_tree: i1.extent_tree,
        extent_tree_blocks: i1.extent_tree_blocks,
        data_kind: i1.data_kind,
        ..i0
    })
    &&& i1.flags & FLAG_COMPRESSED == i0.flags & FLAG_COMPRESSED
    &&& i1.data_kind is Inline <==> i0.data_kind is Inline
}

/// What writing inode `ino` changes.
pub open spec fn persist_frame(v0: Volume, v1: Volume, ino: u64) -> bool {
    &&& base_kept(v0, v1)
    &&& forall|b: int| #[trigger]
        v0.owner@.contains_key(b) && !(v0.owner@[b] is Fresh) && v0.owner@[b] != Owner::Xattr(ino)
            && v0.owner@[b] != Owner::Tree(ino) ==> v1.owner@.contains_key(b) && v1.owner@[b]
            == v0.owner@[b] && (v0.owner@[b] is Table || v1.d(b) == v0.d(b))
    &&& forall|b: int| #[trigger]
        v1.owner@.contains_key(b) && v1.owner@[b] != Owner::Xattr(ino) && v1.owner@[b]
            != Owner::Tree(ino) ==> v0.owner@.contains_key(b) && v0.owner@[b] == v1.owner@[b]
}

/// An inode owns no blocks but those of its data that it does not name.
pub proof fn lemma_meta_only(s: Inner, ino: u64)
    requires
        s.wf(),
        s.inodes@.contains_key(ino),
    ensures
        meta_only(s.vol.owner@, s.inodes@[ino]),
{
    let i = s.inodes@[ino];
    assert forall|b: int| #[trigger] s.vol.owner@.contains_key(b) implies (s.vol.owner@[b]
        == Owner::Xattr(i.ino) ==> i.xattr_block != 0 && b == i.xattr_block) && (s.vol.owner@[b]
        == Owner::Tree(i.ino) ==> i.extent_tree != 0 && i.extent_tree <= b < i.extent_tree
        + i.extent_tree_blocks) by {
        assert(in_place(s.vol, s.inodes@, s.table(), s.sb.alloc_block, b, s.vol.owner@[b]));
    }
}

/// Writing an inode changes no file.
#[verifier::rlimit(40)]
proof fn lemma_persist_step(s0: Inner, s1: Inner, ino: u64, i1: Inode)
    requires
        s0.wf(),
        s0.inodes@.contains_key(ino),
        s1.vol.wf(),
        persist_frame(s0.vol, s1.vol, ino),
        forall|y: int|
            0 <= y && y != ino ==> #[trigger] slot(s1.vol, s0.table(), y) == slot(
                s0.vol,
                s0.table(),
                y,
            ),
        s1.inodes@ == s0.inodes@.insert(ino, i1),
        same_file(s0.inodes@[ino], i1),
        meta_claimed(s1.vol.owner@, i1),
        meta_only(s1.vol.owner@, i1),
        s1 == (Inner {
            vol: s1.vol,
            inodes: s1.inodes,
            dirty_inodes: s1.dirty_inodes,
            ..s0
        }),
        forall|x: u64| x != ino ==> (#[trigger] s1.dirty_inodes@.contains(x)
            <==> s0.dirty_inodes@.contains(x)),
        s1.dirty_inodes@.contains(ino) || persisted(s1.vol, s0.table(), i1),
    ensures
        s1.wf(),
        s1@ == s0@,
        s0.sound() ==> s1.sound(),
        all_bare(s0.inodes@) ==> all_bare(s1.inodes@),
{
    let v0 = s0.vol;
    let v1 = s1.vol;
    let t = s0.table();
    let rb = s0.rb();
    let rc = s0.record_cache;
    if all_bare(s0.inodes@) {
        assert(!s0.inodes@[ino].compresses()) by {
            reveal(all_bare);
        }
        lemma_bare_put(s0.inodes@, ino, i1);
    }
    let i0 = s0.inodes@[ino];
    lemma_table_kept(v0.owner@, v1.owner@, t);
    assert forall|k: int| 0 <= k < i0.extents@.len() && (#[trigger] i0.extents@[k]).compress
        == 0 implies i0.extents@[k].plen() == i0.extents@[k].length by {
        assert(crate::extents::ext_wf(i0.extents@[k], rb));
    }
    lemma_exts_kept(v0, v1, ino, i0.extents@);
    assert forall|p: int| #[trigger] fbyte(v1, rc, rb, i1, p) == fbyte(v0, rc, rb, i0, p) by {
        assert(ubyte(v1, i0.extents@, p) == ubyte(v0, i0.extents@, p));
    }
    assert(inode_ok(v1, rc, rb, i1)) by {
        assert forall|p: int| p >= i1.size implies #[trigger] fbyte(v1, rc, rb, i1, p) == 0 by {
            assert(fbyte(v0, rc, rb, i0, p) == 0);
        }
    }
    assert(node_of(v1, rc, rb, i1) == node_of(v0, rc, rb, i0)) by {
        assert(content(v1, rc, rb, i1) =~= content(v0, rc, rb, i0)) by {
            assert forall|p: int| 0 <= p < i1.size implies content(v1, rc, rb, i1)[p] == content(
                v0,
                rc,
                rb,
                i0,
            )[p] by {
                assert(fbyte(v1, rc, rb, i1, p) == fbyte(v0, rc, rb, i0, p));
            }
        }
    }
    assert forall|x: u64| #[trigger] s1.inodes@.contains_key(x) && x != ino implies inode_ok(
        v1,
        rc,
        rb,
        s0.inodes@[x],
    ) && node_of(v1, rc, rb, s0.inodes@[x]) == node_of(v0, rc, rb, s0.inodes@[x]) && (
    exts_readable(v0, s0.inodes@[x].extents@) ==> exts_readable(v1, s0.inodes@[x].extents@))
        && own_kept(v0, v1, x) && (forall|p: int| #[trigger]
        ubyte(v1, s0.inodes@[x].extents@, p) == ubyte(v0, s0.inodes@[x].extents@, p)) by {
        assert(s0.inodes@.contains_key(x));
        assert(own_kept(v0, v1, x));
        lemma_inode_own(v0, v1, rc, rc, rb, s0.inodes@[x]);
    }
    assert(s1.inodes_ok()) by {
        assert forall|x: u64| #[trigger] s1.inodes@.contains_key(x) implies s1.inodes@[x].ino == x
            && 0 < x < s1.sb.next_inode && inode_ok(
            s1.vol,
            s1.record_cache,
            s1.rb(),
            s1.inodes@[x],
        ) by {
            assert(s0.inodes@.contains_key(x));
        }
    }
    assert(s1@.nodes =~= s0@.nodes) by {
        assert forall|x: u64| #[trigger] s1@.nodes.contains_key(x) implies s1@.nodes[x]
            == s0@.nodes[x] by {
            assert(s1.inodes@.contains_key(x));
        }
    }
    assert(s1.area_ok()) by {
        if s1.sb.alloc_block != 0 {
            let a = s1.sb.alloc_block as int;
            let n = crate::allocmap::area_len(v0.d(a));
            assert(v0.owner@.contains_key(a));
            assert forall|b: int| a <= b < a + n implies #[trigger] v1.owner@.contains_key(b)
                && v1.owner@[b] == Owner::Area by {
                assert(v0.owner@.contains_key(b));
            }
        }
    }
    assert(synced(v1, t, s1.inodes@, s1.dirty_inodes@, s1.sb.next_inode)) by {
        assert forall|x: u64| #[trigger]
            s1.inodes@.contains_key(x) && !s1.dirty_inodes@.contains(x) implies persisted(
            v1,
            t,
            s1.inodes@[x],
        ) by {
            if x != ino {
                assert(s0.inodes@.contains_key(x));
                assert(slot(v1, t, x as int) == slot(v0, t, x as int));
                lemma_persisted_own(v0, v1, t, t, s0.inodes@[x]);
            }
        }
        assert forall|x: u64|
            0 < x < s1.sb.next_inode && !#[trigger] s1.inodes@.contains_key(
                x,
            ) implies parsed_inode(slot(v1, t, x as int)) is None by {
            assert(!s0.inodes@.contains_key(x));
            assert(slot(v1, t, x as int) == slot(v0, t, x as int));
        }
    }
    assert(rc_ok(v1, rc, rb, s1.inodes@)) by {
        if let Some(c) = rc {
            assert(s1.inodes@.contains_key(c.ino));
            let e = s0.inodes@[c.ino].extents@;
            assert forall|q: int| !c.dirty && 0 <= q < rb * 4096 implies #[trigger] c.data@[q]
                == ubyte(v1, s1.inodes@[c.ino].extents@, c.start * 4096 + q) by {
                assert(ubyte(v1, e, c.start * 4096 + q) == ubyte(v0, e, c.start * 4096 + q));
            }
        }
    }
    assert(places_ok(v1, s1.inodes@, t, s1.sb.alloc_block)) by {
        let a = s0.sb.alloc_block;
        assert forall|b: int| #[trigger] v1.owner@.contains_key(b) implies in_place(
            v1,
            s1.inodes@,
            t,
            a,
            b,
            v1.owner@[b],
        ) by {
            let o = v1.owner@[b];
            if o != Owner::Xattr(ino) && o != Owner::Tree(ino) {
                assert(v0.owner@.contains_key(b) && v0.owner@[b] == o);
                assert(in_place(v0, s0.inodes@, t, a, b, o));
                if o is Area {
                    assert(v0.owner@.contains_key(a as int));
                }
            }
        }
    }
    assert(s1.inodes@.dom() =~= s0.inodes@.dom());
    assert(s1.lists_ok()) by {
        assert forall|x: u64| #[trigger] s1.dirty_inodes@.contains(x) implies s1.inodes@.contains_key(
            x,
        ) by {
            if x != ino {
                assert(s0.dirty_inodes@.contains(x));
            }
        }
    }
    if s0.sound() {
        assert forall|x: u64| #[trigger] s1.inodes@.contains_key(x) implies exts_readable(
            s1.vol,
            s1.inodes@[x].extents@,
        ) by {
            assert(s0.inodes@.contains_key(x));
        }
    }
}

/// An inode has more extents than its tree can count.
pub open spec fn extents_too_many(i: Inode) -> bool {
    i.extents@.len() > u32::MAX
}

/// An inode has more attributes than a block can hold.
pub open spec fn attrs_too_large(i: Inode) -> bool {
    i.xattr@.len() > 0 && xattr_bytes(attrs(i.xattr@)).len() > 4096
}

/// Blocks that the attributes and the extents of an inode take at most.
pub open spec fn inode_room(i: Inode) -> int {
    2 + 2 * tree_blocks(i.extents@.len() as int)
}

/// What belongs to an inode stands on disk: its attributes, and its extents where they are in a
/// tree.
pub open spec fn parts_stand(v: Volume, i: Inode) -> bool {
    attrs_stand(v, i) && extents_stand(v, i)
}

/// What belongs to an inode depends on its own blocks alone.
pub proof fn lemma_parts_kept(v0: Volume, v1: Volume, i: Inode)
    requires
        parts_stand(v0, i),
        meta_claimed(v0.owner@, i),
        forall|b: int| #[trigger]
            v0.owner@.contains_key(b) && (v0.owner@[b] == Owner::Xattr(i.ino) || v0.owner@[b]
                == Owner::Tree(i.ino)) ==> v1.d(b) == v0.d(b),
    ensures
        parts_stand(v1, i),
{
    if i.xattr_block != 0 {
        assert(v0.owner@.contains_key(i.xattr_block as int));
    }
    if i.extents@.len() > MAX_DIRECT_EXTENTS {
        assert forall|c: int|
            i.extent_tree <= c < i.extent_tree + i.extent_tree_blocks implies #[trigger] v1.d(c)
            == tree_block(i.extents@, i.extent_tree_blocks as int, c - i.extent_tree) by {
            assert(v0.owner@.contains_key(c));
            assert(v0.d(c) == tree_block(
                i.extents@,
                i.extent_tree_blocks as int,
                c - i.extent_tree,
            ));
        }
    }
}

impl Inner {
    /// Writes what belongs to inode `ino` to disk: its attributes, and its extents where they do
    /// not fit into it. The inode itself is written by [`Inner::persist_inode`].
    #[verifier::rlimit(60)]
    pub(crate) fn store_parts(&mut self, ino: u64) -> (r: Result<()>)
        requires
            old(self).wf(),
            old(self).writable,
            old(self).inodes@.contains_key(ino),
            old(self).dirty_inodes@.contains(ino),
        ensures
            final(self).wf(),
            final(self)@ == old(self)@,
            keeps(*old(self), *final(self)),
            *final(self) == (Inner {
                vol: final(self).vol,
                inodes: final(self).inodes,
                ..*old(self)
            }),
            base_kept(old(self).vol, final(self).vol),
            table_kept(old(self).vol, final(self).vol),
            final(self).inodes@.dom() == old(self).inodes@.dom(),
            forall|x: u64| #[trigger]
                old(self).inodes@.contains_key(x) && x != ino ==> final(self).inodes@[x]
                    == old(self).inodes@[x] && (parts_stand(old(self).vol, old(self).inodes@[x])
                    ==> parts_stand(final(self).vol, old(self).inodes@[x])),
            final(self).inodes@[ino].extents == old(self).inodes@[ino].extents,
            final(self).inodes@[ino].xattr == old(self).inodes@[ino].xattr,
            plain(old(self).inodes@[ino]) ==> r is Ok && plain(final(self).inodes@[ino])
                && final(self).vol == old(self).vol,
            final(self).vol.end() <= old(self).vol.end() + inode_room(old(self).inodes@[ino]),
            match r {
                Ok(_) => parts_stand(final(self).vol, final(self).inodes@[ino]),
                Err(e) => {
                    ||| e.is(ERANGE) && attrs_too_large(final(self).inodes@[ino])
                    ||| e.is(EFBIG) && extents_too_many(final(self).inodes@[ino])
                    ||| e.is(ENOSPC) && old(self).vol.full(inode_room(old(self).inodes@[ino]))
                },
            },
    {
        let ghost s0 = *self;
        let ghost t = s0.table();
        let ghost rb = s0.rb();
        let mut i = match self.inodes.remove(&ino) {
            Some(i) => i,
            None => return Err(eio("missing inode")),
        };
        let ghost i0 = i;
        proof {
            lemma_meta_only(s0, ino);
        }
        match store_xattrs(&mut self.vol, &mut i) {
            Ok(_) => {},
            Err(e) => {
                self.inodes.insert(ino, i);
                proof {
                    assert(self.inodes@ =~= s0.inodes@);
                    lemma_same_view(s0, *self);
                }
                return Err(e);
            },
        }
        let ghost v1 = self.vol;
        let ghost i1 = i;
        let stored = store_extent_tree(&mut self.vol, &mut i, Ghost(rb));
        let ghost v2 = self.vol;
        let ghost i2 = i;
        proof {
            assert(same_file(i0, i2));
            assert forall|b: int| #[trigger]
                s0.vol.owner@.contains_key(b) && !(s0.vol.owner@[b] is Fresh)
                    && s0.vol.owner@[b] != Owner::Xattr(ino) && s0.vol.owner@[b] != Owner::Tree(
                    ino,
                ) implies v2.owner@.contains_key(b) && v2.owner@[b] == s0.vol.owner@[b] && v2.d(b)
                == s0.vol.d(b) by {
                assert(v1.owner@.contains_key(b));
            }
            lemma_base(s0.vol, v1, v1, v2);
            assert forall|y: int| #[trigger] slot(v2, t, y) == slot(s0.vol, t, y) by {
                crate::inner::lemma_slot_kept(s0.vol, v2, t, y);
            }
        }
        self.inodes.insert(ino, i);
        proof {
            assert(self.inodes@ =~= s0.inodes@.insert(ino, i2));
            lemma_persist_step(s0, *self, ino, i2);
            assert(tree_blocks(i0.extents@.len() as int) >= 0);
            assert forall|x: u64| #[trigger]
                s0.inodes@.contains_key(x) && x != ino && parts_stand(
                    s0.vol,
                    s0.inodes@[x],
                ) implies parts_stand(self.vol, s0.inodes@[x]) by {
                assert(inode_ok(s0.vol, s0.record_cache, rb, s0.inodes@[x]));
                lemma_parts_kept(s0.vol, v2, s0.inodes@[x]);
            }
            if stored is Ok {
                assert(attrs_stand(v1, i1));
                if i2.xattr_block != 0 {
                    assert(v1.owner@.contains_key(i2.xattr_block as int));
                }
                assert(attrs_stand(v2, i2));
            }
        }
        stored
    }

    /// Writes inode `ino` into its slot. What belongs to it stands on disk before.
    #[verifier::rlimit(60)]
    pub(crate) fn persist_inode(&mut self, ino: u64)
        requires
            old(self).wf(),
            old(self).writable,
            old(self).inodes@.contains_key(ino),
            parts_stand(old(self).vol, old(self).inodes@[ino]),
        ensures
            final(self).vol.owner == old(self).vol.owner,
            forall|b: int| #[trigger]
                old(self).vol.owner@.contains_key(b) && !(old(self).vol.owner@[b] is Table)
                    ==> final(self).vol.d(b) == old(self).vol.d(b),
            forall|y: u64| y != ino ==> #[trigger] slot(
                final(self).vol,
                old(self).table(),
                y as int,
            ) == slot(old(self).vol, old(self).table(), y as int),
            old(self).vol.whole() ==> final(self).vol.whole() && final(self).vol.image@.len()
                == old(self).vol.image@.len(),
            extends(old(self).vol.image, final(self).vol.image),
            final(self).wf(),
            final(self)@ == old(self)@,
            keeps(*old(self), *final(self)),
            *final(self) == (Inner {
                vol: final(self).vol,
                dirty_inodes: final(self).dirty_inodes,
                ..*old(self)
            }),
            base_kept(old(self).vol, final(self).vol),
            final(self).vol.alloc == old(self).vol.alloc,
            forall|x: u64| #[trigger]
                old(self).inodes@.contains_key(x) && parts_stand(
                    old(self).vol,
                    old(self).inodes@[x],
                ) ==> parts_stand(final(self).vol, old(self).inodes@[x]),
            forall|x: u64| #[trigger]
                final(self).dirty_inodes@.contains(x) <==> x != ino && old(self).dirty_inodes@.contains(x),
            old(self).dirty_inodes@.contains(ino) ==> final(self).dirty_inodes@.len() < old(self).dirty_inodes@.len(),
    {
        let ghost s0 = *self;
        let ghost t = s0.table();
        let ghost rb = s0.rb();
        let ghost v2 = s0.vol;
        let ghost i2 = s0.inodes@[ino];
        assert(inode_ok(s0.vol, s0.record_cache, rb, i2));
        let raw = match self.inodes.get(&ino) {
            Some(i) => i.encode(),
            None => Vec::new(),
        };
        proof {
            lemma_table_maps(v2.owner@, t, (ino / 16) as int, t.len() - 1);
            lemma_meta_only(s0, ino);
        }
        match self.map_inode_slot(ino) {
            Ok((b, off)) => {
                assert(v2.owner@.contains_key(b as int));
                self.vol.patch(b, off, raw.as_slice());
                proof {
                    assert forall|y: int| 0 <= y && y != ino implies #[trigger] slot(
                        self.vol,
                        t,
                        y,
                    ) == slot(s0.vol, t, y) by {
                        lemma_slot_patched(v2, self.vol, t, ino as int, b as int, raw@, y);
                    }
                    lemma_slot_patched(v2, self.vol, t, ino as int, b as int, raw@, 0);
                    assert forall|x: u64| #[trigger]
                        s0.inodes@.contains_key(x) && parts_stand(
                            s0.vol,
                            s0.inodes@[x],
                        ) implies parts_stand(self.vol, s0.inodes@[x]) by {
                        assert(inode_ok(s0.vol, s0.record_cache, rb, s0.inodes@[x]));
                        lemma_parts_kept(s0.vol, self.vol, s0.inodes@[x]);
                    }
                    assert(persisted(self.vol, t, i2));
                }
            },
            Err(_) => {},
        }
        self.dirty_inodes = unlist(&self.dirty_inodes, ino);
        proof {
            assert(self.inodes@ =~= s0.inodes@.insert(ino, i2));
            lemma_persist_step(s0, *self, ino, i2);
        }
    }
}

} // verus!
