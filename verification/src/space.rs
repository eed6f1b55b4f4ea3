//! Where the space of a volume is.

use vstd::prelude::*;

use crate::extents::{at_place, ext_claimed, ext_wf, find_ext, lemma_claimed_at, lemma_find_some};
use crate::inner::{in_inode, in_place, inode_ok, keeps, owned_by, Inner};
use crate::inode::Inode;
use crate::volume::{accounted, Owner};

verus! {

/// Block `b` holds data, a part of the extent tree, or the attributes of an inode.
pub open spec fn uses(i: Inode, b: int) -> bool {
    ||| exists|l: int| at_place(i.extents@, l, b)
    ||| i.extent_tree != 0 && i.extent_tree <= b < i.extent_tree + i.extent_tree_blocks
    ||| i.xattr_block != 0 && b == i.xattr_block
}

/// Block `b` is in use by an inode, by the inode table, or by the free-space map.
pub open spec fn serves(s: Inner, b: int) -> bool {
    ||| exists|ino: u64| s.inodes@.contains_key(ino) && uses(#[trigger] s.inodes@[ino], b)
    ||| exists|l: int| at_place(s.table(), l, b)
    ||| s.sb.alloc_block != 0 && s.sb.alloc_block <= b < s.sb.alloc_block
        + crate::allocmap::area_len(s.vol.d(s.sb.alloc_block as int))
}

/// Block `b` is one of the blocks behind the journal, and not free.
pub open spec fn taken(s: Inner, b: int) -> bool {
    s.vol.lo() <= b < s.vol.alloc.total_blocks && !s.vol.alloc.is_free(b)
}

/// What an owner says of a block is so.
proof fn lemma_owner_serves(s: Inner, b: int)
    requires
        s.wf(),
        s.vol.owner@.contains_key(b),
    ensures
        serves(s, b),
        s.vol.owner@[b] matches Owner::Data(ino, _) ==> s.inodes@.contains_key(ino) && uses(
            s.inodes@[ino],
            b,
        ),
        s.vol.owner@[b] matches Owner::Tree(ino) ==> s.inodes@.contains_key(ino) && uses(
            s.inodes@[ino],
            b,
        ),
        s.vol.owner@[b] matches Owner::Xattr(ino) ==> s.inodes@.contains_key(ino) && uses(
            s.inodes@[ino],
            b,
        ),
{
    let o = s.vol.owner@[b];
    assert(in_place(s.vol, s.inodes@, s.table(), s.sb.alloc_block, b, o));
    match o {
        Owner::Data(ino, l) => {
            assert(in_inode(s.inodes@[ino], b, o));
            assert(at_place(s.inodes@[ino].extents@, l, b));
            assert(uses(s.inodes@[ino], b));
        },
        Owner::Tree(ino) => {
            assert(in_inode(s.inodes@[ino], b, o));
            assert(uses(s.inodes@[ino], b));
        },
        Owner::Xattr(ino) => {
            assert(in_inode(s.inodes@[ino], b, o));
            assert(uses(s.inodes@[ino], b));
        },
        Owner::Table(l) => {
            assert(at_place(s.table(), l, b));
        },
        _ => {},
    }
}

/// A block that an inode uses belongs to it, and is not free.
proof fn lemma_used_is_owned(s: Inner, ino: u64, b: int)
    requires
        s.wf(),
        s.inodes@.contains_key(ino),
        uses(s.inodes@[ino], b),
    ensures
        s.vol.owner@.contains_key(b),
        owned_by(s.vol.owner@[b], ino),
        taken(s, b),
{
    let i = s.inodes@[ino];
    assert(inode_ok(s.vol, s.record_cache, s.rb(), i));
    if exists|l: int| at_place(i.extents@, l, b) {
        let l = choose|l: int| at_place(i.extents@, l, b);
        lemma_find_some(i.extents@, l);
        let e = find_ext(i.extents@, l)->0;
        let k = i.extents@.index_of(e);
        assert(i.extents@[k] == e);
        assert(ext_wf(i.extents@[k], s.rb()));
        assert(ext_claimed(s.vol.owner@, ino, i.extents@[k]));
        lemma_claimed_at(s.vol.owner@, ino, e, b);
    } else if i.xattr_block != 0 && b == i.xattr_block {
        assert(s.vol.owner@.contains_key(b));
    } else {
        assert(s.vol.owner@.contains_key(b));
    }
}

/// Every block that is not free is in use by something that is there, but for those that belonged
/// to nothing when the volume was mounted.
pub proof fn taken_blocks_serve(s: Inner, b: int)
    requires
        s.wf(),
        taken(s, b),
        !s.vol.lost@.contains(b),
    ensures
        serves(s, b),
{
    reveal(accounted);
    assert(!s.vol.alloc.is_free(b));
    lemma_owner_serves(s, b);
}

/// What a file uses is not free.
pub proof fn used_blocks_are_taken(s: Inner, ino: u64, b: int)
    requires
        s.wf(),
        s.inodes@.contains_key(ino),
        uses(s.inodes@[ino], b),
    ensures
        taken(s, b),
{
    lemma_used_is_owned(s, ino, b);
}

/// No block is in use by two files.
pub proof fn files_share_no_block(s: Inner, x: u64, y: u64, b: int)
    requires
        s.wf(),
        s.inodes@.contains_key(x),
        s.inodes@.contains_key(y),
        uses(s.inodes@[x], b),
        uses(s.inodes@[y], b),
    ensures
        x == y,
{
    lemma_used_is_owned(s, x, b);
    lemma_used_is_owned(s, y, b);
}

/// The blocks of a file that is gone are free again, or already in use by something else.
pub proof fn blocks_of_removed_file(s0: Inner, s1: Inner, ino: u64, b: int)
    requires
        s0.wf(),
        s1.wf(),
        keeps(s0, s1),
        s0.inodes@.contains_key(ino),
        uses(s0.inodes@[ino], b),
        !s0.vol.lost@.contains(b),
        !s1@.nodes.contains_key(ino),
    ensures
        !taken(s1, b) || serves(s1, b),
{
    if taken(s1, b) {
        taken_blocks_serve(s1, b);
    }
}

} // verus!
