//! Extent trees: the extents of an inode with more than fit into it, in blocks of their own.

use vstd::prelude::*;

use crate::bytes::{append, le32, lemma_le, pad_to, padded, put_u32_vec, zeros};
use crate::extents::MAX_FILE_BLOCKS;
use crate::format::{extents_bytes, lemma_extents_bytes_len, put_extents, Extent};

verus! {

/// Extents that a block of a tree holds.
pub const TREE_PER_BLOCK: usize = 204;

/// `EXT2`
pub open spec fn tree_magic() -> Seq<u8> {
    seq![69u8, 88, 84, 50]
}

/// Blocks of a tree of `n` extents.
pub open spec fn tree_blocks(n: int) -> int {
    (n + 203) / 204
}

/// The extents that block `b` of a tree holds.
pub open spec fn tree_part(exts: Seq<Extent>, b: int) -> Seq<Extent> {
    if 204 * b >= exts.len() {
        Seq::empty()
    } else if 204 * (b + 1) <= exts.len() {
        exts.subrange(204 * b, 204 * (b + 1))
    } else {
        exts.subrange(204 * b, exts.len() as int)
    }
}

/// Block `b` of a tree of `n` blocks. The first block starts with a header of 16 bytes.
pub open spec fn tree_block(exts: Seq<Extent>, n: int, b: int) -> Seq<u8> {
    if b == 0 {
        padded(
            le32(exts.len() as u32) + le32(n as u32) + tree_magic() + zeros(4) + extents_bytes(
                tree_part(exts, 0),
            ),
            4096,
        )
    } else {
        padded(extents_bytes(tree_part(exts, b)), 4096)
    }
}

/// Makes block `b` of the tree of `exts`.
pub fn make_tree_block(exts: &Vec<Extent>, n: u64, b: u64) -> (blk: Vec<u8>)
    requires
        exts@.len() <= MAX_FILE_BLOCKS,
        n == tree_blocks(exts@.len() as int),
        b < n,
    ensures
        blk@ == tree_block(exts@, n as int, b as int),
        blk@.len() == 4096,
{
    let len: usize = exts.len();
    let mut blk: Vec<u8> = Vec::new();
    if b == 0 {
        put_u32_vec(&mut blk, len as u32);
        put_u32_vec(&mut blk, n as u32);
        append(&mut blk, &[69u8, 88, 84, 50, 0, 0, 0, 0]);
        proof {
            let t = seq![69u8, 88, 84, 50, 0, 0, 0, 0];
            assert(t =~= tree_magic() + zeros(4));
            assert(blk@ =~= le32(len as u32) + le32(n as u32) + tree_magic() + zeros(4));
        }
    }
    let ghost head = blk@;
    let from: usize = b as usize * 204;
    let to: usize = if len - from < 204 {
        len
    } else {
        from + 204
    };
    put_extents(&mut blk, exts.as_slice(), from, to);
    proof {
        lemma_le();
        assert(tree_part(exts@, b as int) =~= exts@.subrange(from as int, to as int));
        lemma_extents_bytes_len(tree_part(exts@, b as int));
        if b > 0 {
            assert(blk@ =~= extents_bytes(tree_part(exts@, b as int)));
        }
    }
    pad_to(&mut blk, 4096);
    blk
}

} // verus!
