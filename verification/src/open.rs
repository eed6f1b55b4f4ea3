//! Opening a volume that an image holds.

use std::collections::{HashMap, HashSet};

use vstd::prelude::*;

use crate::allocator::{lemma_sorted_unique, map_roundtrip, Allocator};
use crate::allocmap::{
    area_contents, area_len, area_roundtrip, is_area, is_area_head, read_alloc_blocks,
};
use crate::cache::{cache_size, BlockCache};
use crate::compress::{
    compression_code, compression_of, normalize_record_blocks, parsed_header, Compression,
    DEFAULT_RECORD_BLOCKS,
};
use crate::disk::{
    clear, copy_replaces_superblock, disk_byte, disk_exts, disk_files, disk_super, file_of,
    lemma_disk_exts, lemma_lies_read, lemma_same_disk_file, lemma_same_disk_files, lemma_same_place,
    replayed, shows, unambiguous,
};
use crate::error::{eio, Error, Result, EFBIG, EIO, ENOSPC};
use crate::extents::{
    at_place, ext_claimed, ext_wf, find_ext, lemma_find_push, lemma_find_some, record_size_ok,
    ubyte, MAX_FILE_BLOCKS,
};
use crate::flush::{
    lemma_lies_elsewhere, lemma_rests_lies, lies, map_covers, map_holds, rests, same_super,
    super_at,
};
use crate::format::{
    parsed_super, stored_extents, superblock_roundtrip, Extent, SuperView, Superblock,
    FIRST_USER_INO, MAX_TABLE_EXTENTS,
};
use crate::inner::{
    all_bare, bare, content, drained, fbyte, in_inode, in_place, inode_ok, inode_shape, keeps,
    lemma_inode_own, lemma_persisted_own, lemma_slot_kept, lemma_table_kept, mounted_record_blocks,
    node_of, own_kept, owned_by, persisted, places_ok, same_volume, slot, synced, table_capacity,
    table_ext_claimed, table_ok, tail_zero, Inner,
};
use crate::inode::{inode_roundtrip, parsed_inode, DataKind, Inode};
use crate::inspect::{ends_clean, lemma_same_bytes_at, stands_on_disk};
use crate::journal::{found_txs, ops_fit, replay, Journal};
use crate::load::{claim, claimable, loaded_more, mirrors};
use crate::model::{FsView, Node};
use crate::options::SyncMode;
use crate::reopen::{fits, lemma_fits, load_inode, read_from, read_slot, sits, unseen};
use crate::store::{block_limit, image_block, max_blocks, Image};
use crate::types::Timespec;
use crate::volume::{accounted, unchanged, Owner, Volume};
use crate::bytes::u32_at;

verus! {

broadcast use vstd::std_specs::hash::group_hash_axioms;

/// What lies behind the end of a file on disk is zero where a volume rests there.
proof fn lemma_fits_tail(w: Inner, v: Volume, t: Seq<Extent>, rb: int, ino: u64, p: int)
    requires
        fits(w, v, t, rb),
        v.wf(),
        unseen(v, ino),
        0 < ino < w.sb.next_inode,
        parsed_inode(slot(v, t, ino as int)) is Some,
        !(parsed_inode(slot(v, t, ino as int))->0.data_kind is Inline),
        p >= parsed_inode(slot(v, t, ino as int))->0.size,
    ensures
        ubyte(v, disk_exts(v, parsed_inode(slot(v, t, ino as int))->0), p) == 0,
{
    let wv = w.vol;
    let iv = parsed_inode(slot(v, t, ino as int))->0;
    lemma_fits(w, v, t, rb, ino);
    let i = w.inodes@[ino];
    assert(!w.dirty_inodes@.contains(ino));
    assert forall|b: int| b >= 0 implies #[trigger] v.d(b) == wv.d(b) by {}
    lemma_same_disk_file(wv, v, iv);
    lemma_disk_exts(wv, t, rb, i);
    lemma_same_place(wv, i.extents@, disk_exts(wv, iv), p);
    lemma_same_bytes_at(wv, v, disk_exts(wv, iv), p);
    assert(fbyte(wv, None, rb, i, p) == 0);
}

/// Number `x` stands in a list of lengths.
pub open spec fn is_cut(cuts: Seq<(u64, u64)>, x: u64) -> bool {
    exists|k: int| 0 <= k < cuts.len() && (#[trigger] cuts[k]).0 == x
}

/// A file is one on disk, but may go on behind its end.
pub open spec fn overlong(n: Node, f: Node) -> bool {
    &&& n.meta == f.meta
    &&& n.xattr == f.xattr
    &&& f.data.len() <= n.data.len()
    &&& n.data.take(f.data.len() as int) == f.data
}

/// An inode that was loaded from volume `v0` is in order, and stands for a file on disk.
pub open spec fn entry_ok(
    v0: Volume,
    v: Volume,
    t: Seq<Extent>,
    rb: int,
    i: Inode,
    dirty: Seq<u64>,
    cuts: Seq<(u64, u64)>,
) -> bool {
    let f = file_of(v0, parsed_inode(slot(v0, t, i.ino as int))->0);
    &&& inode_ok(v, None, rb, i)
    &&& !dirty.contains(i.ino) ==> persisted(v, t, i)
    &&& i.compresses() == parsed_inode(slot(v0, t, i.ino as int))->0.compresses()
    &&& if is_cut(cuts, i.ino) {
        overlong(node_of(v, None, rb, i), f)
    } else {
        node_of(v, None, rb, i) == f
    }
}

/// Blocks read as before, all owners are still there, and no inode from `upto` on has blocks.
pub open spec fn grown(v0: Volume, v: Volume, upto: int) -> bool {
    &&& v.wf()
    &&& v.alloc == v0.alloc
    &&& v.image@.len() >= v0.image@.len()
    &&& forall|b: int| b >= 0 ==> #[trigger] v.d(b) == v0.d(b)
    &&& forall|b: int| #[trigger]
        v0.owner@.contains_key(b) ==> v.owner@.contains_key(b) && v.owner@[b] == v0.owner@[b]
    &&& forall|x: u64| x >= upto ==> #[trigger] unseen(v, x)
    &&& v0.idle() ==> v.idle() && v.image == v0.image
    &&& v.cache.capacity == v0.cache.capacity
}

/// The inodes below `upto` were loaded.
pub open spec fn loaded(
    v0: Volume,
    v: Volume,
    t: Seq<Extent>,
    rb: int,
    upto: int,
    inodes: Map<u64, Inode>,
    dirty: Seq<u64>,
    cuts: Seq<(u64, u64)>,
) -> bool {
    &&& grown(v0, v, upto)
    &&& forall|x: u64| #[trigger]
        inodes.contains_key(x) ==> 0 < x < upto && inodes[x].ino == x && entry_ok(
            v0,
            v,
            t,
            rb,
            inodes[x],
            dirty,
            cuts,
        )
    &&& forall|x: u64|
        0 < x < upto ==> (#[trigger] inodes.contains_key(x) <==> parsed_inode(
            slot(v0, t, x as int),
        ) is Some)
    &&& forall|x: u64| #[trigger] dirty.contains(x) ==> inodes.contains_key(x)
    &&& forall|b: int| #[trigger]
        v.owner@.contains_key(b) && !v0.owner@.contains_key(b) ==> in_place(
            v,
            inodes,
            t,
            0,
            b,
            v.owner@[b],
        )
    &&& forall|k: int|
        0 <= k < cuts.len() ==> inodes.contains_key((#[trigger] cuts[k]).0) && cuts[k].1
            == parsed_inode(slot(v0, t, cuts[k].0 as int))->0.size
    &&& forall|j: int, k: int|
        0 <= j < k < cuts.len() ==> (#[trigger] cuts[j]).0 < (#[trigger] cuts[k]).0
}

/// The next inode is loaded.
#[verifier::rlimit(40)]
proof fn lemma_loaded_more(
    v0: Volume,
    v: Volume,
    v1: Volume,
    t: Seq<Extent>,
    rb: int,
    ino: u64,
    inodes: Map<u64, Inode>,
    dirty: Seq<u64>,
    dirty1: Seq<u64>,
    cuts: Seq<(u64, u64)>,
    cuts1: Seq<(u64, u64)>,
    i: Inode,
)
    requires
        loaded(v0, v, t, rb, ino as int, inodes, dirty, cuts),
        loaded_more(v, v1, ino),
        parsed_inode(slot(v0, t, ino as int)) is Some,
        0 < ino < u64::MAX,
        i.ino == ino,
        dirty1 == dirty || dirty1 == dirty.push(ino),
        cuts1 == cuts || cuts1 == cuts.push((ino, parsed_inode(slot(v0, t, ino as int))->0.size)),
        entry_ok(v0, v1, t, rb, i, dirty1, cuts1),
        forall|b: int| #[trigger]
            v1.owner@.contains_key(b) && !v.owner@.contains_key(b) ==> in_inode(
                i,
                b,
                v1.owner@[b],
            ),
    ensures
        loaded(v0, v1, t, rb, ino + 1, inodes.insert(ino, i), dirty1, cuts1),
{
    let m = inodes.insert(ino, i);
    assert(grown(v0, v1, ino + 1)) by {
        assert forall|b: int| b >= 0 implies #[trigger] v1.d(b) == v0.d(b) by {
            assert(v.d(b) == v0.d(b));
        }
        assert forall|b: int| #[trigger] v0.owner@.contains_key(b) implies v1.owner@.contains_key(b)
            && v1.owner@[b] == v0.owner@[b] by {
            assert(v.owner@.contains_key(b));
        }
        assert forall|x: u64| x >= ino + 1 implies #[trigger] unseen(v1, x) by {
            assert(unseen(v, x));
            assert forall|b: int| #[trigger] v1.owner@.contains_key(b) implies !owned_by(
                v1.owner@[b],
                x,
            ) by {
                if v.owner@.contains_key(b) {
                    assert(v1.owner@[b] == v.owner@[b]);
                }
            }
        }
    }
    lemma_same_disk_files(v, v1, t, ino as int);
    assert forall|b: int| #[trigger]
        v1.owner@.contains_key(b) && !v0.owner@.contains_key(b) implies in_place(
        v1,
        m,
        t,
        0,
        b,
        v1.owner@[b],
    ) by {
        if v.owner@.contains_key(b) {
            assert(in_place(v, inodes, t, 0, b, v.owner@[b]));
            assert(!inodes.contains_key(ino));
        }
    }
    assert forall|x: u64| #[trigger] dirty1.contains(x) implies m.contains_key(x) by {
        let k = dirty1.index_of(x);
        if k < dirty.len() {
            assert(dirty[k] == x);
            assert(dirty.contains(x));
        }
    }
    assert forall|x: u64| inodes.contains_key(x) implies (#[trigger] dirty1.contains(x)
        <==> dirty.contains(x)) && (is_cut(cuts1, x) <==> is_cut(cuts, x)) by {
        if dirty.contains(x) {
            let k = dirty.index_of(x);
            assert(dirty1[k] == x);
        }
        if dirty1.contains(x) {
            let k = dirty1.index_of(x);
            assert(k < dirty.len());
            assert(dirty[k] == x);
        }
        if is_cut(cuts, x) {
            let k = choose|k: int| 0 <= k < cuts.len() && (#[trigger] cuts[k]).0 == x;
            assert(cuts1[k] == cuts[k]);
        }
        if is_cut(cuts1, x) {
            let k = choose|k: int| 0 <= k < cuts1.len() && (#[trigger] cuts1[k]).0 == x;
            assert(k < cuts.len());
            assert(cuts1[k] == cuts[k]);
        }
    }
    assert forall|x: u64| #[trigger] m.contains_key(x) implies 0 < x < ino + 1 && m[x].ino == x
        && entry_ok(v0, v1, t, rb, m[x], dirty1, cuts1) by {
        if x != ino {
            assert(inodes.contains_key(x));
            let a = inodes[x];
            assert(entry_ok(v0, v, t, rb, a, dirty, cuts));
            assert(dirty1.contains(x) <==> dirty.contains(x));
            assert(own_kept(v, v1, x));
            lemma_inode_own(v, v1, None, None, rb, a);
            if !dirty.contains(x) {
                assert(slot(v1, t, x as int) == slot(v, t, x as int));
                lemma_persisted_own(v, v1, t, t, a);
            }
        }
    }
    assert forall|k: int| 0 <= k < cuts1.len() implies m.contains_key((#[trigger] cuts1[k]).0)
        && cuts1[k].1 == parsed_inode(slot(v0, t, cuts1[k].0 as int))->0.size by {
        if k < cuts.len() {
            assert(cuts1[k] == cuts[k]);
        }
    }
    assert forall|j: int, k: int| 0 <= j < k < cuts1.len() implies (#[trigger] cuts1[j]).0 < (
    #[trigger] cuts1[k]).0 by {
        assert(cuts1[j] == cuts[j]);
        assert(inodes.contains_key(cuts[j].0));
        if k < cuts.len() {
            assert(cuts1[k] == cuts[k]);
        }
    }
}

/// No inode at number `ino`.
proof fn lemma_loaded_none(
    v0: Volume,
    v: Volume,
    v1: Volume,
    t: Seq<Extent>,
    rb: int,
    ino: u64,
    inodes: Map<u64, Inode>,
    dirty: Seq<u64>,
    cuts: Seq<(u64, u64)>,
)
    requires
        loaded(v0, v, t, rb, ino as int, inodes, dirty, cuts),
        loaded_more(v, v1, ino),
        v1.owner == v.owner,
        0 < ino < u64::MAX,
        parsed_inode(slot(v0, t, ino as int)) is None,
    ensures
        loaded(v0, v1, t, rb, ino + 1, inodes, dirty, cuts),
{
    assert(grown(v0, v1, ino + 1)) by {
        assert forall|b: int| b >= 0 implies #[trigger] v1.d(b) == v0.d(b) by {
            assert(v.d(b) == v0.d(b));
        }
        assert forall|x: u64| x >= ino + 1 implies #[trigger] unseen(v1, x) by {
            assert(unseen(v, x));
        }
    }
    assert forall|b: int| #[trigger]
        v1.owner@.contains_key(b) && !v0.owner@.contains_key(b) implies in_place(
        v1,
        inodes,
        t,
        0,
        b,
        v1.owner@[b],
    ) by {
        assert(in_place(v, inodes, t, 0, b, v.owner@[b]));
    }
    lemma_same_disk_files(v, v1, t, ino as int);
    assert forall|x: u64| #[trigger] inodes.contains_key(x) implies entry_ok(
        v0,
        v1,
        t,
        rb,
        inodes[x],
        dirty,
        cuts,
    ) by {
        let a = inodes[x];
        assert(own_kept(v, v1, x));
        lemma_inode_own(v, v1, None, None, rb, a);
        if !dirty.contains(x) {
            assert(slot(v1, t, x as int) == slot(v, t, x as int));
            lemma_persisted_own(v, v1, t, t, a);
        }
    }
}

/// All extents end where the last one does, or before.
proof fn lemma_last_end(v: Volume, s: Seq<Extent>, rb: int, p: int)
    requires
        crate::extents::exts_wf(s, rb),
        s.len() == 0 || p >= s.last().lend() * 4096,
        p >= 0,
    ensures
        ubyte(v, s, p) == 0,
{
    let l = p / 4096;
    lemma_find_some(s, l);
    if let Some(e) = find_ext(s, l) {
        let k = s.index_of(e);
        if k < s.len() - 1 {
            assert(s[k].lend() <= s[s.len() - 1].logical);
        }
    }
}

/// Brings an inode that was read from disk in order. Where more than zeros lies behind the end of
/// the file, the inode takes it in, and the length that it has on disk is returned.
fn settle(
    v: &mut Volume,
    t: &Vec<Extent>,
    i: Inode,
    rb: u32,
    v0: Ghost<Volume>,
    good: Ghost<bool>,
) -> (r: (Inode, bool, Option<u64>))
    requires
        old(v).wf(),
        table_ok(old(v).owner@, t@),
        record_size_ok(rb as int),
        0 < i.ino < table_capacity(t@),
        parsed_inode(slot(v0@, t@, i.ino as int)) is Some,
        sits(*old(v), i, rb as int),
        read_from(v0@, parsed_inode(slot(v0@, t@, i.ino as int))->0, *old(v), i, rb as int),
        good@ && !(i.data_kind is Inline) ==> forall|p: int|
            p >= i.size ==> #[trigger] ubyte(*old(v), i.extents@, p) == 0,
    ensures
        final(v).wf(),
        unchanged(*old(v), *final(v)),
        r.0.ino == i.ino,
        r.0 == (Inode { size: r.0.size, ..i }),
        inode_ok(*final(v), None, rb as int, r.0),
        !r.1 ==> persisted(*final(v), t@, r.0),
        ({
            let f = file_of(v0@, parsed_inode(slot(v0@, t@, i.ino as int))->0);
            let n = node_of(*final(v), None, rb as int, r.0);
            match r.2 {
                None => n == f,
                Some(size) => r.1 && overlong(n, f) && size == f.data.len() && !good@,
            }
        }),
{
    let ghost va = *v;
    let ghost iv = parsed_inode(slot(v0@, t@, i.ino as int))->0;
    let ghost f = file_of(v0@, iv);
    let raw = read_slot(v, t, i.ino);
    proof {
        lemma_same_disk_files(va, *v, t@, i.ino + 1);
        assert(slot(*v, t@, i.ino as int) == slot(va, t@, i.ino as int));
    }
    let same = stands_on_disk(v, Ghost(t@), &raw, &i, Ghost(rb as int));
    let ghost vm = *v;
    let clean = i.data_kind == DataKind::Inline || ends_clean(
        v,
        &i.extents,
        i.size,
        Ghost(i.ino),
        Ghost(rb as int),
    );
    let ghost vb = *v;
    proof {
        assert forall|b: int| b >= 0 implies #[trigger] vb.d(b) == va.d(b) by {}
        lemma_same_disk_files(va, vb, t@, i.ino + 1);
        assert(slot(vb, t@, i.ino as int) == slot(va, t@, i.ino as int));
        assert forall|p: int| #[trigger] ubyte(vb, i.extents@, p) == ubyte(va, i.extents@, p) by {
            lemma_same_bytes_at(va, vb, i.extents@, p);
        }
        assert forall|p: int| #[trigger] ubyte(vm, i.extents@, p) == ubyte(va, i.extents@, p) by {
            lemma_same_bytes_at(va, vm, i.extents@, p);
        }
        assert forall|p: int| #[trigger] fbyte(vb, None, rb as int, i, p) == disk_byte(v0@, iv, p) by {
            assert(fbyte(va, None, rb as int, i, p) == disk_byte(v0@, iv, p));
            assert(ubyte(vb, i.extents@, p) == ubyte(va, i.extents@, p));
        }
        assert(content(vb, None, rb as int, i) =~= f.data);
    }
    if clean {
        proof {
            assert(tail_zero(vb, None, rb as int, i)) by {
                assert forall|p: int| p >= i.size implies #[trigger] fbyte(
                    vb,
                    None,
                    rb as int,
                    i,
                    p,
                ) == 0 by {
                    assert(ubyte(vb, i.extents@, p) == ubyte(va, i.extents@, p));
                    assert(ubyte(vm, i.extents@, p) == ubyte(va, i.extents@, p));
                }
            }
            if same {
                assert(persisted(va, t@, i) ==> persisted(vb, t@, i)) by {
                    if persisted(va, t@, i) {
                        assert(own_kept(va, vb, i.ino));
                        lemma_persisted_own(va, vb, t@, t@, i);
                    }
                }
            }
        }
        return (i, !same, None);
    }
    let mut i = i;
    let ghost i0 = i;
    let size = i.size;
    let n: usize = i.extents.len();
    proof {
        let p = choose|p: int| p >= size && #[trigger] ubyte(vm, i0.extents@, p) != 0;
        assert(ubyte(vm, i0.extents@, p) == ubyte(va, i0.extents@, p));
        if n == 0 || p >= i0.extents@.last().lend() * 4096 {
            lemma_last_end(va, i0.extents@, rb as int, p);
        }
        assert(crate::extents::ext_wf(i0.extents@[n - 1], rb as int));
    }
    let last = i.extents[n - 1];
    i.size = (last.logical + last.length as u64) * 4096;
    proof {
        let rbi = rb as int;
        assert(tail_zero(vb, None, rbi, i)) by {
            assert forall|p: int| p >= i.size implies #[trigger] fbyte(vb, None, rbi, i, p) == 0 by {
                lemma_last_end(vb, i.extents@, rbi, p);
            }
        }
        let nn = node_of(vb, None, rbi, i);
        assert(nn.data.take(size as int) =~= f.data) by {
            assert forall|p: int| 0 <= p < size implies nn.data.take(size as int)[p] == f.data[p] by {
                assert(fbyte(vb, None, rbi, i, p) == fbyte(vb, None, rbi, i0, p));
                assert(fbyte(vb, None, rbi, i0, p) == disk_byte(v0@, iv, p));
                assert(nn.data[p] == fbyte(vb, None, rbi, i, p));
            }
        }
    }
    (i, true, Some(size))
}

/// The inodes of a volume, as they were loaded.
pub struct Loaded {
    pub inodes: HashMap<u64, Inode>,
    pub free: Vec<u64>,
    pub dirty: Vec<u64>,
    /// The files that go on behind their ends, and their lengths.
    pub cuts: Vec<(u64, u64)>,
}

/// The numbers that are free: those of no inode, in order.
pub open spec fn free_in(free: Seq<u64>, upto: int, used: Set<u64>) -> bool {
    &&& forall|j: int, k: int|
        0 <= j < k < free.len() ==> (#[trigger] free[j]) < (#[trigger] free[k])
    &&& forall|k: int|
        0 <= k < free.len() ==> 2 <= #[trigger] free[k] < upto && !used.contains(free[k])
    &&& forall|x: u64|
        2 <= x < upto && !#[trigger] used.contains(x) ==> free.contains(x)
}

/// Loads all inodes below number `next`.
#[verifier::rlimit(60)]
fn load_files(
    v: &mut Volume,
    left: &mut Allocator,
    t: &Vec<Extent>,
    next: u64,
    rb: u32,
    w: Ghost<Inner>,
) -> (r: Result<Loaded>)
    requires
        old(v).wf(),
        mirrors(*old(v), *old(left)),
        table_ok(old(v).owner@, t@),
        0 < next <= table_capacity(t@),
        record_size_ok(rb as int),
        forall|x: u64| #[trigger] unseen(*old(v), x),
        fits(w@, *old(v), t@, rb as int) ==> next == w@.sb.next_inode,
    ensures
        match r {
            Ok(l) => {
                &&& loaded(
                    *old(v),
                    *final(v),
                    t@,
                    rb as int,
                    next as int,
                    l.inodes@,
                    l.dirty@,
                    l.cuts@,
                )
                &&& free_in(l.free@, next as int, l.inodes@.dom())
                &&& fits(w@, *old(v), t@, rb as int) ==> l.cuts@.len() == 0
            },
            Err(e) => e.is(EIO) && !fits(w@, *old(v), t@, rb as int),
        },
{
    let ghost v0 = *v;
    let ghost good = fits(w@, v0, t@, rb as int);
    let mut inodes: HashMap<u64, Inode> = HashMap::new();
    let mut free: Vec<u64> = Vec::new();
    let mut dirty: Vec<u64> = Vec::new();
    let mut cuts: Vec<(u64, u64)> = Vec::new();
    let mut ino: u64 = 1;
    while ino < next
        invariant
            v0 == *old(v),
            v0.wf(),
            v.wf(),
            mirrors(*v, *left),
            table_ok(v0.owner@, t@),
            1 <= ino <= next,
            next <= table_capacity(t@),
            record_size_ok(rb as int),
            good == fits(w@, v0, t@, rb as int),
            good ==> next == w@.sb.next_inode,
            good ==> fits(w@, *v, t@, rb as int),
            loaded(v0, *v, t@, rb as int, ino as int, inodes@, dirty@, cuts@),
            free_in(free@, ino as int, inodes@.dom()),
            good ==> cuts@.len() == 0,
        decreases next - ino,
    {
        let ghost va = *v;
        proof {
            lemma_table_kept(v0.owner@, va.owner@, t@);
            lemma_same_disk_files(v0, va, t@, next as int);
            assert(slot(va, t@, ino as int) == slot(v0, t@, ino as int));
            assert(unseen(va, ino));
            if fits(w@, va, t@, rb as int) {
                lemma_fits_before(w@, v0, va, t@, rb as int, ino as int);
            }
        }
        match load_inode(v, left, t, ino, rb, w) {
            Err(e) => return Err(e),
            Ok(None) => {
                proof {
                    lemma_loaded_none(v0, va, *v, t@, rb as int, ino, inodes@, dirty@, cuts@);
                }
                if ino >= FIRST_USER_INO {
                    let ghost f0 = free@;
                    free.push(ino);
                    proof {
                        lemma_pushed(f0, free@, ino, inodes@.dom());
                    }
                }
            },
            Ok(Some(i)) => {
                let ghost vb = *v;
                proof {
                    let iv = parsed_inode(slot(v0, t@, ino as int))->0;
                    lemma_same_disk_file(v0, va, iv);
                    lemma_table_kept(va.owner@, vb.owner@, t@);
                    assert(read_from(v0, iv, vb, i, rb as int)) by {
                        assert forall|p: int| #[trigger] fbyte(vb, None, rb as int, i, p)
                            == disk_byte(v0, iv, p) by {
                            assert(disk_byte(va, iv, p) == disk_byte(v0, iv, p));
                        }
                    }
                    if good && !(i.data_kind is Inline) {
                        assert forall|p: int| p >= i.size implies #[trigger] ubyte(
                            vb,
                            i.extents@,
                            p,
                        ) == 0 by {
                            lemma_fits_tail(w@, va, t@, rb as int, ino, p);
                            lemma_same_bytes_at(va, vb, i.extents@, p);
                        }
                    }
                }
                let (i1, changed, cut) = settle(v, t, i, rb, Ghost(v0), Ghost(good));
                let ghost d0 = dirty@;
                let ghost c0 = cuts@;
                if changed {
                    dirty.push(ino);
                }
                match cut {
                    Some(size) => {
                        cuts.push((ino, size));
                    },
                    None => {},
                }
                proof {
                    let m0 = inodes@;
                    lemma_settled(v0, va, vb, *v, t@, rb as int, ino, m0, d0, dirty@, c0, cuts@, i1, changed, cut);
                    lemma_loaded_more(v0, va, *v, t@, rb as int, ino, m0, d0, dirty@, c0, cuts@, i1);
                    if good {
                        assert forall|b: int| b >= 0 implies #[trigger] v.d(b) == w@.vol.d(b) by {
                            assert(v.d(b) == vb.d(b));
                            assert(vb.d(b) == w@.vol.d(b));
                        }
                    }
                }
                inodes.insert(ino, i1);
            },
        }
        ino = ino + 1;
    }
    Ok(Loaded { inodes, free, dirty, cuts })
}

/// What agrees with a volume did so before more was found.
proof fn lemma_fits_before(w: Inner, v0: Volume, v: Volume, t: Seq<Extent>, rb: int, upto: int)
    requires
        fits(w, v, t, rb),
        grown(v0, v, upto),
    ensures
        fits(w, v0, t, rb),
{
    assert forall|b: int| b >= 0 implies #[trigger] v0.d(b) == w.vol.d(b) by {
        assert(v.d(b) == v0.d(b));
    }
    assert forall|b: int| #[trigger] v0.owner@.contains_key(b) implies w.vol.owner@.contains_key(b)
        && w.vol.owner@[b] == v0.owner@[b] by {
        assert(v.owner@.contains_key(b));
    }
}

/// One more free number.
proof fn lemma_pushed(f0: Seq<u64>, f1: Seq<u64>, ino: u64, used: Set<u64>)
    requires
        free_in(f0, ino as int, used),
        f1 == f0.push(ino),
        ino >= 2,
        !used.contains(ino),
    ensures
        free_in(f1, ino + 1, used),
{
    assert forall|x: u64| 2 <= x < ino + 1 && !#[trigger] used.contains(x) implies f1.contains(
        x,
    ) by {
        if x < ino {
            let k = f0.index_of(x);
            assert(f1[k] == x);
        } else {
            assert(f1[f0.len() as int] == x);
        }
    }
}

/// An inode that was settled is a loaded one.
proof fn lemma_settled(
    v0: Volume,
    va: Volume,
    vb: Volume,
    vc: Volume,
    t: Seq<Extent>,
    rb: int,
    ino: u64,
    inodes: Map<u64, Inode>,
    d0: Seq<u64>,
    d1: Seq<u64>,
    c0: Seq<(u64, u64)>,
    c1: Seq<(u64, u64)>,
    i: Inode,
    changed: bool,
    cut: Option<u64>,
)
    requires
        loaded(v0, va, t, rb, ino as int, inodes, d0, c0),
        loaded_more(va, vb, ino),
        unchanged(vb, vc),
        vc.wf(),
        i.ino == ino,
        inode_ok(vc, None, rb, i),
        !changed ==> persisted(vc, t, i),
        i.compresses() == parsed_inode(slot(v0, t, ino as int))->0.compresses(),
        d1 == if changed {
            d0.push(ino)
        } else {
            d0
        },
        ({
            let f = file_of(v0, parsed_inode(slot(v0, t, ino as int))->0);
            let n = node_of(vc, None, rb, i);
            match cut {
                None => n == f && c1 == c0,
                Some(size) => overlong(n, f) && c1 == c0.push((ino, size)),
            }
        }),
    ensures
        loaded_more(va, vc, ino),
        entry_ok(v0, vc, t, rb, i, d1, c1),
{
    assert forall|b: int| b >= 0 implies #[trigger] vc.d(b) == va.d(b) by {
        assert(vb.d(b) == va.d(b));
    }
    if changed {
        assert(d1[d0.len() as int] == ino);
        assert(d1.contains(ino));
    }
    match cut {
        None => {
            if is_cut(c1, ino) {
                let k = choose|k: int| 0 <= k < c1.len() && (#[trigger] c1[k]).0 == ino;
                assert(inodes.contains_key(c0[k].0));
            }
        },
        Some(size) => {
            assert(c1[c0.len() as int].0 == ino);
            assert(is_cut(c1, ino));
        },
    }
}

/// A mount finds volume `t` in an image: the superblock, or its copy where it is damaged, is that of
/// `t`; and once the writes that the journal holds are done, every block that `t` has in use is what
/// it is for `t`.
pub open spec fn recovers(t: Inner, image: Seq<u8>) -> bool {
    let sb = disk_super(image)->0;
    let txs = found_txs(image, sb);
    let now = replayed(image, sb);
    &&& image.len() <= max_blocks() * 4096
    &&& disk_super(image) is Some
    &&& same_super(t.sb@, sb)
    &&& sb.alloc_block == t.sb.alloc_block
    &&& (1 + sb.journal_blocks) * 4096 <= image.len()
    &&& forall|i: int| 0 <= i < txs.len() ==> ops_fit(sb.table, #[trigger] txs[i])
    &&& forall|b: int| #[trigger]
        t.vol.owner@.contains_key(b) ==> image_block(now, b) == image_block(t.vol.image@, b) && (
        t.vol.owner@[b] == Owner::Area ==> (b + 1) * 4096 <= now.len())
}

/// A mount of an image is owed, and finds volume `t`: one that was written back, whose records can
/// be told from other data.
pub open spec fn reopens(t: Inner, image: Seq<u8>) -> bool {
    &&& rests(t)
    &&& t.sound()
    &&& clear(t)
    &&& recovers(t, image)
}

/// The superblock of a volume that rests is read back from where it is written.
proof fn lemma_super_read(t: Inner) -> (total: u64)
    requires
        rests(t),
    ensures
        super_at(t, total),
        parsed_super((SuperView { total_blocks: total, ..t.sb@ }).bytes()) == Some(
            SuperView { total_blocks: total, ..t.sb@ },
        ),
{
    let total = choose|total: u64| super_at(t, total);
    let sv = SuperView { total_blocks: total, ..t.sb@ };
    superblock_roundtrip(sv, Seq::empty());
    assert(sv.bytes() + Seq::<u8>::empty() =~= sv.bytes());
    assert(stored_extents(sv.kept_table()) =~= sv.table) by {
        assert forall|k: int| 0 <= k < sv.table.len() implies stored_extents(sv.table)[k]
            == sv.table[k] by {
            assert(table_ext_claimed(t.vol.owner@, t.table()[k]));
        }
    }
    assert(sv.stored() == sv);
    total
}

/// What was written back is there after a mount: the image of a volume that rests can be mounted.
pub proof fn rested_image_reopens(t: Inner)
    requires
        rests(t),
        t.sound(),
        clear(t),
    ensures
        reopens(t, t.vol.image@),
{
    let total = lemma_super_read(t);
    lemma_area_within(t);
}

/// An image whose superblock is damaged can be mounted all the same, as long as the number of its
/// journal blocks can still be read.
pub proof fn damaged_superblock_reopens(t: Inner, damaged: Seq<u8>)
    requires
        rests(t),
        t.sound(),
        clear(t),
        damaged.len() == t.vol.image@.len(),
        forall|b: int|
            b >= 1 ==> #[trigger] image_block(damaged, b) == image_block(t.vol.image@, b),
        parsed_super(image_block(damaged, 0)) is None,
        u32_at(image_block(damaged, 0), 16) == t.sb.journal_blocks,
    ensures
        reopens(t, damaged),
{
    let total = lemma_super_read(t);
    lemma_area_within(t);
    copy_replaces_superblock(t, damaged);
    assert forall|b: int| #[trigger] t.vol.owner@.contains_key(b) implies image_block(damaged, b)
        == image_block(t.vol.image@, b) by {
        assert(b >= 1);
    }
}

/// The blocks of the free-space map lie within the image.
proof fn lemma_area_within(t: Inner)
    requires
        rests(t),
    ensures
        t.vol.image@.len() <= max_blocks() * 4096,
        forall|b: int| #[trigger]
            t.vol.owner@.contains_key(b) && t.vol.owner@[b] == Owner::Area ==> (b + 1) * 4096
                <= t.vol.image@.len(),
{
    assert(t.vol.image.wf());
    let (n, a) = choose|n: int, a: Allocator| map_covers(t, n, a);
    let start = t.sb.alloc_block as int;
    assert(t.vol.d(start) == image_block(t.vol.image@, start));
    assert forall|b: int| #[trigger]
        t.vol.owner@.contains_key(b) && t.vol.owner@[b] == Owner::Area implies (b + 1) * 4096
        <= t.vol.image@.len() by {
        assert(in_place(t.vol, t.inodes@, t.table(), t.sb.alloc_block, b, t.vol.owner@[b]));
    }
}

/// A volume that is found in an image, as it stands there.
spec fn moved_to(t: Inner, v: Volume) -> Inner {
    Inner { vol: Volume { image: v.image, cache: v.cache, ..t.vol }, ..t }
}

proof fn lemma_moved_to(t: Inner, v: Volume, image: Seq<u8>)
    requires
        reopens(t, image),
        v.image.wf(),
        v.image@ == replayed(image, disk_super(image)->0),
        v.cache.wf(v.image@),
        v.cache.map@ == Map::<u64, crate::cache::Entry>::empty(),
    ensures
        ({
            let w = moved_to(t, v);
            &&& lies(w)
            &&& w.sound()
            &&& clear(w)
            &&& w@ == t@
            &&& w.table() == (disk_super(image)->0).table
            &&& w.sb.next_inode == (disk_super(image)->0).next_inode
        }),
{
    let w = moved_to(t, v);
    lemma_rests_lies(t);
    lemma_lies_elsewhere(t, w);
    assert forall|ino: u64| #[trigger] w.inodes@.contains_key(ino) implies unambiguous(
        w.vol,
        w.inodes@[ino],
    ) by {
        let i = t.inodes@[ino];
        assert(unambiguous(t.vol, i));
        assert(inode_ok(t.vol, t.record_cache, t.rb(), i));
        if i.compresses() {
            assert forall|k: int|
                0 <= k < i.extents@.len() && (#[trigger] i.extents@[k]).compress
                    == 0 implies parsed_header(w.vol.d(i.extents@[k].physical as int)) is None by {
                let e = i.extents@[k];
                assert(ext_wf(i.extents@[k], t.rb()));
                assert(ext_claimed(t.vol.owner@, ino, i.extents@[k]));
                assert(t.vol.owner@.contains_key(e.physical as int));
            }
        }
    }
}

/// The free-space map of a volume that stands in an image is found there.
proof fn lemma_reopens_map(t: Inner, image: Seq<u8>)
    requires
        lies(t),
        t.vol.image@ == image,
    ensures
        t.sb.alloc_block > 0,
        is_area(image, t.sb.alloc_block as int),
        crate::allocator::is_map(area_contents(image, t.sb.alloc_block as int)),
        forall|a: Allocator|
            #[trigger] Allocator::decoded(area_contents(image, t.sb.alloc_block as int), a)
                ==> a.wf() && a.first_data == t.vol.alloc.first_data && (forall|b: int| #[trigger]
                t.vol.owner@.contains_key(b) ==> b < a.total_blocks && !a.is_free(b)),
{
    let (n, m) = choose|n: int, a: Allocator| map_holds(t, n, a);
    let start = t.sb.alloc_block as int;
    crate::allocator::lemma_runs_bytes_len(m.free@);
    crate::bytes::lemma_le();
    assert(m.bytes().len() == 24 + 16 * m.free@.len());
    area_roundtrip(image, start, n, m.bytes());
    map_roundtrip(m, Seq::empty());
    assert(m.bytes() + Seq::<u8>::empty() =~= m.bytes());
    assert forall|a: Allocator|
        #[trigger] Allocator::decoded(area_contents(image, start), a) implies a.wf()
        && a.first_data == t.vol.alloc.first_data && (forall|b: int| #[trigger]
        t.vol.owner@.contains_key(b) ==> b < a.total_blocks && !a.is_free(b)) by {
        assert forall|x: crate::allocator::Run| #[trigger]
            a.free@.contains(x) <==> m.free@.contains(x) by {}
        assert(crate::allocator::sorted(m.free@)) by {
            assert forall|i: int, j: int| 0 <= i < j < m.free@.len() implies (#[trigger] m.free@[i]).0
                < (#[trigger] m.free@[j]).0 by {
                assert(m.free@[i].0 + m.free@[i].1 < m.free@[j].0);
            }
        }
        lemma_sorted_unique(a.free@, m.free@);
        assert forall|b: int| a.is_free(b) == m.is_free(b) by {}
    }
}

/// Reads the superblock, or its copy where it is damaged.
fn read_super(image: &Image) -> (r: Result<Superblock>)
    requires
        image.wf(),
    ensures
        match r {
            Ok(sb) => disk_super(image@) == Some(sb@) && sb.uuid@.len() == 16
                && sb.inode_table_extents@.len() <= MAX_TABLE_EXTENTS,
            Err(e) => disk_super(image@) is None && e.is(EIO),
        },
{
    let mut buf: Vec<u8> = crate::bytes::zero_vec(4096);
    match image.read_block(0, buf.as_mut_slice()) {
        Ok(_) => {},
        Err(_) => return Err(eio("read past end of image")),
    }
    match Superblock::decode(buf.as_slice()) {
        Ok(sb) => Ok(sb),
        Err(_) => {
            let copy: u64 = 1 + crate::bytes::get_u32(buf.as_slice(), 16) as u64;
            match image.read_block(copy, buf.as_mut_slice()) {
                Ok(_) => {},
                Err(_) => return Err(eio("read past end of image")),
            }
            Superblock::decode(buf.as_slice())
        },
    }
}

/// Claims the blocks of the inode table.
#[verifier::rlimit(40)]
fn claim_table(
    v: &mut Volume,
    left: &mut Allocator,
    t: &Vec<Extent>,
    rb: Ghost<int>,
    w: Ghost<Inner>,
) -> (r: bool)
    requires
        old(v).wf(),
        mirrors(*old(v), *old(left)),
        old(v).owner@ == Map::<int, Owner>::empty(),
    ensures
        final(v).wf(),
        mirrors(*final(v), *final(left)),
        *final(v) == (Volume { owner: final(v).owner, ..*old(v) }),
        r ==> table_ok(final(v).owner@, t@) && forall|b: int| #[trigger]
            final(v).owner@.contains_key(b) ==> final(v).owner@[b] is Table && at_place(
                t@,
                final(v).owner@[b]->Table_0,
                b,
            ),
        fits(w@, *old(v), t@, rb@) ==> r && fits(w@, *final(v), t@, rb@),
{
    let ghost v0 = *v;
    let ghost good = fits(w@, v0, t@, rb@);
    let n: usize = t.len();
    let limit = block_limit();
    if n == 0 {
        return false;
    }
    let mut k: usize = 0;
    let mut next: u64 = 0;
    while k < n
        invariant
            v0 == *old(v),
            v.wf(),
            mirrors(*v, *left),
            *v == (Volume { owner: v.owner, ..v0 }),
            good == fits(w@, v0, t@, rb@),
            good ==> fits(w@, *v, t@, rb@),
            limit == max_blocks(),
            n == t@.len(),
            k <= n,
            next <= MAX_FILE_BLOCKS,
            k == 0 ==> next == 0,
            k > 0 ==> next == t@[k - 1].lend(),
            forall|j: int|
                0 <= j < k ==> (#[trigger] t@[j]).length > 0 && t@[j].phys_length == 0
                    && t@[j].compress == 0 && t@[j].lend() <= MAX_FILE_BLOCKS && table_ext_claimed(
                    v.owner@,
                    t@[j],
                ),
            k > 0 ==> t@[0].logical == 0,
            forall|j: int| 0 <= j < k - 1 ==> (#[trigger] t@[j]).lend() == t@[j + 1].logical,
            forall|i: int, j: int|
                0 <= i < j < k ==> (#[trigger] t@[i]).lend() <= (#[trigger] t@[j]).logical,
            forall|j: int| 0 <= j < k ==> (#[trigger] t@[j]).lend() <= next,
            forall|b: int| #[trigger]
                v.owner@.contains_key(b) ==> v.owner@[b] is Table && v.owner@[b]->Table_0 < next
                    && at_place(t@.take(k as int), v.owner@[b]->Table_0, b),
        decreases n - k,
    {
        let e = t[k];
        let ghost va = *v;
        proof {
            if good {
                assert(table_ext_claimed(w@.vol.owner@, w@.table()[k as int]));
                if k > 0 {
                    assert(w@.table()[k - 1].lend() == w@.table()[k as int].logical);
                }
            }
        }
        if e.logical != next || e.length == 0 || e.phys_length != 0 || e.compress != 0 || e.logical
            + e.length as u64 > MAX_FILE_BLOCKS || e.physical >= limit {
            proof {
                if good {
                    assert(w@.vol.owner@.contains_key(e.physical as int));
                }
            }
            return false;
        }
        if !claim(v, left, e.physical, e.length as u64, Ghost(Owner::Table(e.logical as int))) {
            proof {
                if good {
                    let b = choose|b: int|
                        e.physical <= b < e.physical + e.length && !#[trigger] claimable(va, b);
                    assert(w@.vol.owner@.contains_key(b));
                    assert(w@.vol.wf());
                    assert(claimable(va, b));
                }
            }
            return false;
        }
        proof {
            let m = v.owner@;
            assert forall|j: int| 0 <= j < k + 1 implies table_ext_claimed(m, #[trigger] t@[j]) by {
                let f = t@[j];
                if j < k {
                    assert(table_ext_claimed(va.owner@, f));
                    assert forall|b: int| f.physical <= b < f.physical + f.length implies #[trigger] m.contains_key(
                        b) && m[b] == Owner::Table(f.logical + (b - f.physical)) by {
                        assert(va.owner@.contains_key(b));
                        if e.physical <= b < e.physical + e.length {
                            assert(!va.owner@.contains_key(b));
                        }
                    }
                } else {
                    assert forall|b: int| f.physical <= b < f.physical + f.length implies #[trigger] m.contains_key(
                        b) && m[b] == Owner::Table(f.logical + (b - f.physical)) by {}
                }
            }
            assert forall|j: int| 0 <= j < k + 1 implies (#[trigger] t@[j]).length > 0
                && t@[j].phys_length == 0 && t@[j].compress == 0 && t@[j].lend() <= MAX_FILE_BLOCKS
                && table_ext_claimed(m, t@[j]) by {}
            assert(t@.take(k + 1) =~= t@.take(k as int).push(e));
            assert forall|b: int| #[trigger] m.contains_key(b) implies m[b] is Table
                && m[b]->Table_0 < e.lend() && at_place(t@.take(k + 1), m[b]->Table_0, b) by {
                let l = m[b]->Table_0;
                lemma_find_push(t@.take(k as int), e, l);
                if e.physical <= b < e.physical + e.length {
                    lemma_find_some(t@.take(k as int), l);
                    if let Some(x) = find_ext(t@.take(k as int), l) {
                        let j = t@.take(k as int).index_of(x);
                        assert(t@[j] == x);
                        assert(t@[j].lend() <= next);
                    }
                } else {
                    assert(va.owner@.contains_key(b));
                }
            }
            if good {
                assert forall|b: int| b >= 0 implies #[trigger] v.d(b) == w@.vol.d(b) by {
                    assert(va.d(b) == w@.vol.d(b));
                }
                assert forall|b: int| #[trigger] m.contains_key(b) implies w@.vol.owner@.contains_key(
                    b,
                ) && w@.vol.owner@[b] == m[b] by {
                    if e.physical <= b < e.physical + e.length {
                        assert(table_ext_claimed(w@.vol.owner@, w@.table()[k as int]));
                        assert(w@.vol.owner@.contains_key(b));
                    } else {
                        assert(va.owner@.contains_key(b));
                    }
                }
            }
        }
        next = e.logical + e.length as u64;
        k = k + 1;
    }
    assert(t@.take(n as int) =~= t@);
    true
}

/// Claims the blocks of the free-space map.
fn claim_area(
    v: &mut Volume,
    left: &mut Allocator,
    start: u64,
    t: Ghost<Seq<Extent>>,
    rb: Ghost<int>,
    w: Ghost<Inner>,
) -> (r: bool)
    requires
        old(v).wf(),
        mirrors(*old(v), *old(left)),
        start > 0,
        forall|b: int| #[trigger]
            old(v).owner@.contains_key(b) ==> old(v).owner@[b] is Table,
        fits(w@, *old(v), t@, rb@) ==> w@.sb.alloc_block == start,
    ensures
        final(v).wf(),
        mirrors(*final(v), *final(left)),
        final(v).alloc == old(v).alloc,
        forall|b: int| b >= 0 ==> #[trigger] final(v).d(b) == old(v).d(b),
        forall|b: int| #[trigger]
            old(v).owner@.contains_key(b) ==> final(v).owner@.contains_key(b)
                && final(v).owner@[b] == old(v).owner@[b],
        old(v).idle() ==> final(v).idle() && final(v).image == old(v).image,
        final(v).cache.capacity == old(v).cache.capacity,
        final(v).image@.len() >= old(v).image@.len(),
        forall|b: int| #[trigger]
            final(v).owner@.contains_key(b) && !old(v).owner@.contains_key(b)
                ==> final(v).owner@[b] == Owner::Area && start <= b < start + area_len(
                old(v).d(start as int),
            ),
        r ==> {
            let n = area_len(old(v).d(start as int));
            &&& is_area_head(old(v).d(start as int))
            &&& n > 0
            &&& forall|b: int|
                start <= b < start + n ==> #[trigger] final(v).owner@.contains_key(b)
                    && final(v).owner@[b] == Owner::Area
        },
        fits(w@, *old(v), t@, rb@) ==> r && fits(w@, *final(v), t@, rb@),
{
    let ghost v0 = *v;
    let ghost good = fits(w@, v0, t@, rb@);
    let limit = block_limit();
    proof {
        if good {
            assert(v0.d(start as int) == w@.vol.d(start as int));
            assert(w@.vol.owner@.contains_key(start as int));
            assert(w@.vol.wf());
        }
    }
    if start < v.alloc.first_data || start >= limit {
        return false;
    }
    let head = v.get(start);
    let ghost va = *v;
    let n: u64 = crate::bytes::get_u32(head.as_slice(), 4) as u64;
    let magic: &[u8] = &[65u8, 76, 78, 0];
    assert(magic@ =~= crate::allocmap::area_magic());
    if n == 0 || !crate::bytes::bytes_equal(
        vstd::slice::slice_subrange(head.as_slice(), 0, 4),
        magic,
    ) {
        return false;
    }
    if !claim(v, left, start, n, Ghost(Owner::Area)) {
        proof {
            if good {
                let b = choose|b: int| start <= b < start + n && !#[trigger] claimable(va, b);
                assert(w@.vol.owner@.contains_key(b));
                assert(claimable(va, b));
            }
        }
        return false;
    }
    proof {
        assert forall|b: int| b >= 0 implies #[trigger] v.d(b) == v0.d(b) by {
            assert(va.d(b) == v0.d(b));
        }
        if good {
            assert forall|b: int| b >= 0 implies #[trigger] v.d(b) == w@.vol.d(b) by {
                assert(v.d(b) == v0.d(b));
            }
            assert forall|b: int| #[trigger] v.owner@.contains_key(b) implies w@.vol.owner@.contains_key(
                b,
            ) && w@.vol.owner@[b] == v.owner@[b] by {
                if start <= b < start + n {
                    assert(w@.vol.owner@.contains_key(b));
                } else {
                    assert(v0.owner@.contains_key(b));
                }
            }
        }
    }
    true
}

/// Cuts a file that goes on behind its end.
fn cut_one(s: &mut Inner, ino: u64, size: u64, f: Ghost<Node>) -> (r: Result<()>)
    requires
        old(s).wf(),
        old(s).writable,
        old(s)@.nodes.contains_key(ino),
        overlong(old(s)@.nodes[ino], f@),
        size == f@.data.len(),
    ensures
        match r {
            Ok(_) => keeps(*old(s), *final(s)) && final(s).wf() && final(s)@ == old(s)@.with(ino, f@) && final(s).record_blocks
                == old(s).record_blocks,
            Err(e) => e.is(EIO) || e.is(ENOSPC),
        },
{
    let ghost s0 = *s;
    assert(s.inodes@.contains_key(ino));
    assert(inode_shape(s.inodes@[ino], s.rb()));
    let m = match s.meta(ino) {
        Ok(m) => m,
        Err(e) => return Err(e),
    };
    match s.truncate_data(ino, size) {
        Ok(_) => {},
        Err(e) => return Err(e),
    }
    let ghost s1 = *s;
    s.set_meta(ino, m);
    proof {
        let g = s0@.nodes[ino];
        if g.data.len() == size {
            assert(g.data.take(size as int) =~= g.data);
        } else {
            assert(crate::store::resized(g.data, size as nat) =~= f@.data);
        }
        assert(s1@.nodes[ino].data == f@.data);
        assert(s@.nodes =~= s0@.nodes.insert(ino, f@));
    }
    Ok(())
}

/// Cuts the files that go on behind their ends.
fn cut_back(s: &mut Inner, cuts: &Vec<(u64, u64)>, files: Ghost<Map<u64, Node>>) -> (r: Result<()>)
    requires
        old(s).wf(),
        old(s).writable,
        old(s)@.nodes.dom() == files@.dom(),
        forall|x: u64| #[trigger]
            files@.contains_key(x) && !is_cut(cuts@, x) ==> old(s)@.nodes[x] == files@[x],
        forall|k: int|
            0 <= k < cuts@.len() ==> files@.contains_key((#[trigger] cuts@[k]).0) && overlong(
                old(s)@.nodes[cuts@[k].0],
                files@[cuts@[k].0],
            ) && cuts@[k].1 == files@[cuts@[k].0].data.len(),
        forall|j: int, k: int|
            0 <= j < k < cuts@.len() ==> (#[trigger] cuts@[j]).0 < (#[trigger] cuts@[k]).0,
    ensures
        match r {
            Ok(_) => final(s).wf() && final(s)@ == (FsView { nodes: files@, ..old(s)@ })
                && final(s).record_blocks == old(s).record_blocks && keeps(*old(s), *final(s)) && (
            cuts@.len() == 0 ==> *final(s) == *old(s)),
            Err(e) => cuts@.len() > 0 && (e.is(EIO) || e.is(ENOSPC)),
        },
{
    let ghost s0 = *s;
    let n: usize = cuts.len();
    let mut k: usize = 0;
    assert(cuts@.skip(0) =~= cuts@);
    while k < n
        invariant
            s.wf(),
            s0 == *old(s),
            n == cuts@.len(),
            k <= n,
            s0.writable,
            k == 0 ==> *s == s0,
            s@ == (FsView { nodes: s@.nodes, ..s0@ }),
            keeps(s0, *s),
            s.record_blocks == s0.record_blocks,
            s@.nodes.dom() == files@.dom(),
            s@.nodes.dom() == s0@.nodes.dom(),
            forall|x: u64| #[trigger]
                files@.contains_key(x) && !is_cut(cuts@.skip(k as int), x) ==> s@.nodes[x]
                    == files@[x],
            forall|j: int|
                k <= j < n ==> files@.contains_key((#[trigger] cuts@[j]).0) && overlong(
                    s@.nodes[cuts@[j].0],
                    files@[cuts@[j].0],
                ) && cuts@[j].1 == files@[cuts@[j].0].data.len(),
            forall|i: int, j: int|
                0 <= i < j < cuts@.len() ==> (#[trigger] cuts@[i]).0 < (#[trigger] cuts@[j]).0,
        decreases n - k,
    {
        let (ino, size) = cuts[k];
        let ghost sa = *s;
        proof {
            assert(files@.contains_key(cuts@[k as int].0));
            assert(s@.nodes.dom().contains(ino));
        }
        match cut_one(s, ino, size, Ghost(files@[ino])) {
            Ok(_) => {},
            Err(e) => return Err(e),
        }
        proof {
            assert(s@.nodes == sa@.nodes.insert(ino, files@[ino]));
            assert forall|x: u64| #[trigger]
                files@.contains_key(x) && !is_cut(cuts@.skip(k + 1), x) implies s@.nodes[x]
                == files@[x] by {
                if x != ino {
                    if is_cut(cuts@.skip(k as int), x) {
                        let j = choose|j: int|
                            0 <= j < cuts@.skip(k as int).len() && (#[trigger] cuts@.skip(
                                k as int,
                            )[j]).0 == x;
                        assert(cuts@.skip(k + 1)[j - 1] == cuts@.skip(k as int)[j]);
                    }
                }
            }
            assert forall|j: int| k + 1 <= j < n implies files@.contains_key((#[trigger] cuts@[j]).0)
                && overlong(s@.nodes[cuts@[j].0], files@[cuts@[j].0]) && cuts@[j].1
                == files@[cuts@[j].0].data.len() by {
                assert(cuts@[k as int].0 < cuts@[j].0);
            }
            assert(s@.nodes.dom() =~= files@.dom());
        }
        k = k + 1;
    }
    proof {
        assert(cuts@.skip(n as int).len() == 0);
        assert(s@.nodes =~= files@);
    }
    Ok(())
}

/// The number that the next new inode of a volume with superblock `sb` gets.
pub open spec fn mounted_next(sb: SuperView) -> int {
    if sb.next_inode < table_capacity(sb.table) {
        sb.next_inode as int
    } else {
        table_capacity(sb.table)
    }
}

/// Volume `s` has the files that the blocks of `v` hold, which are those of `image`.
pub open spec fn holds_files(s: Inner, v: Volume, image: Seq<u8>, sb: SuperView) -> bool {
    &&& shows(v, image)
    &&& s@.nodes == disk_files(v, sb.table, s@.next_inode as int)
}

/// Volume `s` is what `image` holds.
pub open spec fn opened(s: Inner, image: Seq<u8>, writable: bool) -> bool {
    let sb = disk_super(image)->0;
    &&& disk_super(image) is Some
    &&& s.wf()
    &&& s@.next_inode == mounted_next(sb)
    &&& exists|v: Volume| holds_files(s, v, replayed(image, sb), sb)
    &&& free_in(s@.free_inodes, s@.next_inode as int, s@.nodes.dom())
    &&& s@.opens == Map::<u64, u32>::empty()
    &&& s@.orphans == Set::<u64>::empty()
    &&& s@.writable == writable
    &&& !s@.check_perm
    &&& s@.clock.normal()
    &&& s@.default_compression == compression_code(compression_of(sb.default_compression))
    &&& s.record_blocks == mounted_record_blocks(sb.record_blocks)
    &&& s.vol.lost@ == stray(s.vol)
    &&& drained(s)
    &&& s.sb.uuid@ == sb.uuid
    &&& s.sb.generation == sb.generation
    &&& s.sb.root_ino == sb.root_ino
    &&& s.sb.features == sb.features
    &&& s.sb.journal_blocks == sb.journal_blocks
}

/// Volume `s`, as it was mounted from `image`, has the files of `t`; and nothing waits to be written
/// into the image, nor is there anything for the host file to do where the journal holds nothing
/// to apply.
pub open spec fn stands_for(s: Inner, t: Inner, image: Seq<u8>) -> bool {
    &&& s@.nodes == t@.nodes
    &&& bare(t) ==> bare(s)
    &&& s.idle()
    &&& found_txs(image, disk_super(image)->0).len() == 0 ==> s.vol.image@ == image
        && s.vol.image.log@.len() == 0
}

/// The blocks that are in use in the free-space map and belong to nothing.
pub open spec fn stray(v: Volume) -> Set<int> {
    Set::new(
        |b: int|
            v.lo() <= b < v.alloc.total_blocks && !v.alloc.is_free(b) && !v.owner@.contains_key(b),
    )
}

/// To note which blocks belong to nothing changes nothing else.
proof fn lemma_lost_noted(s0: Inner, s1: Inner)
    requires
        s0.wf(),
        s1.vol.lost@ == stray(s0.vol),
        s1 == (Inner { vol: Volume { lost: s1.vol.lost, ..s0.vol }, ..s0 }),
    ensures
        s1.wf(),
        s1@ == s0@,
{
    let v0 = s0.vol;
    let v1 = s1.vol;
    let t = s0.table();
    let rc = s0.record_cache;
    let rb = s0.rb();
    assert(v1.wf()) by {
        reveal(accounted);
    }
    assert forall|b: int| #[trigger] v1.d(b) == v0.d(b) by {}
    lemma_table_kept(v0.owner@, v1.owner@, t);
    assert forall|x: u64| #[trigger] s0.inodes@.contains_key(x) implies inode_ok(
        v1,
        rc,
        rb,
        s0.inodes@[x],
    ) && node_of(v1, rc, rb, s0.inodes@[x]) == node_of(v0, rc, rb, s0.inodes@[x]) && own_kept(
        v0,
        v1,
        x,
    ) && (forall|p: int| #[trigger]
        ubyte(v1, s0.inodes@[x].extents@, p) == ubyte(v0, s0.inodes@[x].extents@, p)) by {
        assert(own_kept(v0, v1, x));
        lemma_inode_own(v0, v1, rc, rc, rb, s0.inodes@[x]);
    }
    assert(s1@.nodes =~= s0@.nodes);
    assert(synced(v1, t, s1.inodes@, s1.dirty_inodes@, s1.sb.next_inode)) by {
        assert forall|x: u64| #[trigger]
            s1.inodes@.contains_key(x) && !s1.dirty_inodes@.contains(x) implies persisted(
            v1,
            t,
            s1.inodes@[x],
        ) by {
            lemma_slot_kept(v0, v1, t, x as int);
            lemma_persisted_own(v0, v1, t, t, s0.inodes@[x]);
        }
        assert forall|x: u64|
            0 < x < s1.sb.next_inode && !#[trigger] s1.inodes@.contains_key(
                x,
            ) implies parsed_inode(slot(v1, t, x as int)) is None by {
            assert(!s0.inodes@.contains_key(x));
            lemma_slot_kept(v0, v1, t, x as int);
        }
    }
    assert(places_ok(v1, s1.inodes@, t, s1.sb.alloc_block)) by {
        assert forall|b: int| #[trigger] v1.owner@.contains_key(b) implies in_place(
            v1,
            s1.inodes@,
            t,
            s1.sb.alloc_block,
            b,
            v1.owner@[b],
        ) by {
            assert(in_place(v0, s0.inodes@, t, s0.sb.alloc_block, b, v0.owner@[b]));
        }
    }
    if let Some(c) = rc {
        assert forall|q: int| !c.dirty && 0 <= q < rb * 4096 implies #[trigger] c.data@[q] == ubyte(
            v1,
            s1.inodes@[c.ino].extents@,
            c.start * 4096 + q,
        ) by {
            assert(s0.inodes@.contains_key(c.ino));
        }
    }
}

/// A volume that stands in an image agrees with what is read from there.
proof fn lemma_reopens_fits(w: Inner, v: Volume, rb: int, t: Seq<Extent>)
    requires
        lies(w),
        w.sound(),
        clear(w),
        v.owner@ == Map::<int, Owner>::empty(),
        shows(v, w.vol.image@),
        v.alloc.wf(),
        v.alloc.first_data == w.vol.alloc.first_data,
        w.table() == t,
        rb == w.rb(),
        forall|b: int| #[trigger]
            w.vol.owner@.contains_key(b) ==> b < v.alloc.total_blocks && !v.alloc.is_free(b),
    ensures
        fits(w, v, t, rb),
{
    assert forall|b: int| b >= 0 implies #[trigger] v.d(b) == w.vol.d(b) by {
        assert(w.vol.d(b) == image_block(w.vol.image@, b));
    }
}

/// Every volume that stands in the image has the files that were found there.
proof fn lemma_reopens_same(w: Inner, v: Volume)
    requires
        lies(w),
        w.sound(),
        clear(w),
        shows(v, w.vol.image@),
    ensures
        w@.nodes == disk_files(v, w.table(), w.sb.next_inode as int),
        0 < w.sb.next_inode <= table_capacity(w.table()),
{
    lemma_lies_read(w);
    assert forall|b: int| b >= 0 implies #[trigger] v.d(b) == w.vol.d(b) by {
        assert(w.vol.d(b) == image_block(w.vol.image@, b));
    }
    lemma_same_disk_files(w.vol, v, w.table(), w.sb.next_inode as int);
}

/// The files of a volume without compression are loaded as such.
proof fn lemma_loads_bare(w: Inner, v0: Volume, v: Volume, l: Loaded)
    requires
        lies(w),
        bare(w),
        forall|b: int| b >= 0 ==> #[trigger] v0.d(b) == w.vol.d(b),
        loaded(
            v0,
            v,
            w.table(),
            w.rb(),
            w.sb.next_inode as int,
            l.inodes@,
            l.dirty@,
            l.cuts@,
        ),
    ensures
        all_bare(l.inodes@),
{
    reveal(all_bare);
    let t = w.table();
    lemma_same_disk_files(w.vol, v0, t, w.sb.next_inode as int);
    assert forall|x: u64| #[trigger] l.inodes@.contains_key(x) implies !l.inodes@[x].compresses() by {
        assert(entry_ok(v0, v, t, w.rb(), l.inodes@[x], l.dirty@, l.cuts@));
        assert(slot(v0, t, x as int) == slot(w.vol, t, x as int));
        assert(parsed_inode(slot(v0, t, x as int)) is Some);
        if !w.inodes@.contains_key(x) {
            assert(parsed_inode(slot(w.vol, t, x as int)) is None);
        }
        let i = w.inodes@[x];
        assert(!w.dirty_inodes@.contains(x));
        assert(persisted(w.vol, t, i));
        inode_roundtrip(i@, Seq::empty());
        assert(i@.bytes() + Seq::<u8>::empty() =~= i@.bytes());
    }
}

/// The blocks of the inode table and of the free-space map, and no others, were claimed.
pub open spec fn frame_claimed(v1: Volume, v2: Volume, t: Seq<Extent>, area: u64) -> bool {
    &&& forall|b: int| #[trigger]
        v1.owner@.contains_key(b) ==> v1.owner@[b] is Table && at_place(
            t,
            v1.owner@[b]->Table_0,
            b,
        )
    &&& forall|b: int| #[trigger]
        v1.owner@.contains_key(b) ==> v2.owner@.contains_key(b) && v2.owner@[b] == v1.owner@[b]
    &&& forall|b: int| #[trigger]
        v2.owner@.contains_key(b) && !v1.owner@.contains_key(b) ==> v2.owner@[b] == Owner::Area
            && area != 0 && area <= b < area + area_len(v1.d(area as int))
    &&& forall|b: int| b >= 0 ==> #[trigger] v2.d(b) == v1.d(b)
    &&& v2.image@.len() >= v1.image@.len()
    &&& v1.idle() ==> v2.idle() && v2.image == v1.image
    &&& v2.cache.capacity == v1.cache.capacity
    &&& area != 0 ==> {
        let n = area_len(v1.d(area as int));
        &&& is_area_head(v1.d(area as int))
        &&& n > 0
        &&& forall|b: int|
            area <= b < area + n ==> #[trigger] v2.owner@.contains_key(b) && v2.owner@[b]
                == Owner::Area
    }
}

/// Before inodes are loaded, no block belongs to one.
proof fn lemma_frame_claimed(v1: Volume, v2: Volume, t: Seq<Extent>, area: u64)
    requires
        frame_claimed(v1, v2, t, area),
        table_ok(v1.owner@, t),
    ensures
        table_ok(v2.owner@, t),
        forall|x: u64| #[trigger] unseen(v2, x),
        forall|b: int| #[trigger]
            v2.owner@.contains_key(b) ==> in_place(
                v2,
                Map::empty(),
                t,
                area,
                b,
                v2.owner@[b],
            ),
{
    lemma_table_kept(v1.owner@, v2.owner@, t);
    assert(v2.d(area as int) == v1.d(area as int));
    assert forall|b: int| #[trigger] v2.owner@.contains_key(b) implies v2.owner@[b] is Table
        || v2.owner@[b] == Owner::Area by {
        if v1.owner@.contains_key(b) {
            assert(v2.owner@[b] == v1.owner@[b]);
        }
    }
    assert forall|b: int| #[trigger] v2.owner@.contains_key(b) implies in_place(
        v2,
        Map::empty(),
        t,
        area,
        b,
        v2.owner@[b],
    ) by {
        if v1.owner@.contains_key(b) {
            assert(v2.owner@[b] == v1.owner@[b]);
        }
    }
}

/// The blocks of the free-space map still belong to it.
proof fn lemma_area_there(s: Inner, v1: Volume, v2: Volume, t: Seq<Extent>)
    requires
        s.sb.alloc_block != 0,
        frame_claimed(v1, v2, t, s.sb.alloc_block),
        forall|b: int| b >= 0 ==> #[trigger] s.vol.d(b) == v2.d(b),
        (s.sb.alloc_block + 1) * 4096 <= s.vol.image@.len(),
        forall|b: int| #[trigger]
            v2.owner@.contains_key(b) ==> s.vol.owner@.contains_key(b) && s.vol.owner@[b]
                == v2.owner@[b],
    ensures
        s.area_ok(),
{
    let a = s.sb.alloc_block as int;
    assert(s.vol.d(a) == v2.d(a));
    assert(v2.d(a) == v1.d(a));
    assert forall|b: int| a <= b < a + area_len(s.vol.d(a)) implies #[trigger] s.vol.owner@.contains_key(
        b,
    ) && s.vol.owner@[b] == Owner::Area by {
        assert(v2.owner@.contains_key(b));
    }
}

/// The volume that was put together from what was loaded is consistent.
#[verifier::rlimit(60)]
proof fn lemma_assembled(s: Inner, v0: Volume, l: Loaded)
    requires
        record_size_ok(s.rb()),
        s.super_ok(),
        s.area_ok(),
        s.record_cache is None,
        loaded(
            v0,
            s.vol,
            s.table(),
            s.rb(),
            s.sb.next_inode as int,
            l.inodes@,
            l.dirty@,
            l.cuts@,
        ),
        free_in(l.free@, s.sb.next_inode as int, l.inodes@.dom()),
        s.inodes@ == l.inodes@,
        s.dirty_inodes@ == l.dirty@,
        s.free_inodes@ == l.free@,
        s.sb.free_inode_count == l.free@.len(),
        s.sb.inode_count == s.inodes@.len(),
        forall|b: int| #[trigger]
            v0.owner@.contains_key(b) ==> in_place(
                v0,
                Map::empty(),
                s.table(),
                s.sb.alloc_block,
                b,
                v0.owner@[b],
            ),
    ensures
        s.wf(),
        ({
            let files = disk_files(v0, s.table(), s.sb.next_inode as int);
            &&& s@.nodes.dom() == files.dom()
            &&& forall|x: u64| #[trigger]
                files.contains_key(x) && !is_cut(l.cuts@, x) ==> s@.nodes[x] == files[x]
            &&& forall|k: int|
                0 <= k < l.cuts@.len() ==> files.contains_key((#[trigger] l.cuts@[k]).0)
                    && overlong(s@.nodes[l.cuts@[k].0], files[l.cuts@[k].0]) && l.cuts@[k].1
                    == files[l.cuts@[k].0].data.len()
        }),
{
    let t = s.table();
    let next = s.sb.next_inode;
    let files = disk_files(v0, t, next as int);
    assert forall|x: u64| #[trigger] s.inodes@.contains_key(x) implies s.inodes@[x].ino == x && 0 < x
        < next && inode_ok(s.vol, s.record_cache, s.rb(), s.inodes@[x]) by {
        assert(entry_ok(v0, s.vol, t, s.rb(), l.inodes@[x], l.dirty@, l.cuts@));
    }
    lemma_same_disk_files(v0, s.vol, t, next as int);
    assert(synced(s.vol, t, s.inodes@, s.dirty_inodes@, next)) by {
        assert forall|x: u64| #[trigger]
            s.inodes@.contains_key(x) && !s.dirty_inodes@.contains(x) implies persisted(
            s.vol,
            t,
            s.inodes@[x],
        ) by {
            assert(entry_ok(v0, s.vol, t, s.rb(), l.inodes@[x], l.dirty@, l.cuts@));
        }
        assert forall|x: u64| 0 < x < next && !#[trigger] s.inodes@.contains_key(
            x,
        ) implies parsed_inode(slot(s.vol, t, x as int)) is None by {
            assert(slot(s.vol, t, x as int) == slot(v0, t, x as int));
        }
    }
    assert(s.lists_ok());
    assert(places_ok(s.vol, s.inodes@, t, s.sb.alloc_block)) by {
        let a = s.sb.alloc_block;
        assert(s.vol.d(a as int) == v0.d(a as int));
        assert forall|b: int| #[trigger] s.vol.owner@.contains_key(b) implies in_place(
            s.vol,
            s.inodes@,
            t,
            a,
            b,
            s.vol.owner@[b],
        ) by {
            if v0.owner@.contains_key(b) {
                assert(in_place(v0, Map::empty(), t, a, b, v0.owner@[b]));
            } else {
                assert(in_place(s.vol, s.inodes@, t, 0, b, s.vol.owner@[b]));
            }
        }
    }
    assert(s.wf());
    assert forall|x: u64| files.contains_key(x) == #[trigger] s@.nodes.contains_key(x) by {
        if 0 < x < next {
            assert(l.inodes@.contains_key(x) <==> parsed_inode(slot(v0, t, x as int)) is Some);
        }
    }
    assert(s@.nodes.dom() =~= files.dom());
    assert forall|x: u64| #[trigger] files.contains_key(x) && !is_cut(
        l.cuts@,
        x,
    ) implies s@.nodes[x] == files[x] by {
        assert(l.inodes@.contains_key(x) <==> parsed_inode(slot(v0, t, x as int)) is Some);
        assert(entry_ok(v0, s.vol, t, s.rb(), l.inodes@[x], l.dirty@, l.cuts@));
    }
    assert forall|k: int| 0 <= k < l.cuts@.len() implies files.contains_key(
        (#[trigger] l.cuts@[k]).0,
    ) && overlong(s@.nodes[l.cuts@[k].0], files[l.cuts@[k].0]) && l.cuts@[k].1
        == files[l.cuts@[k].0].data.len() by {
        let x = l.cuts@[k].0;
        assert(l.inodes@.contains_key(x));
        assert(is_cut(l.cuts@, x));
        assert(entry_ok(v0, s.vol, t, s.rb(), l.inodes@[x], l.dirty@, l.cuts@));
    }
}

/// Puts a volume together from what was loaded.
#[verifier::rlimit(60)]
#[verifier::spinoff_prover]
fn put_together(
    vol: Volume,
    sb: Superblock,
    l: Loaded,
    record_blocks: u32,
    sync: SyncMode,
    v1: Ghost<Volume>,
    v2: Ghost<Volume>,
) -> (r: Result<Inner>)
    requires
        record_size_ok(record_blocks as int),
        record_blocks == mounted_record_blocks(sb.record_blocks),
        sb.uuid@.len() == 16,
        sb.version == crate::format::VERSION,
        sb.block_size == crate::format::BLOCK_SIZE,
        sb.first_data_block == vol.alloc.first_data,
        sb.first_data_block == 2 + sb.journal_blocks,
        0 < sb.next_inode <= table_capacity(sb.inode_table_extents@),
        frame_claimed(v1@, v2@, sb.inode_table_extents@, sb.alloc_block),
        table_ok(v1@.owner@, sb.inode_table_extents@),
        sb.inode_table_extents@.len() <= MAX_TABLE_EXTENTS,
        sb.alloc_block != 0 ==> (sb.alloc_block + 1) * 4096 <= v2@.image@.len(),
        loaded(
            v2@,
            vol,
            sb.inode_table_extents@,
            record_blocks as int,
            sb.next_inode as int,
            l.inodes@,
            l.dirty@,
            l.cuts@,
        ),
        free_in(l.free@, sb.next_inode as int, l.inodes@.dom()),
    ensures
        match r {
            Ok(s) => {
                &&& s.wf()
                &&& s.vol.lost@ == stray(s.vol)
                &&& sb.journal_tail == sb.journal_head ==> drained(s)
                &&& l.cuts@.len() == 0 && vol.idle() ==> s.idle() && s.vol.image == vol.image
                &&& all_bare(l.inodes@) && compression_of(sb.default_compression) is Off ==> bare(s)
                &&& s.record_blocks == record_blocks
                &&& same_volume(sb, s.sb)
                &&& s.vol.cache.capacity == vol.cache.capacity
                &&& s.sync_mode == sync
                &&& s@.clock.normal()
                &&& s@.nodes.dom() == l.inodes@.dom()
                &&& s@ == (FsView {
                    nodes: disk_files(v2@, sb.inode_table_extents@, sb.next_inode as int),
                    opens: Map::empty(),
                    orphans: Set::empty(),
                    free_inodes: l.free@,
                    next_inode: sb.next_inode,
                    writable: true,
                    check_perm: false,
                    clock: s@.clock,
                    default_compression: compression_code(
                        compression_of(sb.default_compression),
                    ),
                })
            },
            Err(e) => l.cuts@.len() > 0 && (e.is(EIO) || e.is(ENOSPC)),
        },
{
    let ghost t = sb.inode_table_extents@;
    let ghost l0 = l;
    let mut sb = sb;
    sb.inode_count = l.inodes.len() as u64;
    sb.free_inode_count = l.free.len() as u64;
    let default_compression = Compression::from_u8(sb.default_compression);
    let journal = Journal::new(&sb);
    let cuts = l.cuts;
    let mut s = Inner {
        vol,
        sb,
        journal,
        inodes: l.inodes,
        dirty_inodes: l.dirty,
        free_inodes: l.free,
        open_count: HashMap::new(),
        orphans: HashSet::new(),
        writable: true,
        sync_mode: sync,
        check_perm: false,
        default_compression,
        record_blocks,
        record_cache: None,
        clock: Timespec::now(),
    };
    let ghost files = disk_files(v2@, t, s.sb.next_inode as int);
    proof {
        lemma_frame_claimed(v1@, v2@, t, s.sb.alloc_block);
        lemma_table_kept(v2@.owner@, s.vol.owner@, t);
        assert(s.super_ok());
        if s.sb.alloc_block != 0 {
            lemma_area_there(s, v1@, v2@, t);
        }
        assert(s.area_ok());
        lemma_assembled(s, v2@, l0);
        assert(s@.nodes.dom() =~= l0.inodes@.dom());
    }
    match cut_back(&mut s, &cuts, Ghost(files)) {
        Ok(_) => {},
        Err(e) => return Err(e),
    }
    let ghost s1 = s;
    s.vol.lost = Ghost(stray(s.vol));
    s.sync_mode = sync;
    proof {
        let s2 = Inner { sync_mode: s1.sync_mode, ..s };
        lemma_lost_noted(s1, s2);
        assert(s.wf());
        assert(stray(s.vol) =~= stray(s1.vol));
    }
    Ok(s)
}

impl Inner {
    /// Mounts the volume that an image holds: applies what its journal holds, and reads all
    /// inodes. Fails with `EFBIG` where the image is larger than an image can be, with `EIO`
    /// where it holds no volume or one that is not consistent, and with `ENOSPC` where there is no
    /// room for what has to be written.
    #[verifier::rlimit(80)]
    #[verifier::spinoff_prover]
    pub fn open(data: Vec<u8>, writable: bool, cache_blocks: usize, sync: SyncMode) -> (r: Result<
        Inner,
    >)
        ensures
            match r {
                Ok(s) => opened(s, data@, writable) && s.sync_mode == sync && s.vol.cache.capacity
                    == cache_size(cache_blocks) && data@.len() <= max_blocks() * 4096,
                Err(e) => {
                    &&& e.is(EFBIG) <==> data@.len() > max_blocks() * 4096
                    &&& e.is(EFBIG) || e.is(EIO) || e.is(ENOSPC)
                    &&& e.is(ENOSPC) ==> disk_super(data@) is Some
                    &&& forall|t: Inner| !reopens(t, data@)
                },
            },
            forall|t: Inner| #[trigger]
                reopens(t, data@) ==> r is Ok && stands_for(r->Ok_0, t, data@),
    {
        let limit = block_limit();
        let ghost bytes = data@;
        let ghost w0 = choose|t: Inner| reopens(t, bytes);
        let ghost good = reopens(w0, bytes);
        proof {
            assert forall|t: Inner| #[trigger] reopens(t, bytes) implies good by {}
        }
        if data.len() as u64 > limit * 4096 {
            return Err(Error::from_errno(EFBIG));
        }
        let mut image = Image::open(data);
        let mut sb = match read_super(&image) {
            Ok(sb) => sb,
            Err(e) => return Err(e),
        };
        let ghost sv = sb@;
        match replay(&mut image, &sb) {
            Ok(_) => {},
            Err(e) => return Err(e),
        }
        assert(image@ == replayed(bytes, sv));
        sb.journal_tail = sb.journal_head;
        let cache = BlockCache::new(cache_blocks);
        // The volume that is found, as it stands in the image; where there is none, one that does
        // not fit.
        let ghost w1 = Inner {
            vol: Volume { image, cache, ..w0.vol },
            ..w0
        };
        proof {
            if good {
                lemma_moved_to(w0, w1.vol, bytes);
                lemma_reopens_map(w1, image@);
            }
        }
        let alloc = if sb.alloc_block != 0 {
            match read_alloc_blocks(&image, sb.alloc_block) {
                Ok(a) => a,
                Err(e) => return Err(e),
            }
        } else {
            Allocator::new(sb.first_data(), sb.total_blocks)
        };
        if !alloc.check() || alloc.first_data != sb.first_data_block as u64
            || sb.first_data_block as u64 != 2 + sb.journal_blocks as u64 {
            return Err(eio("bad allocator state"));
        }
        let record_blocks: u32 = if sb.record_blocks == 0 {
            DEFAULT_RECORD_BLOCKS
        } else {
            normalize_record_blocks(sb.record_blocks as u32)
        };
        let mut left = Allocator::new(alloc.first_data, alloc.total_blocks);
        let mut vol = Volume {
            image,
            cache,
            alloc,
            owner: Ghost(Map::empty()),
            lost: Ghost(Set::new(|b: int| true)),
        };
        let ghost v0 = vol;
        assert(vol.wf()) by {
            reveal(accounted);
        }
        let ghost rb = record_blocks as int;
        let ghost t = sb.inode_table_extents@;
        let ghost w = if good {
            w1
        } else {
            Inner {
                record_blocks: if rb == 2 {
                    4u32
                } else {
                    2u32
                },
                ..w1
            }
        };
        proof {
            assert(shows(v0, image@));
            if good {
                lemma_reopens_fits(w, v0, rb, t);
            }
            assert(!good ==> w.rb() != rb);
        }
        if !claim_table(&mut vol, &mut left, &sb.inode_table_extents, Ghost(rb), Ghost(w)) {
            return Err(eio("bad inode table"));
        }
        let ghost v1 = vol;
        if sb.alloc_block != 0 {
            if !claim_area(&mut vol, &mut left, sb.alloc_block, Ghost(t), Ghost(rb), Ghost(w)) {
                return Err(eio("bad free-space map"));
            }
        }
        let ghost v2 = vol;
        proof {
            assert(frame_claimed(v1, v2, t, sb.alloc_block));
            lemma_frame_claimed(v1, v2, t, sb.alloc_block);
        }
        let count: usize = sb.inode_table_extents.len();
        let last = sb.inode_table_extents[count - 1];
        let capacity: u64 = (last.logical + last.length as u64) * 16;
        if sb.next_inode > capacity {
            sb.next_inode = capacity;
        }
        if sb.next_inode == 0 {
            return Err(eio("bad inode table"));
        }
        let loaded = match load_files(
            &mut vol,
            &mut left,
            &sb.inode_table_extents,
            sb.next_inode,
            record_blocks,
            Ghost(w),
        ) {
            Ok(l) => l,
            Err(e) => return Err(e),
        };
        let ghost l = loaded;
        let ghost v3 = vol;
        let ghost next = sb.next_inode;
        let mut s = match put_together(
            vol,
            sb,
            loaded,
            record_blocks,
            sync,
            Ghost(v1),
            Ghost(v2),
        ) {
            Ok(s) => s,
            Err(e) => return Err(e),
        };
        let ghost s2 = s;
        s.writable = writable;
        proof {
            assert(s.wf());
            assert(s@ == (FsView { writable, ..s2@ }));
            assert(shows(v2, replayed(bytes, sv))) by {
                assert forall|b: int| b >= 0 implies #[trigger] v2.d(b) == image_block(
                    replayed(bytes, sv),
                    b,
                ) by {
                    assert(v2.d(b) == v1.d(b));
                    assert(v1.d(b) == v0.d(b));
                }
            }
            assert(holds_files(s, v2, replayed(bytes, sv), sv));
            assert(s@.nodes.dom() =~= l.inodes@.dom());
            assert(v0.idle());
            assert forall|t: Inner| #[trigger] reopens(t, bytes) implies stands_for(s, t, bytes) by {
                assert(v3.image == v0.image);
                lemma_moved_to(t, v0, bytes);
                lemma_reopens_same(moved_to(t, v0), v2);
                if bare(t) {
                    assert(moved_to(t, v0).sb.next_inode == next);
                    lemma_loads_bare(moved_to(t, v0), v2, v3, l);
                }
            }
        }
        Ok(s)
    }
}

} // verus!
