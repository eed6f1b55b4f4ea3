//! The inode table, and the inodes that come and go.

use vstd::prelude::*;

use crate::blocks::free_all;
use crate::bytes::{le16, lemma_le, put_u16, splice, zero_vec, zeros};
use crate::data::storage_failed;
use crate::error::{eio, Error, Result, EIO, ENFILE, ENOSPC};
use crate::extents::{
    at_place, exts_readable, find_ext, lemma_find, lemma_find_some, lookup, map_extents, sum_plen,
    ubyte, Loc, MAX_FILE_BLOCKS,
};
use crate::format::{Extent, FIRST_USER_INO, MAX_TABLE_EXTENTS};
use crate::inner::{
    all_bare, in_place, inode_ok, keeps, lemma_bare_put, lemma_inode_own, lemma_owns_only,
    lemma_persisted_own, lemma_table_kept, node_of, own_kept, owned_by, persisted, places_ok, rc_ok,
    slot, spread, synced, table_capacity, table_ext_claimed, table_ok, table_step, Inner,
};
use crate::inode::{parsed_inode, Inode};
use crate::ops::{
    alloc_inode_op, dec_open_op, drop_inode_op, inc_open_op, new_node, same_outcome, table_room,
    MAX_INODES, SPARE_INODES,
};
use crate::persist::lemma_meta_only;
use crate::store::{block_limit, max_blocks};
use crate::volume::{base_kept, Owner, Owners, Volume};
use crate::xattr::attrs;
use crate::types::given_mode;

verus! {

broadcast use vstd::std_specs::hash::group_hash_axioms;

/// A table has a block for every inode below its capacity.
pub proof fn lemma_table_maps(m: Owners, t: Seq<Extent>, l: int, k: int)
    requires
        table_ok(m, t),
        0 <= k < t.len(),
        0 <= l < t[k].lend(),
    ensures
        lookup(t, l) matches Some(Loc::Raw(b)) && 0 <= b < max_blocks() && m.contains_key(b)
            && m[b] == Owner::Table(l),
    decreases k,
{
    if l >= t[k].logical {
        lemma_find(t, k, l);
        assert(table_ext_claimed(m, t[k]));
        assert(m.contains_key(t[k].physical + (l - t[k].logical)));
    } else {
        assert(k > 0);
        assert(t[k - 1].lend() == t[k].logical);
        lemma_table_maps(m, t, l, k - 1);
    }
}

/// Writing the slot of inode `x` leaves the others alone.
pub proof fn lemma_slot_patched(
    v0: Volume,
    v1: Volume,
    t: Seq<Extent>,
    x: int,
    b: int,
    data: Seq<u8>,
    y: int,
)
    requires
        v0.wf(),
        table_ok(v0.owner@, t),
        0 <= x < table_capacity(t),
        0 <= y,
        data.len() == 256,
        lookup(t, x / 16) == Some(Loc::Raw(b)),
        forall|c: int| c >= 0 && c != b ==> #[trigger] v1.d(c) == v0.d(c),
        v1.d(b) == splice(v0.d(b), x % 16 * 256, data),
    ensures
        slot(v1, t, x) == data,
        y != x ==> slot(v1, t, y) == slot(v0, t, y),
{
    crate::blocks::lemma_block_len(v0, b);
    lemma_table_maps(v0.owner@, t, x / 16, t.len() - 1);
    assert(slot(v1, t, x) =~= data);
    if y != x {
        lemma_find_some(t, y / 16);
        if let Some(e) = find_ext(t, y / 16) {
            let k = t.index_of(e);
            assert(t[k].compress == 0);
            lemma_table_maps(v0.owner@, t, y / 16, k);
            if lookup(t, y / 16) == Some(Loc::Raw(b)) {
                assert(y / 16 == x / 16);
                assert(slot(v1, t, y) =~= slot(v0, t, y));
            }
        }
    }
}

/// Everything that has an owner is left alone.
pub open spec fn all_kept(v0: Volume, v1: Volume) -> bool {
    &&& base_kept(v0, v1)
    &&& forall|b: int| #[trigger]
        v0.owner@.contains_key(b) && !(v0.owner@[b] is Fresh) ==> v1.owner@.contains_key(b)
            && v1.owner@[b] == v0.owner@[b] && v1.d(b) == v0.d(b)
    &&& forall|b: int| #[trigger]
        v1.owner@.contains_key(b) && !(v1.owner@[b] is Table) ==> v0.owner@.contains_key(b)
            && v0.owner@[b] == v1.owner@[b]
}

/// The blocks of the inode table are those of its extents, and no others.
pub open spec fn table_only(m: Owners, t: Seq<Extent>) -> bool {
    forall|b: int| #[trigger]
        m.contains_key(b) && m[b] is Table ==> at_place(t, m[b]->Table_0, b)
}

/// A step that moves or grows the table and leaves all files alone.
pub proof fn lemma_table_step(s0: Inner, s1: Inner)
    requires
        s0.wf(),
        s1.vol.wf(),
        all_kept(s0.vol, s1.vol),
        s1 == (Inner { vol: s1.vol, sb: s1.sb, ..s0 }),
        s1.sb == (crate::format::Superblock {
            inode_table_extents: s1.sb.inode_table_extents,
            ..s0.sb
        }),
        table_ok(s1.vol.owner@, s1.table()),
        s1.table().len() <= MAX_TABLE_EXTENTS,
        table_only(s1.vol.owner@, s1.table()),
        table_capacity(s1.table()) >= table_capacity(s0.table()),
        forall|x: int|
            0 <= x < table_capacity(s0.table()) ==> #[trigger] slot(s1.vol, s1.table(), x) == slot(
                s0.vol,
                s0.table(),
                x,
            ),
    ensures
        s1.wf(),
        s1@ == s0@,
        s0.sound() ==> s1.sound(),
{
    let v0 = s0.vol;
    let v1 = s1.vol;
    let rc = s0.record_cache;
    assert forall|x: u64| #[trigger] s0.inodes@.contains_key(x) implies inode_ok(
        v1,
        rc,
        s0.rb(),
        s0.inodes@[x],
    ) && node_of(v1, rc, s0.rb(), s0.inodes@[x]) == node_of(v0, rc, s0.rb(), s0.inodes@[x]) && (
    exts_readable(v0, s0.inodes@[x].extents@) ==> exts_readable(v1, s0.inodes@[x].extents@)) && (
    forall|p: int| #[trigger]
        ubyte(v1, s0.inodes@[x].extents@, p) == ubyte(v0, s0.inodes@[x].extents@, p)) by {
        lemma_inode_own(v0, v1, rc, rc, s0.rb(), s0.inodes@[x]);
    }
    assert(s1@.nodes =~= s0@.nodes);
    assert(s1.area_ok()) by {
        if s1.sb.alloc_block != 0 {
            let a = s1.sb.alloc_block as int;
            let n = crate::allocmap::area_len(v0.d(a));
            assert(v0.owner@.contains_key(a));
            assert forall|b: int| a <= b < a + n implies #[trigger] v1.owner@.contains_key(b)
                && v1.owner@[b] == Owner::Area by {
                assert(v0.owner@.contains_key(b));
            }
        }
    }
    assert(synced(v1, s1.table(), s1.inodes@, s1.dirty_inodes@, s1.sb.next_inode)) by {
        assert forall|x: u64| #[trigger]
            s1.inodes@.contains_key(x) && !s1.dirty_inodes@.contains(x) implies persisted(
            v1,
            s1.table(),
            s1.inodes@[x],
        ) by {
            assert(slot(v1, s1.table(), x as int) == slot(v0, s0.table(), x as int));
            lemma_persisted_own(v0, v1, s0.table(), s1.table(), s0.inodes@[x]);
        }
        assert forall|x: u64|
            0 < x < s1.sb.next_inode && !#[trigger] s1.inodes@.contains_key(
                x,
            ) implies parsed_inode(slot(v1, s1.table(), x as int)) is None by {
            assert(slot(v1, s1.table(), x as int) == slot(v0, s0.table(), x as int));
        }
    }
    if let Some(c) = rc {
        assert forall|q: int|
            !c.dirty && 0 <= q < s1.rb() * 4096 implies #[trigger] c.data@[q] == ubyte(
            v1,
            s1.inodes@[c.ino].extents@,
            c.start * 4096 + q,
        ) by {
            assert(s0.inodes@.contains_key(c.ino));
        }
    }
    assert(places_ok(v1, s1.inodes@, s1.table(), s1.sb.alloc_block)) by {
        let a = s0.sb.alloc_block;
        assert forall|b: int| #[trigger] v1.owner@.contains_key(b) implies in_place(
            v1,
            s1.inodes@,
            s1.table(),
            a,
            b,
            v1.owner@[b],
        ) by {
            let o = v1.owner@[b];
            if !(o is Table) {
                assert(v0.owner@.contains_key(b) && v0.owner@[b] == o);
                assert(in_place(v0, s0.inodes@, s0.table(), a, b, o));
                if o is Area {
                    assert(v0.owner@.contains_key(a as int));
                }
            }
        }
    }
}

/// The inode table owns the blocks of its extents alone.
proof fn lemma_table_only(s: Inner)
    requires
        s.wf(),
    ensures
        table_only(s.vol.owner@, s.table()),
{
    assert forall|b: int| #[trigger]
        s.vol.owner@.contains_key(b) && s.vol.owner@[b] is Table implies at_place(
        s.table(),
        s.vol.owner@[b]->Table_0,
        b,
    ) by {
        assert(in_place(s.vol, s.inodes@, s.table(), s.sb.alloc_block, b, s.vol.owner@[b]));
    }
}

/// Block numbers fit into 64 bits.
pub proof fn lemma_limit()
    ensures
        0 < max_blocks() <= u64::MAX,
{
}

/// Adding blocks at the end of a table.
#[verifier::spinoff_prover]
#[verifier::rlimit(60)]
proof fn lemma_grown_table(
    v0: Volume,
    v1: Volume,
    t0: Seq<Extent>,
    t1: Seq<Extent>,
    start: int,
    n: int,
)
    requires
        0 < n <= 2048,
        v0.wf(),
        table_ok(v0.owner@, t0),
        all_kept(v0, v1),
        0 <= start,
        start + n <= max_blocks(),
        t0.last().lend() + n <= MAX_FILE_BLOCKS,
        forall|b: int|
            start <= b < start + n ==> #[trigger] v1.owner@.contains_key(b) && v1.owner@[b]
                == Owner::Table(t0.last().lend() + (b - start)),
        table_only(v0.owner@, t0),
        forall|b: int| #[trigger]
            v1.owner@.contains_key(b) && !(start <= b < start + n) ==> v0.owner@.contains_key(b)
                && v0.owner@[b] == v1.owner@[b],
        ({
            let e = t0.last();
            ||| e.physical + e.length == start && t1 == t0.update(
                t0.len() - 1,
                (Extent { length: (e.length + n) as u32, ..e }),
            ) && e.length + n <= u32::MAX
            ||| t1 == t0.push(
                (Extent {
                    logical: e.lend() as u64,
                    physical: start as u64,
                    length: n as u32,
                    phys_length: 0,
                    compress: 0,
                }),
            )
        }),
    ensures
        table_ok(v1.owner@, t1),
        table_only(v1.owner@, t1),
        table_capacity(t1) == table_capacity(t0) + 16 * n,
        forall|x: int|
            0 <= x < table_capacity(t0) ==> #[trigger] slot(v1, t1, x) == slot(v0, t0, x),
{
    let m0 = v0.owner@;
    let m1 = v1.owner@;
    let n0 = t0.len() as int;
    let last = t0[n0 - 1];
    assert(table_ext_claimed(m0, t0[n0 - 1]));
    assert(t0[n0 - 1].lend() <= MAX_FILE_BLOCKS);
    lemma_table_kept(m0, m1, t0);
    assert forall|k: int| 0 <= k < t1.len() implies (#[trigger] t1[k]).length > 0
        && t1[k].phys_length == 0 && t1[k].compress == 0 && t1[k].lend() <= MAX_FILE_BLOCKS
        && table_ext_claimed(m1, t1[k]) by {
        if k < n0 {
            let e = t0[k];
            assert(table_ext_claimed(m1, t0[k]));
            assert forall|b: int|
                t1[k].physical <= b < t1[k].physical + t1[k].length implies #[trigger] m1.contains_key(
                b) && m1[b] == Owner::Table(t1[k].logical + (b - t1[k].physical)) by {
                assert(m1.contains_key(b));
                if b >= e.physical + e.length {
                    assert(k == n0 - 1);
                    assert(start <= b < start + n);
                }
            }
        } else {
            let e = t1[k];
            lemma_limit();
            assert(e.physical == start && e.logical == last.lend());
            assert forall|b: int| e.physical <= b < e.physical + e.length implies #[trigger] m1.contains_key(
                b) && m1[b] == Owner::Table(e.logical + (b - e.physical)) by {
                assert(m1.contains_key(b));
            }
        }
    }
    assert forall|i: int, j: int| 0 <= i < j < t1.len() implies (#[trigger] t1[i]).lend() <= (
    #[trigger] t1[j]).logical by {
        if j < n0 {
            assert(t0[i].lend() <= t0[j].logical);
        } else {
            if i < n0 - 1 {
                assert(t0[i].lend() <= t0[n0 - 1].logical);
            }
        }
    }
    assert forall|k: int| 0 <= k < t1.len() - 1 implies (#[trigger] t1[k]).lend() == t1[k
        + 1].logical by {
        if k < n0 - 1 {
            assert(t0[k].lend() == t0[k + 1].logical);
        }
    }
    assert(table_ok(m1, t1));
    assert forall|x: int| 0 <= x < table_capacity(t0) implies #[trigger] slot(v1, t1, x) == slot(
        v0,
        t0,
        x,
    ) by {
        lemma_grown_slot(v0, v1, t0, t1, x);
    }
    assert forall|b: int| #[trigger] m1.contains_key(b) && m1[b] is Table implies at_place(
        t1,
        m1[b]->Table_0,
        b,
    ) by {
        let l = m1[b]->Table_0;
        if start <= b < start + n {
            let k = t1.len() - 1;
            assert(t1[k].has(l));
            lemma_find(t1, k, l);
        } else {
            assert(m0.contains_key(b));
            assert(at_place(t0, l, b));
            lemma_find_some(t0, l);
            let e = find_ext(t0, l)->0;
            let k = t0.index_of(e);
            assert(t0[k] == e);
            assert(t1[k].has(l));
            lemma_find(t1, k, l);
        }
    }
}

/// Blocks by which an inode table of `n` extents grows.
fn step_for(n: usize) -> (step: u64)
    ensures
        step == table_step(n as int),
        2 <= step <= 2048,
{
    if n >= 11 {
        return 2048;
    }
    let mut step: u64 = 2;
    let mut k: usize = 1;
    proof {
        reveal_with_fuel(table_step, 11);
    }
    while k < n
        invariant
            n <= 10,
            1 <= k,
            k <= n || k == 1,
            step == table_step(k as int),
            2 <= step <= 1024,
            k == 1 ==> step == 2,
            k == 2 ==> step == 4,
            k == 3 ==> step == 8,
            k == 4 ==> step == 16,
            k == 5 ==> step == 32,
            k == 6 ==> step == 64,
            k == 7 ==> step == 128,
            k == 8 ==> step == 256,
            k == 9 ==> step == 512,
        decreases n - k,
    {
        step = step * 2;
        k = k + 1;
    }
    step
}

/// A slot stays where it is in a table that grows at its end.
proof fn lemma_grown_slot(v0: Volume, v1: Volume, t0: Seq<Extent>, t1: Seq<Extent>, x: int)
    requires
        table_ok(v0.owner@, t0),
        table_ok(v1.owner@, t1),
        all_kept(v0, v1),
        t1.len() >= t0.len(),
        forall|k: int|
            0 <= k < t0.len() ==> (#[trigger] t1[k]).logical == t0[k].logical && t1[k].physical
                == t0[k].physical && t1[k].length >= t0[k].length,
        0 <= x < table_capacity(t0),
    ensures
        slot(v1, t1, x) == slot(v0, t0, x),
{
    let l = x / 16;
    lemma_table_maps(v0.owner@, t0, l, t0.len() - 1);
    lemma_find_some(t0, l);
    let e = find_ext(t0, l)->0;
    let k = t0.index_of(e);
    assert(t0[k] == e);
    assert(t1[k].has(l));
    lemma_find(t1, k, l);
    let b = e.physical + (l - e.logical);
    assert(v0.owner@.contains_key(b));
    assert(v1.d(b) == v0.d(b));
}

impl Inner {
    /// Number of inodes that the table has room for.
    pub fn inode_table_capacity(&self) -> (n: u64)
        requires
            table_ok(self.vol.owner@, self.table()),
        ensures
            n == table_capacity(self.table()),
    {
        let k: usize = self.sb.inode_table_extents.len();
        let e = self.sb.inode_table_extents[k - 1];
        assert(self.table()[k - 1].lend() <= MAX_FILE_BLOCKS);
        (e.logical + e.length as u64) * 16
    }

    /// The block of the table that holds inode `ino`, and where in it; fails with `EIO` where the
    /// table has no such inode.
    pub(crate) fn map_inode_slot(&self, ino: u64) -> (r: Result<(u64, usize)>)
        requires
            table_ok(self.vol.owner@, self.table()),
        ensures
            match r {
                Ok((b, off)) => lookup(self.table(), (ino / 16) as int) == Some(
                    Loc::Raw(b as int),
                ) && off == ino % 16 * 256,
                Err(e) => lookup(self.table(), (ino / 16) as int) is None && e.is(EIO),
            },
    {
        proof {
            assert forall|k: int| 0 <= k < self.table().len() implies (#[trigger] self.table()[k]).compress
                == 0 && self.table()[k].physical <= max_blocks() by {
                assert(table_ext_claimed(self.vol.owner@, self.table()[k]));
            }
        }
        match map_extents(&self.sb.inode_table_extents, ino / 16) {
            Some(b) => Ok((b, (ino % 16) as usize * 256)),
            None => Err(eio("inode table mapping failed")),
        }
    }

    /// Fills new blocks of the inode table with empty slots.
    fn clear_slots(&mut self, start: u64, n: u64)
        requires
            old(self).vol.wf(),
            old(self).vol.lo() <= start,
            start + n <= max_blocks(),
        ensures
            final(self).vol.wf(),
            *final(self) == (Inner { vol: final(self).vol, ..*old(self) }),
            base_kept(old(self).vol, final(self).vol),
            final(self).vol.alloc == old(self).vol.alloc,
            final(self).vol.owner == old(self).vol.owner,
            forall|b: int|
                b >= 0 && !(start <= b < start + n) ==> #[trigger] final(self).vol.d(b) == old(self).vol.d(b),
            forall|b: int|
                start <= b < start + n ==> #[trigger] final(self).vol.d(b) == zeros(4096),
    {
        let ghost s0 = *self;
        let mut k: u64 = 0;
        let limit = block_limit();
        while k < n
            invariant
                k <= n,
                self.vol.wf(),
                limit == max_blocks(),
                s0.vol.lo() <= start,
                start + n <= max_blocks(),
                limit <= 0x1000_0000_0000,
                *self == (Inner { vol: self.vol, ..s0 }),
                base_kept(s0.vol, self.vol),
                self.vol.alloc == s0.vol.alloc,
                self.vol.owner == s0.vol.owner,
                forall|b: int|
                    b >= 0 && !(start <= b < start + n) ==> #[trigger] self.vol.d(b) == s0.vol.d(b),
                forall|b: int| start <= b < start + k ==> #[trigger] self.vol.d(b) == zeros(4096),
            decreases n - k,
        {
            let ghost v1 = self.vol;
            self.vol.put(start + k, zero_vec(4096));
            proof {
                assert forall|b: int| b >= 0 && !(start <= b < start + n) implies #[trigger] self.vol.d(b)
                    == s0.vol.d(b) by {
                    assert(v1.d(b) == s0.vol.d(b));
                }
                assert forall|b: int| start <= b < start + k + 1 implies #[trigger] self.vol.d(b)
                    == zeros(4096) by {
                    if b < start + k {
                        assert(v1.d(b) == zeros(4096));
                    }
                }
                assert forall|b: int| 0 <= b < s0.vol.lo() implies #[trigger] crate::store::image_block(
                    self.vol.image@,
                    b,
                ) == crate::store::image_block(s0.vol.image@, b) by {
                    assert(crate::store::image_block(v1.image@, b) == crate::store::image_block(
                        s0.vol.image@,
                        b,
                    ));
                }
            }
            k = k + 1;
        }
    }

    /// Adds blocks of empty slots to the inode table; fails with `ENOSPC` where there is no room for
    /// them, or where they would be one extent more than the superblock can list.
    #[verifier::rlimit(40)]
    fn grow_inode_table(&mut self) -> (r: Result<()>)
        requires
            old(self).wf(),
            old(self).writable,
            table_capacity(old(self).table()) <= MAX_INODES - SPARE_INODES,
        ensures
            final(self).load() <= old(self).load() + table_room(),
            final(self).wf(),
            final(self)@ == old(self)@,
            keeps(*old(self), *final(self)),
            final(self).free_inodes == old(self).free_inodes,
            final(self).sb.next_inode == old(self).sb.next_inode,
            match r {
                Ok(_) => table_capacity(final(self).table()) == table_capacity(old(self).table()) + 16
                    * table_step(old(self).table().len() as int) && table_step(
                    old(self).table().len() as int,
                ) >= 2,
                Err(e) => e.is(ENOSPC) && (old(self).full(table_room()) || old(self).table().len()
                    == MAX_TABLE_EXTENTS),
            },
            spread(final(self).table()) >= spread(old(self).table()),
    {
        let ghost s0 = *self;
        let ghost t0 = s0.table();
        proof {
            reveal(spread);
        }
        let n: usize = self.sb.inode_table_extents.len();
        let last = self.sb.inode_table_extents[n - 1];
        assert(t0[n - 1] == last);
        assert(table_ext_claimed(s0.vol.owner@, t0[n - 1]));
        let limit = block_limit();
        let logical: u64 = last.logical + last.length as u64;
        let step: u64 = step_for(n);
        let start = match self.vol.allocate(step, Ghost(Owner::Table(logical as int))) {
            Ok(b) => b,
            Err(e) => return Err(e),
        };
        let ghost v1 = self.vol;
        if n >= MAX_TABLE_EXTENTS && last.physical + last.length as u64 != start {
            self.vol.release(start, step);
            proof {
                assert(self.vol.owner@ =~= s0.vol.owner@);
                assert forall|b: int| #[trigger] s0.vol.owner@.contains_key(b) implies self.vol.d(b)
                    == s0.vol.d(b) by {
                    assert(v1.d(b) == s0.vol.d(b));
                }
                assert forall|b: int| 0 <= b < s0.vol.lo() implies #[trigger] crate::store::image_block(
                    self.vol.image@,
                    b,
                ) == crate::store::image_block(s0.vol.image@, b) by {
                    assert(crate::store::image_block(v1.image@, b) == crate::store::image_block(
                        s0.vol.image@,
                        b,
                    ));
                }
                assert(all_kept(s0.vol, self.vol));
                lemma_table_only(s0);
                assert forall|x: int| 0 <= x < table_capacity(t0) implies #[trigger] slot(
                    self.vol,
                    t0,
                    x,
                ) == slot(s0.vol, t0, x) by {
                    lemma_find_some(t0, x / 16);
                    if let Some(e) = find_ext(t0, x / 16) {
                        let k = t0.index_of(e);
                        assert(table_ext_claimed(s0.vol.owner@, t0[k]));
                    }
                }
                lemma_table_step(s0, *self);
            }
            return Err(Error::from_errno(ENOSPC));
        }
        self.clear_slots(start, step);
        proof {
            let m0 = s0.vol.owner@;
            assert forall|b: int| #[trigger]
                m0.contains_key(b) && !(m0[b] is Fresh) implies self.vol.owner@.contains_key(b)
                && self.vol.owner@[b] == m0[b] && self.vol.d(b) == s0.vol.d(b) by {
                assert(b >= 0);
                assert(!(start <= b < start + step));
                assert(self.vol.d(b) == v1.d(b));
            }
            assert forall|b: int| 0 <= b < s0.vol.lo() implies #[trigger] crate::store::image_block(
                self.vol.image@,
                b,
            ) == crate::store::image_block(s0.vol.image@, b) by {
                assert(crate::store::image_block(v1.image@, b) == crate::store::image_block(
                    s0.vol.image@,
                    b,
                ));
            }
            assert(all_kept(s0.vol, self.vol));
        }
        if last.physical + last.length as u64 == start {
            let e = Extent { length: last.length + step as u32, ..last };
            self.sb.inode_table_extents.set(n - 1, e);
        } else {
            self.sb.inode_table_extents.push(Extent::new(logical, start, step as u32));
        }
        proof {
            lemma_table_only(s0);
            lemma_grown_table(s0.vol, self.vol, t0, self.table(), start as int, step as int);
            lemma_table_step(s0, *self);
        }
        Ok(())
    }

    /// Creates an inode without a name.
    #[verifier::rlimit(40)]
    pub fn alloc_inode(&mut self, mode: u16, uid: u32, gid: u32) -> (r: Result<u64>)
        requires
            old(self).wf(),
        ensures
            final(self).load() <= old(self).load() + table_room(),
            final(self).wf(),
            keeps(*old(self), *final(self)),
            match r {
                Ok(ino) => final(self).inodes@[ino].flags == 0
                    && final(self).inodes@[ino].generation == 1
                    && final(self).inodes@[ino].data_kind is Inline && final(self).inodes@[ino].blocks
                    == 0 && final(self)@ == alloc_inode_op(
                    old(self)@,
                    mode,
                    uid,
                    gid,
                ).0
                    && alloc_inode_op(old(self)@, mode, uid, gid).1 == Ok::<u64, i32>(ino),
                Err(e) => final(self)@ == old(self)@ && (same_outcome(
                    alloc_inode_op(old(self)@, mode, uid, gid).1,
                    r,
                ) || storage_failed(*old(self), e, table_room(), 1)),
            },
    {
        match self.require_write() {
            Ok(_) => {},
            Err(e) => return Err(e),
        }
        let now = self.clock;
        let ghost v0 = self@;
        proof {
            reveal(spread);
        }
        let reused = self.free_inodes.len() > 0;
        if !reused {
            if self.sb.next_inode > MAX_INODES - SPARE_INODES {
                return Err(Error::from_errno(ENOSPC));
            }
            if self.sb.next_inode >= self.inode_table_capacity() {
                match self.grow_inode_table() {
                    Ok(_) => {},
                    Err(e) => return Err(e),
                }
            }
        }
        let ghost s1 = *self;
        let ino = match self.free_inodes.pop() {
            Some(x) => {
                self.sb.free_inode_count = self.free_inodes.len() as u64;
                x
            },
            None => {
                let x = self.sb.next_inode;
                self.sb.next_inode = x + 1;
                x
            },
        };
        proof {
            if reused {
                assert(s1.free_inodes@[s1.free_inodes@.len() - 1] == ino);
                assert(!s1.inodes@.contains_key(ino));
            } else if s1.inodes@.contains_key(ino) {
                assert(false);
            }
        }
        let mut i = Inode::new_at(ino, given_mode(mode), uid, gid, now);
        i.compression = self.default_compression.as_u8();
        let ghost i1 = i;
        assert(0u32 & crate::format::FLAG_COMPRESSED == 0) by (bit_vector);
        self.put_inode(ino, i);
        self.sb.inode_count = self.inodes.len() as u64;
        proof {
            lemma_new_inode(s1, *self, ino, i1);
            let n = new_node(v0, mode, uid, gid);
            assert(node_of(self.vol, self.record_cache, self.rb(), i1).data =~= n.data);
            assert(attrs(i1.xattr@) =~= n.xattr);
            assert(self@.nodes =~= v0.nodes.insert(ino, n));
            assert(self@.free_inodes =~= alloc_inode_op(v0, mode, uid, gid).0.free_inodes);
        }
        Ok(ino)
    }
}

/// A new inode joins the others.
proof fn lemma_new_inode(s0: Inner, s1: Inner, ino: u64, i1: Inode)
    requires
        s0.wf(),
        !s0.inodes@.contains_key(ino),
        s1.inodes@ == s0.inodes@.insert(ino, i1),
        s1 == (Inner {
            inodes: s1.inodes,
            dirty_inodes: s1.dirty_inodes,
            sb: s1.sb,
            free_inodes: s1.free_inodes,
            ..s0
        }),
        forall|x: u64| #[trigger]
            s1.dirty_inodes@.contains(x) <==> x == ino || s0.dirty_inodes@.contains(x),
        s1.sb == (crate::format::Superblock {
            next_inode: s1.sb.next_inode,
            inode_count: s1.sb.inode_count,
            free_inode_count: s1.sb.free_inode_count,
            ..s0.sb
        }),
        s1.sb.next_inode <= table_capacity(s0.table()),
        s1.sb.free_inode_count == s1.free_inodes@.len(),
        s1.sb.inode_count == s1.inodes@.len(),
        ({
            ||| s0.free_inodes@.len() > 0 && s0.free_inodes@.last() == ino && s1.free_inodes@
                == s0.free_inodes@.drop_last() && s1.sb.next_inode == s0.sb.next_inode
            ||| s0.free_inodes@.len() == 0 && s1.free_inodes@ == s0.free_inodes@ && ino
                == s0.sb.next_inode && s1.sb.next_inode == ino + 1
        }),
        i1.ino == ino,
        i1.mode != 0,
        i1.size == 0,
        i1.blocks == 0,
        i1.flags == 0,
        i1.data_kind is Inline,
        i1.inline_data@.len() == 0,
        i1.extents@.len() == 0,
        i1.extent_tree == 0,
        i1.xattr_block == 0,
    ensures
        s1.wf(),
        s0.sound() ==> s1.sound(),
        all_bare(s0.inodes@) && !i1.compresses() ==> all_bare(s1.inodes@),
        s1@.nodes == s0@.nodes.insert(
            ino,
            node_of(s1.vol, s1.record_cache, s1.rb(), i1),
        ),
{
    if all_bare(s0.inodes@) && !i1.compresses() {
        lemma_bare_put(s0.inodes@, ino, i1);
    }
    if s0.free_inodes@.len() > 0 {
        assert(s0.free_inodes@[s0.free_inodes@.len() - 1] == ino);
    }
    assert(0 < ino < s1.sb.next_inode);
    assert(inode_ok(s1.vol, s1.record_cache, s1.rb(), i1)) by {
        assert(sum_plen(i1.extents@) == 0);
    }
    assert forall|x: u64| #[trigger] s1.inodes@.contains_key(x) implies s1.inodes@[x].ino == x && 0
        < x < s1.sb.next_inode && inode_ok(
        s1.vol,
        s1.record_cache,
        s1.rb(),
        s1.inodes@[x],
    ) by {
        if x != ino {
            assert(s0.inodes@.contains_key(x));
        }
    }
    assert(s1.lists_ok()) by {
        assert forall|k: int| 0 <= k < s1.free_inodes@.len() implies 2
            <= #[trigger] s1.free_inodes@[k] < s1.sb.next_inode && !s1.inodes@.contains_key(
            s1.free_inodes@[k],
        ) by {
            assert(s1.free_inodes@[k] == s0.free_inodes@[k]);
            if s0.free_inodes@.len() > 0 {
                assert(s0.free_inodes@[k] != s0.free_inodes@[s0.free_inodes@.len() - 1]);
            }
        }
        assert forall|x: u64| #[trigger] s1.dirty_inodes@.contains(x) implies s1.inodes@.contains_key(
            x,
        ) by {
            if x != ino {
                assert(s0.dirty_inodes@.contains(x));
            }
        }
    }
    assert(places_ok(s1.vol, s1.inodes@, s1.table(), s1.sb.alloc_block)) by {
        assert forall|b: int| #[trigger] s1.vol.owner@.contains_key(b) implies in_place(
            s1.vol,
            s1.inodes@,
            s1.table(),
            s1.sb.alloc_block,
            b,
            s1.vol.owner@[b],
        ) by {
            assert(in_place(
                s0.vol,
                s0.inodes@,
                s0.table(),
                s0.sb.alloc_block,
                b,
                s0.vol.owner@[b],
            ));
        }
    }
    assert(rc_ok(s1.vol, s1.record_cache, s1.rb(), s1.inodes@)) by {
        if let Some(c) = s0.record_cache {
            assert(c.ino != ino);
            assert(s1.inodes@[c.ino] == s0.inodes@[c.ino]);
        }
    }
    assert(synced(s1.vol, s1.table(), s1.inodes@, s1.dirty_inodes@, s1.sb.next_inode)) by {
        assert forall|x: u64| #[trigger]
            s1.inodes@.contains_key(x) && !s1.dirty_inodes@.contains(x) implies persisted(
            s1.vol,
            s1.table(),
            s1.inodes@[x],
        ) by {
            assert(s0.inodes@.contains_key(x));
        }
        assert forall|x: u64|
            0 < x < s1.sb.next_inode && !#[trigger] s1.inodes@.contains_key(
                x,
            ) implies parsed_inode(slot(s1.vol, s1.table(), x as int)) is None by {
            assert(!s0.inodes@.contains_key(x));
        }
    }
    assert(s1@.nodes =~= s0@.nodes.insert(
        ino,
        node_of(s1.vol, s1.record_cache, s1.rb(), i1),
    ));
    if s0.sound() {
        assert forall|x: u64| #[trigger] s1.inodes@.contains_key(x) implies exts_readable(
            s1.vol,
            s1.inodes@[x].extents@,
        ) by {
            if x != ino {
                assert(s0.inodes@.contains_key(x));
            }
        }
    }
}

/// Takes `ino` off a list.
pub(crate) fn unlist(list: &Vec<u64>, ino: u64) -> (out: Vec<u64>)
    ensures
        forall|x: u64| #[trigger] out@.contains(x) <==> x != ino && list@.contains(x),
        list@.contains(ino) ==> out@.len() < list@.len(),
{
    let n: usize = list.len();
    let mut out: Vec<u64> = Vec::new();
    let mut i: usize = 0;
    while i < n
        invariant
            i <= n,
            n == list@.len(),
            out@.len() <= i,
            list@.take(i as int).contains(ino) ==> out@.len() < i,
            forall|x: u64| #[trigger]
                out@.contains(x) <==> x != ino && list@.take(i as int).contains(x),
        decreases n - i,
    {
        let y = list[i];
        let ghost before = out@;
        if y != ino {
            out.push(y);
        }
        proof {
            let a = list@.take(i as int);
            let b = list@.take(i + 1);
            assert(b =~= a.push(y));
            if b.contains(ino) && y != ino {
                let k = b.index_of(ino);
                assert(a[k] == ino);
            }
        }
        assert forall|x: u64| #[trigger]
            out@.contains(x) <==> x != ino && list@.take(i + 1).contains(x) by {
            let a = list@.take(i as int);
            let b = list@.take(i + 1);
            assert(b =~= a.push(y));
            if a.contains(x) {
                let k = a.index_of(x);
                assert(b[k] == x);
            }
            if b.contains(x) {
                let k = b.index_of(x);
                if k < i {
                    assert(a[k] == x);
                }
            }
            if x == y {
                assert(b[i as int] == x);
            }
            if before.contains(x) {
                let k = before.index_of(x);
                assert(out@[k] == x);
            }
            if out@.contains(x) {
                let k = out@.index_of(x);
                if k < before.len() {
                    assert(before[k] == x);
                }
            }
            if y != ino && x == y {
                assert(out@[out@.len() - 1] == x);
            }
            assert(before.contains(x) <==> x != ino && a.contains(x));
        }
        i = i + 1;
    }
    assert(list@.take(n as int) =~= list@);
    out
}

/// All but the blocks of inode `ino` belong to whom they belonged, and but for the inode table
/// they hold what they held.
pub open spec fn kept_without(v0: Volume, v1: Volume, ino: u64) -> bool {
    forall|b: int| #[trigger]
        v0.owner@.contains_key(b) && !(v0.owner@[b] is Fresh) && !owned_by(v0.owner@[b], ino)
            ==> v1.owner@.contains_key(b) && v1.owner@[b] == v0.owner@[b] && (v0.owner@[b] is Table
            || v1.d(b) == v0.d(b))
}

/// Inode `ino` has no blocks any more, and nothing else got any.
pub open spec fn stripped(v0: Volume, v1: Volume, ino: u64) -> bool {
    forall|b: int| #[trigger]
        v1.owner@.contains_key(b) ==> v0.owner@.contains_key(b) && v0.owner@[b] == v1.owner@[b]
            && !owned_by(v1.owner@[b], ino)
}

/// An inode leaves the others.
#[verifier::rlimit(60)]
#[verifier::spinoff_prover]
proof fn lemma_removed(s0: Inner, s1: Inner, ino: u64)
    requires
        s0.wf(),
        s0.inodes@.contains_key(ino),
        s1.vol.wf(),
        base_kept(s0.vol, s1.vol),
        kept_without(s0.vol, s1.vol, ino),
        stripped(s0.vol, s1.vol, ino),
        forall|y: int|
            0 <= y && y != ino ==> #[trigger] slot(s1.vol, s0.table(), y) == slot(
                s0.vol,
                s0.table(),
                y,
            ),
        parsed_inode(slot(s1.vol, s0.table(), ino as int)) is None,
        s1.inodes@ == s0.inodes@.remove(ino),
        s1 == (Inner {
            vol: s1.vol,
            inodes: s1.inodes,
            dirty_inodes: s1.dirty_inodes,
            sb: s1.sb,
            free_inodes: s1.free_inodes,
            record_cache: s1.record_cache,
            ..s0
        }),
        forall|x: u64| #[trigger]
            s1.dirty_inodes@.contains(x) <==> x != ino && s0.dirty_inodes@.contains(x),
        s1.sb == (crate::format::Superblock {
            inode_count: s1.sb.inode_count,
            free_inode_count: s1.sb.free_inode_count,
            ..s0.sb
        }),
        s1.sb.free_inode_count == s1.free_inodes@.len(),
        s1.sb.inode_count == s1.inodes@.len(),
        s1.free_inodes@ == if ino >= 2 {
            s0.free_inodes@.push(ino)
        } else {
            s0.free_inodes@
        },
        match s0.record_cache {
            Some(c) => s1.record_cache == if c.ino == ino {
                None
            } else {
                s0.record_cache
            },
            None => s1.record_cache is None,
        },
    ensures
        s1.wf(),
        s0.sound() ==> s1.sound(),
        all_bare(s0.inodes@) ==> all_bare(s1.inodes@),
        s1@.nodes == s0@.nodes.remove(ino),
{
    if all_bare(s0.inodes@) {
        reveal(all_bare);
        assert forall|x: u64| #[trigger]
            s1.inodes@.contains_key(x) implies !s1.inodes@[x].compresses() by {
            assert(s0.inodes@.contains_key(x));
        }
    }
    let v0 = s0.vol;
    let v1 = s1.vol;
    let t = s0.table();
    let rb = s0.rb();
    lemma_table_kept(v0.owner@, v1.owner@, t);
    assert forall|x: u64| #[trigger] s1.inodes@.contains_key(x) implies s0.inodes@.contains_key(x)
        && s1.inodes@[x] == s0.inodes@[x] && inode_ok(v1, s1.record_cache, rb, s0.inodes@[x])
        && node_of(v1, s1.record_cache, rb, s0.inodes@[x]) == node_of(
        v0,
        s0.record_cache,
        rb,
        s0.inodes@[x],
    ) && (exts_readable(v0, s0.inodes@[x].extents@) ==> exts_readable(
        v1,
        s0.inodes@[x].extents@,
    )) && own_kept(v0, v1, x) && (forall|p: int| #[trigger]
        ubyte(v1, s0.inodes@[x].extents@, p) == ubyte(v0, s0.inodes@[x].extents@, p)) by {
        assert(own_kept(v0, v1, x));
        lemma_inode_own(v0, v1, s0.record_cache, s1.record_cache, rb, s0.inodes@[x]);
    }
    assert(s1@.nodes =~= s0@.nodes.remove(ino));
    assert(s1.area_ok()) by {
        if s1.sb.alloc_block != 0 {
            let a = s1.sb.alloc_block as int;
            let n = crate::allocmap::area_len(v0.d(a));
            assert(a == s0.sb.alloc_block && s0.area_ok());
            assert(n > 0);
            assert(v0.owner@.contains_key(a));
            assert(v0.owner@[a] == Owner::Area);
            assert(v1.d(a) == v0.d(a));
            assert(v1.image@.len() >= v0.image@.len());
            assert forall|b: int| a <= b < a + n implies #[trigger] v1.owner@.contains_key(b)
                && v1.owner@[b] == Owner::Area by {
                assert(v0.owner@.contains_key(b));
                assert(v0.owner@[b] == Owner::Area);
            }
        }
    }
    assert(synced(v1, t, s1.inodes@, s1.dirty_inodes@, s1.sb.next_inode)) by {
        assert forall|x: u64| #[trigger]
            s1.inodes@.contains_key(x) && !s1.dirty_inodes@.contains(x) implies persisted(
            v1,
            t,
            s1.inodes@[x],
        ) by {
            assert(s0.inodes@.contains_key(x));
            assert(slot(v1, t, x as int) == slot(v0, t, x as int));
            lemma_persisted_own(v0, v1, t, t, s0.inodes@[x]);
        }
        assert forall|x: u64|
            0 < x < s1.sb.next_inode && !#[trigger] s1.inodes@.contains_key(
                x,
            ) implies parsed_inode(slot(v1, t, x as int)) is None by {
            if x != ino {
                assert(!s0.inodes@.contains_key(x));
                assert(slot(v1, t, x as int) == slot(v0, t, x as int));
            }
        }
    }
    assert(places_ok(v1, s1.inodes@, t, s1.sb.alloc_block)) by {
        let a = s0.sb.alloc_block;
        assert forall|b: int| #[trigger] v1.owner@.contains_key(b) implies in_place(
            v1,
            s1.inodes@,
            t,
            a,
            b,
            v1.owner@[b],
        ) by {
            let o = v1.owner@[b];
            assert(in_place(v0, s0.inodes@, t, a, b, o));
            if o is Area {
                assert(v0.owner@.contains_key(a as int));
            }
        }
    }
    assert(rc_ok(v1, s1.record_cache, rb, s1.inodes@)) by {
        if let Some(c) = s1.record_cache {
            assert(s1.inodes@.contains_key(c.ino));
        }
    }
    assert(s1.lists_ok()) by {
        assert forall|k: int| 0 <= k < s1.free_inodes@.len() implies 2
            <= #[trigger] s1.free_inodes@[k] < s1.sb.next_inode && !s1.inodes@.contains_key(
            s1.free_inodes@[k],
        ) by {
            if k < s0.free_inodes@.len() {
                assert(s1.free_inodes@[k] == s0.free_inodes@[k]);
            }
        }
        assert(s1.free_inodes@.no_duplicates());
        assert forall|x: u64| #[trigger] s1.dirty_inodes@.contains(x) implies s1.inodes@.contains_key(
            x,
        ) by {
            assert(s0.dirty_inodes@.contains(x));
        }
    }
}

/// A slot of the table that is not in use: its mode is zero, as is all the rest.
fn blank_slot() -> (b: Vec<u8>)
    ensures
        b@.len() == 256,
        parsed_inode(b@) is None,
{
    let mut b = zero_vec(256);
    put_u16(b.as_mut_slice(), 0, 0);
    proof {
        lemma_le();
        assert(b@.subrange(0, 2) =~= le16(0));
    }
    b
}

impl Inner {
    /// Removes inode `ino` and all its blocks.
    #[verifier::rlimit(60)]
    pub fn drop_inode(&mut self, ino: u64) -> (r: Result<()>)
        requires
            old(self).wf(),
        ensures
            final(self).wf(),
            keeps(*old(self), *final(self)),
            final(self)@ == drop_inode_op(old(self)@, ino).0,
            same_outcome(drop_inode_op(old(self)@, ino).1, r),
            final(self).load() <= old(self).load(),
            r is Ok ==> forall|b: int| #[trigger]
                old(self).vol.owner@.contains_key(b) && owned_by(old(self).vol.owner@[b], ino)
                    ==> final(self).vol.alloc.is_free(b),
    {
        match self.require_write() {
            Ok(_) => {},
            Err(e) => return Err(e),
        }
        match self.get_inode(ino) {
            Ok(_) => {},
            Err(e) => return Err(e),
        }
        let ghost s0 = *self;
        let ghost t = s0.table();
        let ghost rb = s0.rb();
        let ghost i0 = s0.inodes@[ino];
        let mut i = match self.inodes.remove(&ino) {
            Some(i) => i,
            None => return Err(eio("missing inode")),
        };
        let cached = match &self.record_cache {
            Some(c) => c.ino == ino,
            None => false,
        };
        if cached {
            self.record_cache = None;
        }
        proof {
            lemma_owns_only(s0, ino);
            lemma_meta_only(s0, ino);
        }
        free_all(&mut self.vol, &mut i.extents, Ghost(ino), Ghost(rb));
        let ghost v1 = self.vol;
        if i.xattr_block != 0 {
            proof {
                assert(s0.vol.owner@.contains_key(i.xattr_block as int));
            }
            self.vol.release(i.xattr_block, 1);
        }
        let ghost v2 = self.vol;
        if i.extent_tree != 0 {
            proof {
                assert forall|b: int|
                    i.extent_tree <= b < i.extent_tree
                        + i.extent_tree_blocks implies #[trigger] v2.owner@.contains_key(b) by {
                    assert(s0.vol.owner@.contains_key(b));
                    assert(v1.owner@.contains_key(b));
                    if i.xattr_block != 0 {
                        assert(s0.vol.owner@.contains_key(i.xattr_block as int));
                    }
                }
                lemma_limit();
            }
            self.vol.release(i.extent_tree, i.extent_tree_blocks);
        }
        let ghost v3 = self.vol;
        proof {
            assert forall|b: int| #[trigger]
                s0.vol.owner@.contains_key(b) && !(s0.vol.owner@[b] is Fresh) && !owned_by(
                    s0.vol.owner@[b],
                    ino,
                ) implies v3.owner@.contains_key(b) && v3.owner@[b] == s0.vol.owner@[b] && v3.d(b)
                == s0.vol.d(b) by {
                assert(v1.owner@.contains_key(b));
                assert(b >= 0);
                if i.xattr_block != 0 {
                    assert(s0.vol.owner@.contains_key(i.xattr_block as int));
                    assert(b != i.xattr_block);
                }
                assert(v2.owner@.contains_key(b));
                if i.extent_tree != 0 && i.extent_tree <= b < i.extent_tree
                    + i.extent_tree_blocks {
                    assert(s0.vol.owner@[b] == Owner::Tree(ino));
                }
            }
            assert(stripped(s0.vol, v3, ino)) by {
                assert forall|b: int| #[trigger] v3.owner@.contains_key(
                    b,
                ) implies s0.vol.owner@.contains_key(b) && s0.vol.owner@[b] == v3.owner@[b]
                    && !owned_by(v3.owner@[b], ino) by {
                    assert(v2.owner@.contains_key(b));
                    assert(v1.owner@.contains_key(b));
                    let o = v1.owner@[b];
                    if o is Data && o->Data_0 == ino {
                        assert(at_place(Seq::<Extent>::empty(), o->Data_1, b));
                    } else {
                        assert(s0.vol.owner@.contains_key(b));
                    }
                }
            }
            lemma_table_kept(s0.vol.owner@, v3.owner@, t);
            assert forall|y: int| #[trigger] slot(v3, t, y) == slot(s0.vol, t, y) by {
                crate::inner::lemma_slot_kept(s0.vol, v3, t, y);
            }
            lemma_table_maps(v3.owner@, t, (ino / 16) as int, t.len() - 1);
            lemma_base(s0.vol, v1, v2, v3);
        }
        match self.map_inode_slot(ino) {
            Ok((b, off)) => {
                assert(v3.owner@.contains_key(b as int));
                let blank = blank_slot();
                self.vol.patch(b, off, blank.as_slice());
                proof {
                    assert forall|y: int| 0 <= y && y != ino implies #[trigger] slot(
                        self.vol,
                        t,
                        y,
                    ) == slot(s0.vol, t, y) by {
                        lemma_slot_patched(v3, self.vol, t, ino as int, b as int, blank@, y);
                        assert(slot(v3, t, y) == slot(s0.vol, t, y));
                    }
                    lemma_slot_patched(v3, self.vol, t, ino as int, b as int, blank@, 0);
                    assert(kept_without(s0.vol, self.vol, ino));
                    lemma_base(s0.vol, v3, v3, self.vol);
                }
            },
            Err(_) => {},
        }
        self.dirty_inodes = unlist(&self.dirty_inodes, ino);
        if ino >= FIRST_USER_INO {
            self.free_inodes.push(ino);
            self.sb.free_inode_count = self.free_inodes.len() as u64;
        }
        self.sb.inode_count = self.inodes.len() as u64;
        proof {
            assert(self.inodes@ =~= s0.inodes@.remove(ino));
            lemma_removed(s0, *self, ino);
            assert forall|b: int| #[trigger]
                s0.vol.owner@.contains_key(b) && owned_by(s0.vol.owner@[b], ino) implies self.vol.alloc.is_free(
            b) by {
                let o = s0.vol.owner@[b];
                if v1.owner@.contains_key(b) {
                    assert(!v3.owner@.contains_key(b));
                }
            }
            assert(self@.free_inodes =~= drop_inode_op(s0@, ino).0.free_inodes);
        }
        Ok(())
    }

    /// Counts one more open handle of inode `ino`.
    pub fn inc_open(&mut self, ino: u64) -> (r: Result<()>)
        requires
            old(self).wf(),
        ensures
            final(self).load() == old(self).load(),
            final(self).wf(),
            keeps(*old(self), *final(self)),
            final(self)@ == inc_open_op(old(self)@, ino).0,
            same_outcome(inc_open_op(old(self)@, ino).1, r),
    {
        let ghost s0 = *self;
        let n: u32 = match self.open_count.get(&ino) {
            Some(n) => *n,
            None => 0,
        };
        if n == u32::MAX {
            return Err(Error::from_errno(ENFILE));
        }
        self.open_count.insert(ino, n + 1);
        assert(self@.opens =~= inc_open_op(s0@, ino).0.opens);
        assert(self@.nodes =~= s0@.nodes);
        Ok(())
    }

    /// Counts one open handle of inode `ino` less.
    pub fn dec_open(&mut self, ino: u64) -> (r: Result<()>)
        requires
            old(self).wf(),
        ensures
            final(self).wf(),
            keeps(*old(self), *final(self)),
            final(self)@ == dec_open_op(old(self)@, ino).0,
            same_outcome(dec_open_op(old(self)@, ino).1, r),
            final(self).load() <= old(self).load(),
    {
        let ghost s0 = *self;
        let n: u32 = match self.open_count.get(&ino) {
            Some(n) => *n,
            None => return Ok(()),
        };
        if n > 1 {
            self.open_count.insert(ino, n - 1);
            assert(self@.opens =~= dec_open_op(s0@, ino).0.opens);
            assert(self@.nodes =~= s0@.nodes);
            return Ok(());
        }
        self.open_count.remove(&ino);
        let orphan = self.orphans.remove(&ino);
        assert(self@.nodes =~= s0@.nodes);
        assert(self@.opens =~= s0@.opens.remove(ino));
        proof {
            assert(self.super_ok());
            assert(self.area_ok());
            assert(self.inodes_ok());
            assert(self.lists_ok());
            assert(self.wf());
        }
        if orphan {
            assert(self@.orphans =~= s0@.orphans.remove(ino));
            let named = match self.inodes.get(&ino) {
                Some(i) => i.nlink != 0,
                None => false,
            };
            if !named {
                return self.drop_inode(ino);
            }
        } else {
            assert(self@.orphans =~= s0@.orphans);
        }
        Ok(())
    }
}

/// What lies before the data area is the same after three steps.
pub proof fn lemma_base(v0: Volume, v1: Volume, v2: Volume, v3: Volume)
    requires
        base_kept(v0, v1),
        v2 == v1 || base_kept(v1, v2),
        v3 == v2 || base_kept(v2, v3),
    ensures
        base_kept(v0, v3),
{
    assert forall|b: int| 0 <= b < v0.lo() implies #[trigger] crate::store::image_block(
        v3.image@,
        b,
    ) == crate::store::image_block(v0.image@, b) by {
        assert(crate::store::image_block(v1.image@, b) == crate::store::image_block(
            v0.image@,
            b,
        ));
        assert(crate::store::image_block(v2.image@, b) == crate::store::image_block(
            v1.image@,
            b,
        ));
    }
}

} // verus!
