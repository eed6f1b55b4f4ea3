//! Extent lists: where the blocks of a file lie, and what they hold.

use vstd::prelude::*;

use crate::bytes::zeros;
use crate::compress::{parsed_header, unpacked, HEADER_SIZE};
use crate::crc::crc32_of;
use crate::format::Extent;
use crate::store::{block_limit, max_blocks};
use crate::volume::{base_kept, data_block, frame, unclaimed, Owner, Owners, Volume};

verus! {

/// Blocks of the largest file.
pub const MAX_FILE_BLOCKS: u64 = 0x1_0000_0000;

/// Record sizes that an image can have.
pub open spec fn record_size_ok(rb: int) -> bool {
    rb == 2 || rb == 4 || rb == 8 || rb == 16 || rb == 32
}

/// Where a logical block lies.
pub ghost enum Loc {
    /// In a physical block of its own.
    Raw(int),
    /// In a compressed record.
    Packed(Extent),
}

/// Where extent `e` puts its logical block `l`.
pub open spec fn loc_in(e: Extent, l: int) -> Loc {
    if e.compress == 0 {
        Loc::Raw(e.physical + (l - e.logical))
    } else {
        Loc::Packed(e)
    }
}

/// The extent that covers logical block `l`.
pub open spec fn find_ext(s: Seq<Extent>, l: int) -> Option<Extent>
    decreases s.len(),
{
    if s.len() == 0 {
        None
    } else {
        match find_ext(s.drop_last(), l) {
            Some(e) => Some(e),
            None => if s.last().has(l) {
                Some(s.last())
            } else {
                None
            },
        }
    }
}

/// Where logical block `l` lies, if it is no hole.
pub open spec fn lookup(s: Seq<Extent>, l: int) -> Option<Loc> {
    match find_ext(s, l) {
        None => None,
        Some(e) => Some(loc_in(e, l)),
    }
}

/// An extent is in order: it has blocks, a raw one as many as it covers, and a compressed one is
/// a record, or the start of one.
pub open spec fn ext_wf(e: Extent, rb: int) -> bool {
    &&& e.length > 0
    &&& e.lend() <= MAX_FILE_BLOCKS
    &&& e.physical <= max_blocks()
    &&& e.compress == 0 ==> e.plen() == e.length
    &&& e.compress != 0 ==> e.compress == 1 && e.logical as int % rb == 0 && e.length <= rb && 0
        < e.phys_length <= e.length
}

/// The extents stand in order, and no two of them cover the same block.
pub open spec fn exts_ordered(s: Seq<Extent>) -> bool {
    forall|i: int, j: int| 0 <= i < j < s.len() ==> (#[trigger] s[i]).lend() <= (#[trigger] s[j]).logical
}

pub open spec fn exts_wf(s: Seq<Extent>, rb: int) -> bool {
    &&& exts_ordered(s)
    &&& forall|i: int| 0 <= i < s.len() ==> ext_wf(#[trigger] s[i], rb)
}

/// The physical blocks of an extent belong to inode `ino`.
pub open spec fn ext_claimed(m: Owners, ino: u64, e: Extent) -> bool {
    forall|b: int|
        e.physical <= b < e.physical + e.plen() ==> #[trigger] m.contains_key(b) && m[b]
            == Owner::Data(ino, e.logical + (b - e.physical))
}

pub open spec fn exts_claimed(m: Owners, ino: u64, s: Seq<Extent>) -> bool {
    forall|i: int| 0 <= i < s.len() ==> ext_claimed(m, ino, #[trigger] s[i])
}

/// Logical block `l` of a file lies in physical block `b`; of a compressed record it is the block
/// that holds its part of the packed bytes.
pub open spec fn at_place(s: Seq<Extent>, l: int, b: int) -> bool {
    match lookup(s, l) {
        Some(Loc::Raw(p)) => p == b,
        Some(Loc::Packed(e)) => e.physical + (l - e.logical) == b && l - e.logical < e.plen(),
        None => false,
    }
}

/// The blocks that hold data of inode `ino` are those of its extents, and no others.
pub open spec fn owns_only(m: Owners, ino: u64, s: Seq<Extent>) -> bool {
    forall|b: int| #[trigger]
        m.contains_key(b) && m[b] is Data && m[b]->Data_0 == ino ==> at_place(
            s,
            m[b]->Data_1,
            b,
        )
}

/// A file still owns the blocks of its extents alone, where it did.
pub open spec fn stays_tight(
    m0: Owners,
    s0: Seq<Extent>,
    m1: Owners,
    s1: Seq<Extent>,
    ino: u64,
) -> bool {
    owns_only(m0, ino, s0) ==> owns_only(m1, ino, s1)
}

/// No logical block but those from `lo` up to `hi` got a place.
pub open spec fn maps_only(s0: Seq<Extent>, s1: Seq<Extent>, lo: int, hi: int) -> bool {
    forall|l: int| #[trigger]
        lookup(s1, l) is Some && !(lo <= l < hi) ==> lookup(s0, l) is Some
}

/// The logical blocks from `lo` up to `hi` have a place, and those that had one still have.
pub open spec fn maps_all(s0: Seq<Extent>, s1: Seq<Extent>, lo: int, hi: int) -> bool {
    forall|l: int|
        lo <= l < hi || lookup(s0, l) is Some ==> #[trigger] lookup(s1, l) is Some
}

pub proof fn lemma_claimed_at(m: Owners, ino: u64, e: Extent, b: int)
    requires
        ext_claimed(m, ino, e),
        e.physical <= b < e.physical + e.plen(),
    ensures
        m.contains_key(b),
        m[b] == Owner::Data(ino, e.logical + (b - e.physical)),
{
    assert(m.contains_key(b));
}

/// Physical blocks of all extents.
pub open spec fn sum_plen(s: Seq<Extent>) -> int
    decreases s.len(),
{
    if s.len() == 0 {
        0
    } else {
        sum_plen(s.drop_last()) + s.last().plen()
    }
}

/// The physical blocks of a compressed extent, one after the other.
pub open spec fn packed_raw(v: Volume, e: Extent) -> Seq<u8> {
    Seq::new((e.plen() * 4096) as nat, |p: int| v.d(e.physical + p / 4096)[p % 4096])
}

/// What a compressed record holds, or `None` where it is corrupt.
pub open spec fn record_data(raw: Seq<u8>) -> Option<Seq<u8>> {
    match parsed_header(raw) {
        None => None,
        Some(h) => {
            let end = HEADER_SIZE + h.payload_len;
            if end > raw.len() || crc32_of(raw.subrange(HEADER_SIZE as int, end)) != h.crc {
                None
            } else {
                unpacked(h.algo, raw.subrange(HEADER_SIZE as int, end), h.uncompressed_len as nat)
            }
        },
    }
}

/// What a compressed extent holds; nothing where its record is corrupt.
pub open spec fn packed_data(v: Volume, e: Extent) -> Seq<u8> {
    match record_data(packed_raw(v, e)) {
        Some(d) => d,
        None => Seq::empty(),
    }
}

/// What logical block `l` holds on disk; a hole is zero.
pub open spec fn ublock(v: Volume, s: Seq<Extent>, l: int) -> Seq<u8> {
    match lookup(s, l) {
        None => zeros(4096),
        Some(Loc::Raw(p)) => v.d(p),
        Some(Loc::Packed(e)) => data_block(packed_data(v, e), l - e.logical),
    }
}

/// What byte `p` of a file is on disk.
pub open spec fn ubyte(v: Volume, s: Seq<Extent>, p: int) -> u8 {
    ublock(v, s, p / 4096)[p % 4096]
}

/// Every compressed record can be unpacked.
pub open spec fn exts_readable(v: Volume, s: Seq<Extent>) -> bool {
    forall|i: int|
        0 <= i < s.len() && (#[trigger] s[i]).compress != 0 ==> record_data(packed_raw(v, s[i]))
            is Some
}

pub proof fn lemma_find_some(s: Seq<Extent>, l: int)
    ensures
        find_ext(s, l) matches Some(e) ==> e.has(l) && s.contains(e),
        find_ext(s, l) is None ==> forall|i: int| 0 <= i < s.len() ==> !(#[trigger] s[i]).has(l),
    decreases s.len(),
{
    if s.len() > 0 {
        lemma_find_some(s.drop_last(), l);
        let t = s.drop_last();
        if let Some(e) = find_ext(t, l) {
            let i = t.index_of(e);
            assert(s[i] == e);
        } else {
            assert forall|i: int| 0 <= i < s.len() && find_ext(s, l) is None implies !(
            #[trigger] s[i]).has(l) by {
                if i < t.len() {
                    assert(t[i] == s[i]);
                }
            }
            if s.last().has(l) {
                assert(s[s.len() - 1] == s.last());
            }
        }
    }
}

/// The extent that covers a block is found.
pub proof fn lemma_find(s: Seq<Extent>, k: int, l: int)
    requires
        exts_ordered(s),
        0 <= k < s.len(),
        s[k].has(l),
    ensures
        find_ext(s, l) == Some(s[k]),
{
    lemma_find_some(s, l);
    if let Some(e) = find_ext(s, l) {
        let i = s.index_of(e);
        if i < k {
            assert(s[i].lend() <= s[k].logical);
        } else if i > k {
            assert(s[k].lend() <= s[i].logical);
        }
    }
}

pub proof fn lemma_find_push(s: Seq<Extent>, e: Extent, l: int)
    ensures
        find_ext(s.push(e), l) == match find_ext(s, l) {
            Some(x) => Some(x),
            None => if e.has(l) {
                Some(e)
            } else {
                None
            },
        },
{
    assert(s.push(e).drop_last() =~= s);
}

/// A block reads the same where its physical blocks do.
pub proof fn lemma_ublock_same(v0: Volume, v1: Volume, s: Seq<Extent>, l: int)
    requires
        match lookup(s, l) {
            None => true,
            Some(Loc::Raw(p)) => v1.d(p) == v0.d(p),
            Some(Loc::Packed(e)) => forall|b: int|
                e.physical <= b < e.physical + e.plen() ==> #[trigger] v1.d(b) == v0.d(b),
        },
    ensures
        ublock(v1, s, l) == ublock(v0, s, l),
{
    if let Some(Loc::Packed(e)) = lookup(s, l) {
        lemma_packed_same(v0, v1, e);
    }
}

pub proof fn lemma_packed_same(v0: Volume, v1: Volume, e: Extent)
    requires
        forall|b: int| e.physical <= b < e.physical + e.plen() ==> #[trigger] v1.d(b) == v0.d(b),
    ensures
        packed_raw(v1, e) == packed_raw(v0, e),
{
    assert forall|p: int| 0 <= p < e.plen() * 4096 implies packed_raw(v1, e)[p] == packed_raw(
        v0,
        e,
    )[p] by {
        let b = e.physical + p / 4096;
        assert(0 <= p / 4096 < e.plen());
        assert(v1.d(b) == v0.d(b));
    }
    assert(packed_raw(v1, e) =~= packed_raw(v0, e));
}

/// A file whose blocks are left alone reads the same, still owns its blocks, and is as readable
/// as before.
pub proof fn lemma_exts_kept(v0: Volume, v1: Volume, ino: u64, s: Seq<Extent>)
    requires
        exts_claimed(v0.owner@, ino, s),
        forall|i: int| 0 <= i < s.len() ==> (#[trigger] s[i]).compress == 0 ==> s[i].plen()
            == s[i].length,
        forall|b: int| #[trigger]
            v0.owner@.contains_key(b) && v0.owner@[b] is Data && v0.owner@[b]->Data_0 == ino
                ==> v1.owner@.contains_key(b) && v1.owner@[b] == v0.owner@[b] && v1.d(b)
                == v0.d(b),
    ensures
        exts_claimed(v1.owner@, ino, s),
        forall|l: int| #[trigger] ublock(v1, s, l) == ublock(v0, s, l),
        forall|p: int| #[trigger] ubyte(v1, s, p) == ubyte(v0, s, p),
        exts_readable(v0, s) ==> exts_readable(v1, s),
{
    assert forall|i: int| 0 <= i < s.len() implies ext_claimed(v1.owner@, ino, #[trigger] s[i]) by {
        let e = s[i];
        assert(ext_claimed(v0.owner@, ino, e));
        assert forall|b: int| e.physical <= b < e.physical + e.plen() implies #[trigger] v1.owner@.contains_key(
            b) && v1.owner@[b] == Owner::Data(ino, e.logical + (b - e.physical)) by {
            assert(v0.owner@.contains_key(b));
        }
    }
    assert forall|i: int, b: int|
        0 <= i < s.len() && (#[trigger] s[i]).physical <= b < s[i].physical + s[i].plen() implies #[trigger] v1.d(
        b) == v0.d(b) by {
        assert(ext_claimed(v0.owner@, ino, s[i]));
        assert(v0.owner@.contains_key(b));
    }
    assert forall|l: int| #[trigger] ublock(v1, s, l) == ublock(v0, s, l) by {
        lemma_find_some(s, l);
        if let Some(e) = find_ext(s, l) {
            let i = s.index_of(e);
            assert(s[i] == e);
            assert(s[i].compress == 0 ==> s[i].plen() == s[i].length);
        }
        lemma_ublock_same(v0, v1, s, l);
    }
    assert forall|p: int| #[trigger] ubyte(v1, s, p) == ubyte(v0, s, p) by {
        assert(ublock(v1, s, p / 4096) == ublock(v0, s, p / 4096));
    }
    assert forall|i: int|
        exts_readable(v0, s) && 0 <= i < s.len() && (#[trigger] s[i]).compress != 0 implies record_data(
        packed_raw(v1, s[i])) is Some by {
        lemma_packed_same(v0, v1, s[i]);
    }
}

/// The physical blocks of all extents are no more than the blocks they cover.
pub proof fn lemma_sum_bound(s: Seq<Extent>, rb: int)
    requires
        exts_wf(s, rb),
    ensures
        0 <= sum_plen(s) <= if s.len() == 0 {
            0
        } else {
            s.last().lend()
        },
        sum_plen(s) <= MAX_FILE_BLOCKS,
    decreases s.len(),
{
    if s.len() > 0 {
        let t = s.drop_last();
        assert(exts_wf(t, rb)) by {
            assert forall|i: int, j: int| 0 <= i < j < t.len() implies (#[trigger] t[i]).lend() <= (
            #[trigger] t[j]).logical by {
                assert(s[i].lend() <= s[j].logical);
            }
            assert forall|i: int| 0 <= i < t.len() implies ext_wf(#[trigger] t[i], rb) by {
                assert(ext_wf(s[i], rb));
            }
        }
        lemma_sum_bound(t, rb);
        assert(ext_wf(s[s.len() - 1], rb));
        if t.len() > 0 {
            assert(s[t.len() - 1].lend() <= s[s.len() - 1].logical);
        }
    }
}

/// Sectors of 512 bytes that the extents take.
pub fn count_sectors(s: &Vec<Extent>, rb: Ghost<int>) -> (n: u64)
    requires
        exts_wf(s@, rb@),
    ensures
        n == 8 * sum_plen(s@),
{
    let mut n: u64 = 0;
    let mut i: usize = 0;
    while i < s.len()
        invariant
            exts_wf(s@, rb@),
            i <= s@.len(),
            n == sum_plen(s@.take(i as int)),
            n <= if i == 0 {
                0
            } else {
                s@[i - 1].lend()
            },
        decreases s@.len() - i,
    {
        assert(s@.take(i + 1).drop_last() =~= s@.take(i as int));
        assert(ext_wf(s@[i as int], rb@));
        if i > 0 {
            assert(s@[i - 1].lend() <= s@[i as int].logical);
        }
        n = n + s[i].phys_len();
        i = i + 1;
    }
    assert(s@.take(i as int) =~= s@);
    proof {
        lemma_sum_bound(s@, rb@);
    }
    n * 8
}

/// Index of the extent that covers logical block `l`.
pub fn locate(s: &Vec<Extent>, l: u64) -> (r: Option<usize>)
    ensures
        match r {
            Some(i) => i < s@.len() && find_ext(s@, l as int) == Some(s@[i as int]) && s@[i as int].has(
                l as int,
            ),
            None => find_ext(s@, l as int) is None,
        },
{
    let mut i: usize = 0;
    while i < s.len()
        invariant
            i <= s@.len(),
            find_ext(s@.take(i as int), l as int) is None,
        decreases s@.len() - i,
    {
        assert(s@.take(i + 1).drop_last() =~= s@.take(i as int));
        if s[i].contains_logical(l) {
            proof {
                assert(find_ext(s@.take(i + 1), l as int) == Some(s@[i as int]));
                lemma_find_prefix(s@, i + 1, l as int);
            }
            return Some(i);
        }
        i = i + 1;
    }
    assert(s@.take(i as int) =~= s@);
    None
}

/// What is found in the first extents is what is found in all.
proof fn lemma_find_prefix(s: Seq<Extent>, n: int, l: int)
    requires
        0 <= n <= s.len(),
        find_ext(s.take(n), l) is Some,
    ensures
        find_ext(s, l) == find_ext(s.take(n), l),
    decreases s.len() - n,
{
    if n == s.len() {
        assert(s.take(n) =~= s);
    } else {
        assert(s.take(n + 1).drop_last() =~= s.take(n));
        lemma_find_prefix(s, n + 1, l);
    }
}

/// The physical block of logical block `l`, for a file without compressed records.
pub fn map_extents(s: &Vec<Extent>, l: u64) -> (r: Option<u64>)
    requires
        forall|i: int|
            0 <= i < s@.len() ==> (#[trigger] s@[i]).compress == 0 && s@[i].physical
                <= max_blocks(),
    ensures
        match r {
            Some(p) => lookup(s@, l as int) == Some(Loc::Raw(p as int)),
            None => lookup(s@, l as int) is None,
        },
{
    let limit = block_limit();
    match locate(s, l) {
        Some(i) => {
            let e = s[i];
            assert(s@[i as int].compress == 0);
            Some(e.physical + (l - e.logical))
        },
        None => None,
    }
}

/// Puts `e` into the list; a raw extent that goes on where the last one ends is merged with it.
pub fn add_extent(s: &mut Vec<Extent>, e: Extent, rb: Ghost<int>)
    requires
        exts_wf(old(s)@, rb@),
        ext_wf(e, rb@),
        forall|i: int|
            0 <= i < old(s)@.len() ==> (#[trigger] old(s)@[i]).lend() <= e.logical || e.lend()
                <= old(s)@[i].logical,
    ensures
        added(old(s)@, final(s)@, e, rb@),
{
    let ghost s0 = s@;
    let n: usize = s.len();
    if e.compress == 0 && n > 0 {
        let last = s[n - 1];
        assert(ext_wf(s0[n - 1], rb@));
        if last.compress == 0 && last.logical_end() == e.logical && last.physical
            + last.phys_len() == e.physical && last.length as u64 + e.length as u64
            <= u32::MAX as u64 {
            let phys_length: u32 = if last.phys_length != 0 {
                last.phys_length + e.length
            } else {
                0
            };
            let merged = Extent {
                logical: last.logical,
                physical: last.physical,
                length: last.length + e.length,
                phys_length,
                compress: 0,
            };
            s.set(n - 1, merged);
            proof {
                assert(s@ =~= s0.drop_last().push(merged));
                lemma_merged(s0, e, merged, rb@);
            }
            return;
        }
    }
    let mut k: usize = 0;
    while k < n && s[k].logical < e.logical
        invariant
            s@ == s0,
            n == s0.len(),
            k <= n,
            forall|i: int| 0 <= i < k ==> (#[trigger] s0[i]).logical < e.logical,
        decreases n - k,
    {
        k = k + 1;
    }
    s.insert(k, e);
    proof {
        assert(s@ =~= s0.insert(k as int, e));
        lemma_inserted(s0, k as int, e, rb@);
    }
}

proof fn lemma_merged(s0: Seq<Extent>, e: Extent, merged: Extent, rb: int)
    requires
        exts_wf(s0, rb),
        ext_wf(e, rb),
        s0.len() > 0,
        e.compress == 0,
        ({
            let last = s0.last();
            &&& last.compress == 0
            &&& last.lend() == e.logical
            &&& last.physical + last.plen() == e.physical
            &&& last.length + e.length <= u32::MAX
            &&& merged == Extent {
                logical: last.logical,
                physical: last.physical,
                length: (last.length + e.length) as u32,
                phys_length: if last.phys_length != 0 {
                    (last.phys_length + e.length) as u32
                } else {
                    0
                },
                compress: 0,
            }
        }),
    ensures
        added(s0, s0.drop_last().push(merged), e, rb),
{
    let n = s0.len();
    let last = s0.last();
    let t = s0.drop_last();
    let s1 = t.push(merged);
    assert(s0 =~= t.push(last));
    assert(ext_wf(s0[n - 1], rb));
    assert(exts_wf(s1, rb)) by {
        assert forall|i: int| 0 <= i < s1.len() implies ext_wf(#[trigger] s1[i], rb) by {
            if i < n - 1 {
                assert(ext_wf(s0[i], rb));
            }
        }
        assert forall|i: int, j: int| 0 <= i < j < s1.len() implies (#[trigger] s1[i]).lend() <= (
        #[trigger] s1[j]).logical by {
            assert(s0[i].lend() <= s0[j].logical);
        }
    }
    assert forall|l: int| #[trigger] lookup(s1, l) == (if e.has(l) {
        Some(loc_in(e, l))
    } else {
        lookup(s0, l)
    }) by {
        lemma_find_push(t, merged, l);
        lemma_find_push(t, last, l);
        lemma_find_some(t, l);
        if let Some(x) = find_ext(t, l) {
            let i = t.index_of(x);
            assert(s0[i] == x);
            assert(s0[i].lend() <= s0[n - 1].logical);
        }
    }
    assert forall|m: Owners, ino: u64|
        exts_claimed(m, ino, s0) && ext_claimed(m, ino, e) implies #[trigger] exts_claimed(
        m,
        ino,
        s1,
    ) by {
        assert(ext_claimed(m, ino, s0[n - 1]));
        assert(merged.plen() == last.length + e.length);
        assert forall|b: int|
            merged.physical <= b < merged.physical + merged.plen() implies #[trigger] m.contains_key(
        b) && m[b] == Owner::Data(ino, merged.logical + (b - merged.physical)) by {
            if b < last.physical + last.plen() {
                lemma_claimed_at(m, ino, last, b);
            } else {
                assert(e.plen() == e.length);
                assert(e.physical <= b < e.physical + e.plen());
                lemma_claimed_at(m, ino, e, b);
            }
        }
        assert(ext_claimed(m, ino, merged));
        assert forall|i: int| 0 <= i < s1.len() implies ext_claimed(m, ino, #[trigger] s1[i]) by {
            if i < n - 1 {
                assert(s1[i] == s0[i]);
                assert(ext_claimed(m, ino, s0[i]));
            }
        }
    }
    assert forall|x: Extent| #[trigger] s1.contains(x) && x.compress != 0 implies s0.contains(x) by {
        let i = s1.index_of(x);
        assert(s0[i] == x);
    }
}

proof fn lemma_inserted(s0: Seq<Extent>, k: int, e: Extent, rb: int)
    requires
        exts_wf(s0, rb),
        ext_wf(e, rb),
        0 <= k <= s0.len(),
        forall|i: int|
            0 <= i < s0.len() ==> (#[trigger] s0[i]).lend() <= e.logical || e.lend()
                <= s0[i].logical,
        forall|i: int| 0 <= i < k ==> (#[trigger] s0[i]).logical < e.logical,
        k < s0.len() ==> s0[k].logical >= e.logical,
    ensures
        added(s0, s0.insert(k, e), e, rb),
{
    let s1 = s0.insert(k, e);
    assert forall|i: int| 0 <= i < s0.len() implies if i < k {
        (#[trigger] s0[i]).lend() <= e.logical
    } else {
        e.lend() <= s0[i].logical
    } by {
        assert(ext_wf(s0[i], rb));
        if i > k {
            assert(s0[k].lend() <= s0[i].logical);
            assert(ext_wf(s0[k], rb));
        }
    }
    assert forall|i: int| 0 <= i < s1.len() implies ext_wf(#[trigger] s1[i], rb) by {
        if i < k {
            assert(ext_wf(s0[i], rb));
        } else if i > k {
            assert(ext_wf(s0[i - 1], rb));
        }
    }
    assert forall|i: int, j: int| 0 <= i < j < s1.len() implies (#[trigger] s1[i]).lend() <= (
    #[trigger] s1[j]).logical by {
        let a = if i < k {
            i
        } else {
            i - 1
        };
        let b = if j < k {
            j
        } else {
            j - 1
        };
        if i != k {
            assert(s1[i] == s0[a]);
        }
        if j != k {
            assert(s1[j] == s0[b]);
        }
    }
    assert(exts_wf(s1, rb));
    assert forall|l: int| #[trigger] lookup(s1, l) == (if e.has(l) {
        Some(loc_in(e, l))
    } else {
        lookup(s0, l)
    }) by {
        if e.has(l) {
            lemma_find(s1, k, l);
        } else {
            lemma_find_some(s0, l);
            lemma_find_some(s1, l);
            if let Some(x) = find_ext(s0, l) {
                let i = s0.index_of(x);
                let j = if i < k {
                    i
                } else {
                    i + 1
                };
                assert(s1[j] == x);
                lemma_find(s1, j, l);
            } else if let Some(x) = find_ext(s1, l) {
                let j = s1.index_of(x);
                let i = if j < k {
                    j
                } else {
                    j - 1
                };
                assert(s0[i] == x);
            }
        }
    }
    assert forall|m: Owners, ino: u64|
        exts_claimed(m, ino, s0) && ext_claimed(m, ino, e) implies #[trigger] exts_claimed(
        m,
        ino,
        s1,
    ) by {
        assert forall|i: int| 0 <= i < s1.len() implies ext_claimed(m, ino, #[trigger] s1[i]) by {
            if i < k {
                assert(ext_claimed(m, ino, s0[i]));
            } else if i > k {
                assert(ext_claimed(m, ino, s0[i - 1]));
            }
        }
    }
    assert forall|x: Extent| #[trigger] s1.contains(x) && x.compress != 0 && x
        != e implies s0.contains(x) by {
        let j = s1.index_of(x);
        let i = if j < k {
            j
        } else {
            j - 1
        };
        assert(s0[i] == x);
    }
}

/// What putting extent `e` into a list does.
pub open spec fn added(s0: Seq<Extent>, s1: Seq<Extent>, e: Extent, rb: int) -> bool {
    &&& exts_wf(s1, rb)
    &&& forall|l: int| #[trigger]
        lookup(s1, l) == if e.has(l) {
            Some(loc_in(e, l))
        } else {
            lookup(s0, l)
        }
    &&& forall|m: Owners, ino: u64|
        exts_claimed(m, ino, s0) && ext_claimed(m, ino, e) ==> #[trigger] exts_claimed(m, ino, s1)
    &&& packed_from(s0, s1, e)
}

/// Every compressed extent of `t` is one of `s`.
pub open spec fn no_new_packed(s: Seq<Extent>, t: Seq<Extent>) -> bool {
    forall|x: Extent| #[trigger] t.contains(x) && x.compress != 0 ==> s.contains(x)
}

/// Every compressed extent of `t` is one of `s`, or `e`.
pub open spec fn packed_from(s: Seq<Extent>, t: Seq<Extent>, e: Extent) -> bool {
    forall|x: Extent| #[trigger] t.contains(x) && x.compress != 0 ==> x == e || s.contains(x)
}

/// Multiples of a record size lie at least one record apart.
pub proof fn lemma_aligned(a: int, b: int, rb: int)
    requires
        record_size_ok(rb),
        a % rb == 0,
        b % rb == 0,
        a < b,
    ensures
        a + rb <= b,
{
    vstd::arithmetic::div_mod::lemma_fundamental_div_mod(a, rb);
    vstd::arithmetic::div_mod::lemma_fundamental_div_mod(b, rb);
    let x = a / rb;
    let y = b / rb;
    assert(rb * x + rb <= rb * y) by (nonlinear_arith)
        requires
            rb * x < rb * y,
            rb > 0,
    ;
}

/// A stretch of blocks that starts and ends at records.
pub open spec fn record_range(start: int, end: int, rb: int) -> bool {
    &&& 0 <= start < end
    &&& start % rb == 0
    &&& end % rb == 0 || end >= MAX_FILE_BLOCKS
}

/// Owners of blocks outside the logical range from `start` to `end` of inode `ino` are kept.
pub open spec fn owners_outside_kept(
    m0: Owners,
    m1: Owners,
    ino: u64,
    start: int,
    end: int,
) -> bool {
    forall|b: int| #[trigger]
        m0.contains_key(b) && !(m0[b] is Data && m0[b]->Data_0 == ino && start <= m0[b]->Data_1
            < end) ==> m1.contains_key(b) && m1[b] == m0[b]
}

/// Drops the logical blocks from `start` up to `end`, and gives their physical blocks back.
#[verifier::rlimit(50)]
pub fn punch(
    v: &mut Volume,
    s: &mut Vec<Extent>,
    ino: Ghost<u64>,
    start: u64,
    end: u64,
    rb: Ghost<int>,
)
    requires
        old(v).wf(),
        record_size_ok(rb@),
        exts_wf(old(s)@, rb@),
        exts_claimed(old(v).owner@, ino@, old(s)@),
        (forall|i: int| 0 <= i < old(s)@.len() ==> (#[trigger] old(s)@[i]).compress == 0)
            || record_range(start as int, end as int, rb@),
        start < end,
    ensures
        final(v).wf(),
        exts_wf(final(s)@, rb@),
        exts_claimed(final(v).owner@, ino@, final(s)@),
        forall|l: int| #[trigger]
            lookup(final(s)@, l) == if start <= l < end {
                None
            } else {
                lookup(old(s)@, l)
            },
        frame(*old(v), *final(v), ino@),
        owners_outside_kept(old(v).owner@, final(v).owner@, ino@, start as int, end as int),
        final(v).alloc.total_blocks == old(v).alloc.total_blocks,
        final(v).end() <= old(v).end(),
        forall|b: int| b >= 0 ==> #[trigger] final(v).d(b) == old(v).d(b),
        no_new_packed(old(s)@, final(s)@),
        forall|b: int| #[trigger]
            old(v).owner@.contains_key(b) && !final(v).owner@.contains_key(b) ==> final(v).alloc.is_free(b),
        stays_tight(old(v).owner@, old(s)@, final(v).owner@, final(s)@, ino@),
{
    let ghost s0 = s@;
    let ghost v0 = *v;
    let limit = block_limit();
    let mut kept: Vec<Extent> = Vec::new();
    let mut i: usize = 0;
    while i < s.len()
        invariant
            start < end,
            limit == max_blocks(),
            limit <= 0x1000_0000_0000,
            s@ == s0,
            i <= s0.len(),
            record_size_ok(rb@),
            exts_wf(s0, rb@),
            exts_claimed(v0.owner@, ino@, s0),
            (forall|k: int| 0 <= k < s0.len() ==> (#[trigger] s0[k]).compress == 0)
                || record_range(start as int, end as int, rb@),
            v0.wf(),
            v.wf(),
            base_kept(v0, *v),
            v.alloc.total_blocks == v0.alloc.total_blocks,
            v.end() <= v0.end(),
            forall|b: int| b >= 0 ==> #[trigger] v.d(b) == v0.d(b),
            owners_outside_kept(v0.owner@, v.owner@, ino@, start as int, end as int),
            forall|k: int| i <= k < s0.len() ==> ext_claimed(v.owner@, ino@, #[trigger] s0[k]),
            exts_wf(kept@, rb@),
            kept@.len() > 0 ==> kept@.last().lend() <= if i < s0.len() {
                s0[i as int].logical as int
            } else {
                MAX_FILE_BLOCKS as int
            },
            kept@.len() > 0 ==> i > 0 && kept@.last().lend() <= s0[i - 1].lend(),
            forall|k: int| 0 <= k < kept@.len() ==> ext_claimed(v0.owner@, ino@, #[trigger] kept@[k]),
            forall|k: int|
                0 <= k < kept@.len() ==> (#[trigger] kept@[k]).lend() <= start || end
                    <= kept@[k].logical,
            forall|l: int| #[trigger]
                lookup(kept@, l) == if start <= l < end {
                    None
                } else {
                    lookup(s0.take(i as int), l)
                },
            no_new_packed(s0, kept@),
            forall|b: int| #[trigger]
                v0.owner@.contains_key(b) && !v.owner@.contains_key(b) ==> v.alloc.is_free(b),
            forall|b: int| #[trigger] v.owner@.contains_key(b) ==> v0.owner@.contains_key(b)
                && v.owner@[b] == v0.owner@[b],
            forall|b: int| #[trigger]
                v.owner@.contains_key(b) && v.owner@[b] is Data && v.owner@[b]->Data_0 == ino@
                    && start <= v.owner@[b]->Data_1 < end ==> !at_place(
                    s0.take(i as int),
                    v.owner@[b]->Data_1,
                    b,
                ),
        decreases s0.len() - i,
    {
        let ext = s[i];
        let ghost e = ext;
        assert(ext_wf(s0[i as int], rb@));
        assert(ext_claimed(v.owner@, ino@, s0[i as int]));
        assert(ext_claimed(v0.owner@, ino@, s0[i as int]));
        let e0: u64 = ext.logical;
        let e1: u64 = ext.logical_end();
        let ghost k0 = kept@;
        let ghost v1 = *v;
        proof {
            if i + 1 < s0.len() {
                assert(s0[i as int].lend() <= s0[i + 1].logical);
                assert(ext_wf(s0[i + 1], rb@));
            }
            assert(s0.take(i + 1) =~= s0.take(i as int).push(e));
            assert forall|l: int| #[trigger] lookup(s0.take(i + 1), l) == (if e.has(l) {
                Some(loc_in(e, l))
            } else {
                lookup(s0.take(i as int), l)
            }) && (e.has(l) ==> lookup(s0.take(i as int), l) is None) by {
                lemma_find_push(s0.take(i as int), e, l);
                lemma_find_some(s0.take(i as int), l);
                if let Some(x) = find_ext(s0.take(i as int), l) {
                    let j = s0.take(i as int).index_of(x);
                    assert(s0[j] == x);
                    assert(s0[j].lend() <= s0[i as int].logical);
                }
            }
        }
        if e1 <= start || e0 >= end {
            kept.push(ext);
            proof {
                assert(kept@.drop_last() =~= k0);
                assert(s0.contains(e)) by {
                    assert(s0[i as int] == e);
                }
                lemma_keep(k0, e, rb@, v0.owner@, ino@, s0);
            }
        } else if ext.is_compressed() {
            proof {
                // The record lies in the range as a whole.
                assert(record_range(start as int, end as int, rb@));
                if e0 < start {
                    lemma_aligned(e0 as int, start as int, rb@);
                }
                if end as int % rb@ == 0 && e1 > end {
                    lemma_aligned(e0 as int, end as int, rb@);
                }
                assert(start <= e0 && e1 <= end);
            }
            v.release(ext.physical, ext.phys_len());
            proof {
                lemma_released(v0, v1, *v, ino@, e, 0, e.plen(), start as int, end as int);
                lemma_tail_claimed(v1.owner@, v.owner@, ino@, s0, i as int, 0, e.plen(), rb@);
            }
        } else {
            if e0 < start {
                let left: u32 = (start - e0) as u32;
                kept.push(Extent::with_phys(e0, ext.physical, left, left, 0));
                proof {
                    assert(kept@.drop_last() =~= k0);
                    lemma_part_claimed(v0.owner@, ino@, e, 0, left as int);
                    lemma_keep(k0, kept@.last(), rb@, v0.owner@, ino@, s0);
                }
            }
            let mid0: u64 = if start > e0 {
                start
            } else {
                e0
            };
            let mid1: u64 = if end < e1 {
                end
            } else {
                e1
            };
            v.release(ext.physical + (mid0 - e0), mid1 - mid0);
            proof {
                lemma_released(
                    v0,
                    v1,
                    *v,
                    ino@,
                    e,
                    mid0 - e0,
                    mid1 - e0,
                    start as int,
                    end as int,
                );
                lemma_tail_claimed(
                    v1.owner@,
                    v.owner@,
                    ino@,
                    s0,
                    i as int,
                    mid0 - e0,
                    mid1 - mid0,
                    rb@,
                );
            }
            let ghost k1 = kept@;
            if e1 > end {
                let right: u32 = (e1 - end) as u32;
                kept.push(Extent::with_phys(end, ext.physical + (end - e0), right, right, 0));
                proof {
                    assert(kept@.drop_last() =~= k1);
                    assert(v0.owner@.contains_key(e.physical + e.plen() - 1));
                    lemma_part_claimed(v0.owner@, ino@, e, end - e0, e1 - e0);
                    lemma_keep(k1, kept@.last(), rb@, v0.owner@, ino@, s0);
                }
            }
        }
        proof {
            assert forall|b: int| #[trigger]
                v.owner@.contains_key(b) && v.owner@[b] is Data && v.owner@[b]->Data_0 == ino@
                    && start <= v.owner@[b]->Data_1 < end implies !at_place(
                s0.take(i + 1),
                v.owner@[b]->Data_1,
                b,
            ) by {
                let l = v.owner@[b]->Data_1;
                assert(v1.owner@.contains_key(b));
                assert(!at_place(s0.take(i as int), l, b));
                assert(lookup(s0.take(i + 1), l) == if e.has(l) {
                    Some(loc_in(e, l))
                } else {
                    lookup(s0.take(i as int), l)
                });
            }
            assert forall|l: int| #[trigger] lookup(kept@, l) == (if start <= l < end {
                None
            } else {
                lookup(s0.take(i + 1), l)
            }) by {
                lemma_pieces(k0, kept@, e, l);
                assert(lookup(k0, l) == if start <= l < end {
                    None
                } else {
                    lookup(s0.take(i as int), l)
                });
                assert(lookup(s0.take(i + 1), l) == if e.has(l) {
                    Some(loc_in(e, l))
                } else {
                    lookup(s0.take(i as int), l)
                });
            }
        }
        i = i + 1;
    }
    proof {
        assert(s0.take(i as int) =~= s0);
        assert forall|k: int| 0 <= k < kept@.len() implies ext_claimed(
            v.owner@,
            ino@,
            #[trigger] kept@[k],
        ) by {
            let x = kept@[k];
            assert(ext_claimed(v0.owner@, ino@, x));
            assert(x.lend() <= start || end <= x.logical);
            assert(ext_wf(x, rb@));
            assert forall|b: int| x.physical <= b < x.physical + x.plen() implies #[trigger] v.owner@.contains_key(
            b) && v.owner@[b] == Owner::Data(ino@, x.logical + (b - x.physical)) by {
                assert(v0.owner@.contains_key(b));
            }
        }
        if owns_only(v0.owner@, ino@, s0) {
            assert forall|b: int| #[trigger]
                v.owner@.contains_key(b) && v.owner@[b] is Data && v.owner@[b]->Data_0
                    == ino@ implies at_place(kept@, v.owner@[b]->Data_1, b) by {
                let l = v.owner@[b]->Data_1;
                assert(v0.owner@.contains_key(b));
                assert(at_place(s0, l, b));
                assert(!(start <= l < end));
                assert(lookup(kept@, l) == lookup(s0, l));
            }
        }
    }
    *s = kept;
}

/// A part of a raw extent owns its part of the blocks.
proof fn lemma_part_claimed(m: Owners, ino: u64, e: Extent, a: int, b: int)
    requires
        ext_claimed(m, ino, e),
        e.compress == 0,
        e.plen() == e.length,
        0 <= a < b <= e.length,
        e.lend() <= MAX_FILE_BLOCKS,
        e.physical <= max_blocks(),
    ensures
        ext_claimed(
            m,
            ino,
            Extent {
                logical: (e.logical + a) as u64,
                physical: (e.physical + a) as u64,
                length: (b - a) as u32,
                phys_length: (b - a) as u32,
                compress: 0,
            },
        ),
{
    let x = Extent {
        logical: (e.logical + a) as u64,
        physical: (e.physical + a) as u64,
        length: (b - a) as u32,
        phys_length: (b - a) as u32,
        compress: 0,
    };
    assert forall|c: int| x.physical <= c < x.physical + x.plen() implies #[trigger] m.contains_key(
        c,
    ) && m[c] == Owner::Data(ino, x.logical + (c - x.physical)) by {
        assert(m.contains_key(c));
    }
}

/// An extent that goes on behind a list can be put at its end.
proof fn lemma_keep(
    s: Seq<Extent>,
    e: Extent,
    rb: int,
    m: Owners,
    ino: u64,
    all: Seq<Extent>,
)
    requires
        no_new_packed(all, s),
        e.compress == 0 || all.contains(e),
        exts_wf(s, rb),
        ext_wf(e, rb),
        s.len() > 0 ==> s.last().lend() <= e.logical,
        forall|k: int| 0 <= k < s.len() ==> ext_claimed(m, ino, #[trigger] s[k]),
        ext_claimed(m, ino, e),
    ensures
        exts_wf(s.push(e), rb),
        forall|k: int| 0 <= k < s.push(e).len() ==> ext_claimed(m, ino, #[trigger] s.push(e)[k]),
        no_new_packed(all, s.push(e)),
{
    let t = s.push(e);
    assert forall|x: Extent| #[trigger] t.contains(x) && x.compress != 0 implies all.contains(x) by {
        let i = t.index_of(x);
        if i < s.len() {
            assert(s[i] == x);
            assert(s.contains(x));
        }
    }
    assert forall|i: int, j: int| 0 <= i < j < t.len() implies (#[trigger] t[i]).lend() <= (
    #[trigger] t[j]).logical by {
        if j == s.len() {
            if i < s.len() - 1 {
                assert(s[i].lend() <= s[s.len() - 1].logical);
                assert(ext_wf(s[s.len() - 1], rb));
            }
        }
    }
}

/// Giving a part of extent `i` back leaves those behind it alone.
proof fn lemma_tail_claimed(
    m1: Owners,
    m2: Owners,
    ino: u64,
    s: Seq<Extent>,
    i: int,
    a: int,
    n: int,
    rb: int,
)
    requires
        exts_wf(s, rb),
        0 <= i < s.len(),
        0 <= a,
        a + n <= s[i].plen(),
        forall|k: int| i <= k < s.len() ==> ext_claimed(m1, ino, #[trigger] s[k]),
        m2 == unclaimed(m1, s[i].physical + a, n),
    ensures
        forall|k: int| i + 1 <= k < s.len() ==> ext_claimed(m2, ino, #[trigger] s[k]),
{
    let e = s[i];
    assert(ext_wf(s[i], rb));
    assert(ext_claimed(m1, ino, s[i]));
    assert forall|k: int| i + 1 <= k < s.len() implies ext_claimed(m2, ino, #[trigger] s[k]) by {
        let x = s[k];
        assert(ext_claimed(m1, ino, s[k]));
        assert(s[i].lend() <= s[k].logical);
        assert forall|b: int| x.physical <= b < x.physical + x.plen() implies #[trigger] m2.contains_key(
            b) && m2[b] == Owner::Data(ino, x.logical + (b - x.physical)) by {
            assert(m1.contains_key(b));
            if e.physical <= b < e.physical + e.plen() {
                assert(m1[b] == Owner::Data(ino, e.logical + (b - e.physical)));
            }
        }
    }
}

/// What giving a part of an extent back does to the owners.
proof fn lemma_released(
    v0: Volume,
    v1: Volume,
    v2: Volume,
    ino: u64,
    e: Extent,
    a: int,
    b: int,
    start: int,
    end: int,
)
    requires
        0 <= a <= b <= e.plen(),
        start <= e.logical + a,
        e.logical + b <= end,
        ext_claimed(v0.owner@, ino, e),
        owners_outside_kept(v0.owner@, v1.owner@, ino, start, end),
        forall|x: int| #[trigger] v1.owner@.contains_key(x) ==> v0.owner@.contains_key(x)
            && v1.owner@[x] == v0.owner@[x],
        forall|x: int| #[trigger]
            v0.owner@.contains_key(x) && !v1.owner@.contains_key(x) ==> v1.alloc.is_free(x),
        v2.owner@ == unclaimed(v1.owner@, e.physical + a, b - a),
        forall|x: int| #[trigger]
            v2.alloc.is_free(x) <==> v1.alloc.is_free(x) || e.physical + a <= x < e.physical + b,
    ensures
        owners_outside_kept(v0.owner@, v2.owner@, ino, start, end),
        forall|x: int| #[trigger] v2.owner@.contains_key(x) ==> v0.owner@.contains_key(x)
            && v2.owner@[x] == v0.owner@[x],
        forall|x: int| #[trigger]
            v0.owner@.contains_key(x) && !v2.owner@.contains_key(x) ==> v2.alloc.is_free(x),
{
    assert forall|x: int| #[trigger]
        v0.owner@.contains_key(x) && !(v0.owner@[x] is Data && v0.owner@[x]->Data_0 == ino && start
            <= v0.owner@[x]->Data_1 < end) implies v2.owner@.contains_key(x) && v2.owner@[x]
        == v0.owner@[x] by {
        assert(v1.owner@.contains_key(x));
    }
    assert forall|x: int| #[trigger]
        v0.owner@.contains_key(x) && !v2.owner@.contains_key(x) implies v2.alloc.is_free(x) by {
        if v1.owner@.contains_key(x) {
            assert(e.physical + a <= x < e.physical + b);
        }
        assert(v2.alloc.is_free(x) <==> v1.alloc.is_free(x) || e.physical + a <= x < e.physical + b);
    }
}

/// Looking a block up in a list with up to two more extents at its end.
proof fn lemma_pieces(s: Seq<Extent>, t: Seq<Extent>, e: Extent, l: int)
    requires
        t == s || (t.len() == s.len() + 1 && t.drop_last() == s) || (t.len() == s.len() + 2
            && t.drop_last().drop_last() == s),
    ensures
        t == s ==> find_ext(t, l) == find_ext(s, l),
        t.len() == s.len() + 1 ==> find_ext(t, l) == match find_ext(s, l) {
            Some(x) => Some(x),
            None => if t.last().has(l) {
                Some(t.last())
            } else {
                None
            },
        },
        t.len() == s.len() + 2 ==> find_ext(t, l) == match find_ext(s, l) {
            Some(x) => Some(x),
            None => if t[t.len() - 2].has(l) {
                Some(t[t.len() - 2])
            } else if t.last().has(l) {
                Some(t.last())
            } else {
                None
            },
        },
{
    if t.len() == s.len() + 2 {
        assert(find_ext(t.drop_last(), l) == match find_ext(s, l) {
            Some(x) => Some(x),
            None => if t[t.len() - 2].has(l) {
                Some(t[t.len() - 2])
            } else {
                None
            },
        });
    }
}

} // verus!
