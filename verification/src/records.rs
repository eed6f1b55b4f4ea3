//! Records: aligned stretches of a file that are stored as one, raw or compressed.

use vstd::prelude::*;

use crate::bytes::{all_zero, append, copy_into, pad_to, zero_vec, zeros};
use crate::compress::{
    blocks_for, decompress, header_roundtrip, packs, payload_crc, saves_block, try_compress,
    Compression, RecordHeader, HEADER_SIZE,
};
use crate::error::{eio, Result, EIO, ENOSPC};
use crate::extents::{
    add_extent, ext_claimed, ext_wf, exts_claimed, exts_readable, exts_wf, find_ext, lemma_aligned,
    lemma_claimed_at, lemma_find, lemma_find_some, lemma_packed_same, loc_in, locate, lookup,
    maps_only, no_new_packed, packed_data, packed_from, packed_raw, punch, record_data,
    record_size_ok, stays_tight, ublock, ubyte, Loc, MAX_FILE_BLOCKS,
};
use crate::format::Extent;
use crate::store::{block_limit, max_blocks};
use crate::volume::{
    base_kept, data_block, frame, lemma_kept_trans, others_kept, unchanged, Owner, Owners, Volume,
};

verus! {

/// First block of the record that block `l` belongs to.
pub open spec fn record_start(l: int, rb: int) -> int {
    l - l % rb
}

pub proof fn lemma_record_start(l: int, rb: int)
    requires
        record_size_ok(rb),
        l >= 0,
    ensures
        0 <= record_start(l, rb) <= l < record_start(l, rb) + rb,
        record_start(l, rb) % rb == 0,
        l < MAX_FILE_BLOCKS ==> record_start(l, rb) + rb <= MAX_FILE_BLOCKS,
{
    vstd::arithmetic::div_mod::lemma_fundamental_div_mod(l, rb);
    vstd::arithmetic::div_mod::lemma_mod_multiples_basic(l / rb, rb);
    let q = l / rb;
    assert(record_start(l, rb) == q * rb) by (nonlinear_arith)
        requires
            l == rb * q + l % rb,
            record_start(l, rb) == l - l % rb,
    ;
    assert(0 <= l % rb < rb);
    if rb == 2 {
        assert(record_start(l, rb) == 2 * q);
    } else if rb == 4 {
        assert(record_start(l, rb) == 4 * q);
    } else if rb == 8 {
        assert(record_start(l, rb) == 8 * q);
    } else if rb == 16 {
        assert(record_start(l, rb) == 16 * q);
    } else {
        assert(record_start(l, rb) == 32 * q);
    }
    assert(record_start(l, rb) >= 0) by {
        vstd::arithmetic::div_mod::lemma_div_pos_is_pos(l, rb);
    }
}

/// First block of a record, and room for the record below the size limit.
pub open spec fn is_record_start(s: int, rb: int) -> bool {
    0 <= s && s % rb == 0 && s + rb <= MAX_FILE_BLOCKS
}

/// Reads and unpacks a compressed extent; fails with `EIO` where the record is corrupt.
pub fn read_compressed_extent(v: &mut Volume, e: &Extent, rb: Ghost<int>) -> (r: Result<Vec<u8>>)
    requires
        old(v).wf(),
        record_size_ok(rb@),
        ext_wf(*e, rb@),
        e.compress != 0,
        old(v).lo() <= e.physical,
        e.physical + e.plen() <= max_blocks(),
    ensures
        final(v).wf(),
        unchanged(*old(v), *final(v)),
        match r {
            Ok(d) => record_data(packed_raw(*old(v), *e)) == Some(d@),
            Err(err) => record_data(packed_raw(*old(v), *e)) is None && err.is(EIO),
        },
{
    let n: u64 = e.phys_len();
    let mut raw: Vec<u8> = Vec::new();
    let mut i: u64 = 0;
    while i < n
        invariant
            i <= n,
            n == e.plen(),
            n <= 32,
            v.wf(),
            unchanged(*old(v), *v),
            v.lo() <= e.physical,
            e.physical + e.plen() <= max_blocks(),
            raw@.len() == i * 4096,
            forall|p: int|
                0 <= p < i * 4096 ==> #[trigger] raw@[p] == old(v).d(e.physical + p / 4096)[p
                    % 4096],
        decreases n - i,
    {
        let blk = v.get(e.physical + i);
        let ghost before = raw@;
        append(&mut raw, blk.as_slice());
        assert forall|p: int| 0 <= p < (i + 1) * 4096 implies #[trigger] raw@[p] == old(v).d(
            e.physical + p / 4096,
        )[p % 4096] by {
            if p < i * 4096 {
                assert(raw@[p] == before[p]);
            } else {
                assert(p / 4096 == i as int && p % 4096 == p - i * 4096);
            }
        }
        i = i + 1;
    }
    assert(raw@ =~= packed_raw(*old(v), *e));
    unpack_record(raw.as_slice())
}

/// Unpacks a compressed record; fails with `EIO` where it is corrupt.
pub fn unpack_record(raw: &[u8]) -> (r: Result<Vec<u8>>)
    requires
        raw@.len() <= 0x100_0000,
    ensures
        match r {
            Ok(d) => record_data(raw@) == Some(d@),
            Err(err) => record_data(raw@) is None && err.is(EIO),
        },
{
    let hdr = match RecordHeader::parse(raw) {
        Some(h) => h,
        None => return Err(eio("bad compressed record")),
    };
    let end: usize = HEADER_SIZE + hdr.payload_len as usize;
    if end > raw.len() {
        return Err(eio("compressed record truncated"));
    }
    let payload = vstd::slice::slice_subrange(raw, HEADER_SIZE, end);
    if payload_crc(payload) != hdr.crc {
        return Err(eio("compressed record checksum mismatch"));
    }
    decompress(hdr.algo, payload, hdr.uncompressed_len as usize)
}

/// A compressed extent that covers a block of a record starts with the record.
pub proof fn lemma_packed_at_start(s: Seq<Extent>, l: int, start: int, rb: int)
    requires
        record_size_ok(rb),
        exts_wf(s, rb),
        is_record_start(start, rb),
        start <= l < start + rb,
        find_ext(s, l) matches Some(e) && e.compress != 0,
    ensures
        find_ext(s, start) == find_ext(s, l),
        (find_ext(s, l)->0).logical == start,
{
    lemma_find_some(s, l);
    let e = find_ext(s, l)->0;
    let i = s.index_of(e);
    assert(ext_wf(s[i], rb));
    if e.logical < start {
        lemma_aligned(e.logical as int, start, rb);
    }
    if start < e.logical {
        lemma_aligned(start, e.logical as int, rb);
    }
    lemma_find(s, i, start);
}

/// The blocks of a record, as they stand on disk; fails with `EIO` where the record is corrupt.
#[verifier::rlimit(40)]
pub fn load_record(v: &mut Volume, s: &Vec<Extent>, ino: Ghost<u64>, start: u64, rb: u32) -> (r: Result<
    Vec<u8>,
>)
    requires
        old(v).wf(),
        record_size_ok(rb as int),
        exts_wf(s@, rb as int),
        exts_claimed(old(v).owner@, ino@, s@),
        is_record_start(start as int, rb as int),
    ensures
        final(v).wf(),
        unchanged(*old(v), *final(v)),
        match r {
            Ok(d) => d@.len() == rb * 4096 && forall|q: int|
                0 <= q < rb * 4096 ==> #[trigger] d@[q] == ubyte(*old(v), s@, start * 4096 + q),
            Err(e) => e.is(EIO) && !exts_readable(*old(v), s@),
        },
{
    let limit = block_limit();
    let ghost v0 = *v;
    let mut packed: Vec<u8> = Vec::new();
    let mut packed_end: u64 = start;
    match locate(s, start) {
        Some(i) => {
            let e = s[i];
            assert(ext_wf(s@[i as int], rb as int));
            if e.is_compressed() {
                proof {
                    assert(ext_claimed(v0.owner@, ino@, s@[i as int]));
                    lemma_claimed_at(v0.owner@, ino@, e, e.physical as int);
                    lemma_claimed_at(v0.owner@, ino@, e, e.physical + e.plen() - 1);
                    lemma_packed_at_start(s@, start as int, start as int, rb as int);
                }
                packed = match read_compressed_extent(v, &e, Ghost(rb as int)) {
                    Ok(d) => d,
                    Err(err) => {
                        assert(s@[i as int].compress != 0);
                        return Err(err);
                    },
                };
                packed_end = start + e.length as u64;
            }
        },
        None => {},
    }
    assert(packed_end > start ==> (find_ext(s@, start as int) matches Some(e) && e.compress != 0
        && e.logical == start && packed_end == e.lend() && packed@ == packed_data(v0, e)));
    assert(packed_end == start ==> !(find_ext(s@, start as int) matches Some(e) && e.compress
        != 0));
    let mut buf: Vec<u8> = Vec::new();
    let mut k: u32 = 0;
    while k < rb
        invariant
            k <= rb <= 32,
            record_size_ok(rb as int),
            limit == max_blocks(),
            limit <= 0x1000_0000_0000,
            exts_wf(s@, rb as int),
            exts_claimed(v0.owner@, ino@, s@),
            is_record_start(start as int, rb as int),
            v0.wf(),
            v.wf(),
            unchanged(v0, *v),
            start <= packed_end <= start + rb,
            packed_end > start ==> (find_ext(s@, start as int) matches Some(e) && e.compress != 0
                && e.logical == start && packed_end == e.lend() && packed@ == packed_data(v0, e)),
            packed_end == start ==> !(find_ext(s@, start as int) matches Some(e) && e.compress
                != 0),
            buf@.len() == k * 4096,
            forall|q: int|
                0 <= q < k * 4096 ==> #[trigger] buf@[q] == ubyte(v0, s@, start * 4096 + q),
        decreases rb - k,
    {
        let l: u64 = start + k as u64;
        let mut blk: Vec<u8> = zero_vec(4096);
        if l < packed_end {
            let from: usize = k as usize * 4096;
            if from < packed.len() {
                let n: usize = if packed.len() - from < 4096 {
                    packed.len() - from
                } else {
                    4096
                };
                copy_into(
                    blk.as_mut_slice(),
                    0,
                    vstd::slice::slice_subrange(packed.as_slice(), from, from + n),
                );
            }
            proof {
                let e = find_ext(s@, start as int)->0;
                lemma_find_some(s@, start as int);
                let i = s@.index_of(e);
                lemma_find(s@, i, l as int);
                assert(blk@ =~= data_block(packed@, k as int));
                assert(ublock(v0, s@, l as int) == blk@);
            }
        } else {
            match locate(s, l) {
                Some(i) => {
                    let e = s[i];
                    assert(ext_wf(s@[i as int], rb as int));
                    proof {
                        if e.compress != 0 {
                            lemma_packed_at_start(s@, l as int, start as int, rb as int);
                        }
                        assert(ext_claimed(v0.owner@, ino@, s@[i as int]));
                        lemma_claimed_at(v0.owner@, ino@, e, e.physical + (l - e.logical));
                    }
                    blk = v.get(e.physical + (l - e.logical));
                    assert(ublock(v0, s@, l as int) == blk@);
                },
                None => {
                    assert(ublock(v0, s@, l as int) == blk@);
                },
            }
        }
        let ghost before = buf@;
        append(&mut buf, blk.as_slice());
        assert forall|q: int| 0 <= q < (k + 1) * 4096 implies #[trigger] buf@[q] == ubyte(
            v0,
            s@,
            start * 4096 + q,
        ) by {
            if q < k * 4096 {
                assert(buf@[q] == before[q]);
            } else {
                let p = start * 4096 + q;
                assert(p / 4096 == l && p % 4096 == q - k * 4096);
            }
        }
        k = k + 1;
    }
    Ok(buf)
}

/// Owners that are kept keep their claims.
pub proof fn lemma_claims_kept(m0: Owners, m1: Owners, ino: u64, s: Seq<Extent>)
    requires
        exts_claimed(m0, ino, s),
        forall|b: int| #[trigger]
            m0.contains_key(b) && m0[b] is Data ==> m1.contains_key(b) && m1[b] == m0[b],
    ensures
        exts_claimed(m1, ino, s),
{
    assert forall|i: int| 0 <= i < s.len() implies ext_claimed(m1, ino, #[trigger] s[i]) by {
        let e = s[i];
        assert(ext_claimed(m0, ino, s[i]));
        assert forall|b: int| e.physical <= b < e.physical + e.plen() implies #[trigger] m1.contains_key(
            b) && m1[b] == Owner::Data(ino, e.logical + (b - e.physical)) by {
            assert(m0.contains_key(b));
        }
    }
}

/// Extents that share no block with a range where nothing is found.
pub proof fn lemma_disjoint_from(s: Seq<Extent>, a: int, b: int, rb: int)
    requires
        exts_wf(s, rb),
        forall|l: int| a <= l < b ==> #[trigger] lookup(s, l) is None,
        a < b,
    ensures
        forall|i: int| 0 <= i < s.len() ==> (#[trigger] s[i]).lend() <= a || b <= s[i].logical,
{
    assert forall|i: int| 0 <= i < s.len() implies (#[trigger] s[i]).lend() <= a || b
        <= s[i].logical by {
        assert(ext_wf(s[i], rb));
        if s[i].lend() > a && b > s[i].logical {
            let l = if s[i].logical > a {
                s[i].logical as int
            } else {
                a
            };
            lemma_find(s, i, l);
            assert(lookup(s, l) is None);
        }
    }
}

/// What `replace_record` does to a file: the record consists of extent `e` alone, whose physical
/// blocks hold `raw`; every other block of the file, and of other files, is as it was.
pub open spec fn record_replaced(
    v0: Volume,
    s0: Seq<Extent>,
    v1: Volume,
    s1: Seq<Extent>,
    ino: u64,
    start: int,
    rb: int,
    e: Extent,
    raw: Seq<u8>,
) -> bool {
    &&& v1.wf()
    &&& exts_wf(s1, rb)
    &&& exts_claimed(v1.owner@, ino, s1)
    &&& frame(v0, v1, ino)
    &&& forall|l: int| #[trigger]
        lookup(s1, l) == if e.has(l) {
            Some(loc_in(e, l))
        } else if start <= l < start + rb {
            None
        } else {
            lookup(s0, l)
        }
    &&& forall|b: int| #[trigger] v0.owner@.contains_key(b) ==> v1.d(b) == v0.d(b)
    &&& forall|b: int|
        e.physical <= b < e.physical + e.plen() ==> #[trigger] v1.d(b) == data_block(
            raw,
            b - e.physical,
        )
    &&& packed_from(s0, s1, e)
    &&& stays_tight(v0.owner@, s0, v1.owner@, s1, ino)
}

/// Puts an extent with the physical contents `raw` in the place of a record.
fn replace_record(
    v: &mut Volume,
    s: &mut Vec<Extent>,
    ino: Ghost<u64>,
    start: u64,
    length: u32,
    raw: &[u8],
    compress: u8,
    rb: u32,
) -> (r: Result<Ghost<Extent>>)
    requires
        old(v).wf(),
        record_size_ok(rb as int),
        exts_wf(old(s)@, rb as int),
        exts_claimed(old(v).owner@, ino@, old(s)@),
        is_record_start(start as int, rb as int),
        0 < length <= rb as int,
        0 < raw@.len() <= 32 * 4096,
        compress <= 1,
        compress == 0 ==> blocks_for(raw@.len() as int) == length,
        compress == 1 ==> blocks_for(raw@.len() as int) <= length,
    ensures
        final(v).end() <= old(v).end() + 64,
        match r {
            Ok(e) => e@.logical == start && e@.length == length && e@.compress == compress
                && e@.plen() == blocks_for(raw@.len() as int) && record_replaced(
                *old(v),
                old(s)@,
                *final(v),
                final(s)@,
                ino@,
                start as int,
                rb as int,
                e@,
                raw@,
            ),
            Err(err) => err.is(ENOSPC) && old(v).full(64) && *final(v) == *old(v) && *final(s) == *old(s),
        },
{
    let ghost v0 = *v;
    let ghost s0 = s@;
    let plen: u64 = (raw.len() as u64 - 1) / 4096 + 1;
    let phys = match v.allocate(plen, Ghost(Owner::Fresh)) {
        Ok(p) => p,
        Err(err) => return Err(err),
    };
    let ghost v1 = *v;
    assert forall|b: int| #[trigger] v0.owner@.contains_key(b) implies v1.owner@.contains_key(b)
        && v1.owner@[b] == v0.owner@[b] by {}
    v.write_physical_bytes(phys, raw);
    let ghost v2 = *v;
    proof {
        lemma_claims_kept(v0.owner@, v2.owner@, ino@, s0);
        assert(base_kept(v0, v2) && others_kept(v0, v2, ino@)) by {
            assert forall|b: int| 0 <= b < v0.lo() implies #[trigger] crate::store::image_block(
                v2.image@,
                b,
            ) == crate::store::image_block(v0.image@, b) by {
                assert(crate::store::image_block(v1.image@, b) == crate::store::image_block(
                    v0.image@,
                    b,
                ));
            }
            assert forall|b: int| #[trigger]
                v0.owner@.contains_key(b) && !(v0.owner@[b] is Fresh) && !(v0.owner@[b] is Data
                    && v0.owner@[b]->Data_0 == ino@) implies v2.owner@.contains_key(b)
                && v2.owner@[b] == v0.owner@[b] && v2.d(b) == v0.d(b) by {
                assert(!(phys <= b < phys + plen));
                assert(v1.d(b) == v0.d(b));
            }
        }
    }
    punch(v, s, ino, start, start + rb as u64, Ghost(rb as int));
    let ghost v3 = *v;
    let ghost s3 = s@;
    assert forall|b: int| phys <= b < phys + plen implies #[trigger] v3.owner@.contains_key(b)
        && v3.owner@[b] is Fresh by {
        assert(v2.owner@.contains_key(b));
    }
    v.assign(phys, plen, Ghost(Owner::Data(ino@, start as int)));
    let ghost v4 = *v;
    let e = Extent::with_phys(start, phys, length, plen as u32, compress);
    proof {
        lemma_kept_trans(v0, v2, v3, ino@);
        assert(frame(v0, v4, ino@)) by {
            assert forall|b: int| #[trigger]
                v4.owner@.contains_key(b) && !(v4.owner@[b] is Data && v4.owner@[b]->Data_0
                    == ino@) implies v0.owner@.contains_key(b) && v0.owner@[b] == v4.owner@[b] by {
                assert(!(phys <= b < phys + plen));
                assert(v3.owner@.contains_key(b));
                assert(v2.owner@.contains_key(b));
            }
            assert forall|b: int| #[trigger]
                v0.owner@.contains_key(b) && !(v0.owner@[b] is Fresh) && !(v0.owner@[b] is Data
                    && v0.owner@[b]->Data_0 == ino@) implies v4.owner@.contains_key(b)
                && v4.owner@[b] == v0.owner@[b] && v4.d(b) == v0.d(b) by {
                assert(v3.owner@.contains_key(b) && v3.owner@[b] == v0.owner@[b] && v3.d(b)
                    == v0.d(b));
                assert(v4.d(b) == v3.d(b));
            }
        }
        lemma_claims_kept(v3.owner@, v4.owner@, ino@, s3);
        assert(ext_claimed(v4.owner@, ino@, e)) by {
            assert forall|b: int| e.physical <= b < e.physical + e.plen() implies #[trigger] v4.owner@.contains_key(
            b) && v4.owner@[b] == Owner::Data(ino@, e.logical + (b - e.physical)) by {}
        }
        lemma_disjoint_from(s3, start as int, start + rb, rb as int);
        assert forall|i: int| 0 <= i < s3.len() implies (#[trigger] s3[i]).lend() <= e.logical
            || e.lend() <= s3[i].logical by {
            assert(s3[i].lend() <= start || start + rb <= s3[i].logical);
        }
    }
    add_extent(s, e, Ghost(rb as int));
    proof {
        assert(stays_tight(v0.owner@, s0, v2.owner@, s0, ino@)) by {
            assert forall|b: int| #[trigger]
                v2.owner@.contains_key(b) && v2.owner@[b] is Data implies v0.owner@.contains_key(b)
                && v0.owner@[b] == v2.owner@[b] by {
                assert(!(phys <= b < phys + plen));
            }
        }
        assert forall|l: int| e.has(l) implies #[trigger] lookup(s3, l) is None by {}
        assert forall|b: int| #[trigger]
            v4.owner@.contains_key(b) && v4.owner@[b] is Data && v4.owner@[b]->Data_0
                == ino@ implies (v3.owner@.contains_key(b) && v3.owner@[b] == v4.owner@[b]) || (
        e.physical <= b < e.physical + e.plen() && v4.owner@[b] == Owner::Data(
            ino@,
            e.logical + (b - e.physical),
        )) by {}
        crate::blocks::lemma_one_more(v3.owner@, s3, v4.owner@, s@, ino@, e);
        assert forall|b: int| #[trigger] v0.owner@.contains_key(b) implies v4.d(b) == v0.d(b) by {
            assert(!(phys <= b < phys + plen));
            assert(v1.d(b) == v0.d(b));
            assert(v2.d(b) == v1.d(b));
            assert(v3.d(b) == v2.d(b));
            assert(v4.d(b) == v3.d(b));
        }
        assert forall|b: int| e.physical <= b < e.physical + e.plen() implies #[trigger] v4.d(b)
            == data_block(raw@, b - e.physical) by {
            assert(v2.d(b) == data_block(raw@, b - phys));
            assert(v3.d(b) == v2.d(b));
            assert(v4.d(b) == v3.d(b));
        }
        assert forall|x: Extent| #[trigger] s@.contains(x) && x.compress != 0 implies x == e
            || s0.contains(x) by {
            if x != e {
                assert(s3.contains(x));
            }
        }
    }
    Ok(Ghost(e))
}

/// Byte `p` of a file after the record from block `start` on was replaced by `data`.
pub open spec fn patched_byte(
    v: Volume,
    s: Seq<Extent>,
    p: int,
    start: int,
    rb: int,
    data: Seq<u8>,
) -> u8 {
    let q = p - start * 4096;
    if 0 <= q < rb * 4096 {
        if q < data.len() {
            data[q]
        } else {
            0
        }
    } else {
        ubyte(v, s, p)
    }
}

/// What storing a record does to a file.
pub open spec fn record_stored(
    v0: Volume,
    s0: Seq<Extent>,
    v1: Volume,
    s1: Seq<Extent>,
    ino: u64,
    start: int,
    rb: int,
    data: Seq<u8>,
) -> bool {
    &&& v1.wf()
    &&& exts_wf(s1, rb)
    &&& exts_claimed(v1.owner@, ino, s1)
    &&& frame(v0, v1, ino)
    &&& forall|p: int|
        p >= 0 ==> #[trigger] ubyte(v1, s1, p) == patched_byte(v0, s0, p, start, rb, data)
    &&& exts_readable(v0, s0) ==> exts_readable(v1, s1)
    &&& stays_tight(v0.owner@, s0, v1.owner@, s1, ino)
    &&& maps_only(s0, s1, start, start + rb)
}

/// A record of bytes `data` that begins at `loc` is stored compressed just where the file is to be
/// compressed, the record is no hole and spans more than one block, and compression saves a block.
/// It then takes as many blocks as its header and its compressed form need.
#[verifier::opaque]
pub open spec fn packed_well(loc: Option<Loc>, data: Seq<u8>, lz4: bool) -> bool {
    if data == zeros(data.len()) {
        loc is None
    } else if !lz4 || data.len() < 8192 {
        loc is Some && loc->0 is Raw
    } else {
        exists|c: Seq<u8>| #[trigger]
            packs(c, data) && if saves_block(data.len() as int, c.len() as int) {
                loc matches Some(Loc::Packed(e)) && e.plen() == (HEADER_SIZE + c.len() + 4095)
                    / 4096
            } else {
                loc is Some && loc->0 is Raw
            }
    }
}

/// Blocks outside a replaced record read as before.
proof fn lemma_outside(
    v0: Volume,
    s0: Seq<Extent>,
    v1: Volume,
    s1: Seq<Extent>,
    ino: u64,
    l: int,
    rb: int,
)
    requires
        exts_wf(s0, rb),
        exts_claimed(v0.owner@, ino, s0),
        lookup(s1, l) == lookup(s0, l),
        forall|b: int| #[trigger] v0.owner@.contains_key(b) ==> v1.d(b) == v0.d(b),
    ensures
        ublock(v1, s1, l) == ublock(v0, s0, l),
{
    lemma_find_some(s0, l);
    if let Some(e) = find_ext(s0, l) {
        let i = s0.index_of(e);
        assert(ext_wf(s0[i], rb));
        assert(ext_claimed(v0.owner@, ino, s0[i]));
        if e.compress == 0 {
            lemma_claimed_at(v0.owner@, ino, e, e.physical + (l - e.logical));
        } else {
            assert forall|b: int| e.physical <= b < e.physical + e.plen() implies #[trigger] v1.d(b)
                == v0.d(b) by {
                lemma_claimed_at(v0.owner@, ino, e, b);
            }
            lemma_packed_same(v0, v1, e);
        }
    }
}

/// Compressed extents that were there before are as readable as before.
proof fn lemma_still_readable(
    v0: Volume,
    s0: Seq<Extent>,
    v1: Volume,
    s1: Seq<Extent>,
    ino: u64,
    e: Extent,
)
    requires
        exts_claimed(v0.owner@, ino, s0),
        exts_readable(v0, s0),
        forall|b: int| #[trigger] v0.owner@.contains_key(b) ==> v1.d(b) == v0.d(b),
        packed_from(s0, s1, e),
        e.compress != 0 ==> record_data(packed_raw(v1, e)) is Some,
    ensures
        exts_readable(v1, s1),
{
    assert forall|i: int| 0 <= i < s1.len() && (#[trigger] s1[i]).compress != 0 implies record_data(
        packed_raw(v1, s1[i]),
    ) is Some by {
        let x = s1[i];
        assert(s1.contains(x));
        if x != e {
            let k = s0.index_of(x);
            assert(s0[k] == x);
            assert(ext_claimed(v0.owner@, ino, s0[k]));
            assert forall|b: int| x.physical <= b < x.physical + x.plen() implies #[trigger] v1.d(b)
                == v0.d(b) by {
                lemma_claimed_at(v0.owner@, ino, x, b);
            }
            lemma_packed_same(v0, v1, x);
        }
    }
}

/// The physical blocks of an extent, where they hold `raw`.
proof fn lemma_packed_raw_is(v: Volume, e: Extent, raw: Seq<u8>)
    requires
        forall|b: int|
            e.physical <= b < e.physical + e.plen() ==> #[trigger] v.d(b) == data_block(
                raw,
                b - e.physical,
            ),
        raw.len() == e.plen() * 4096,
    ensures
        packed_raw(v, e) == raw,
{
    assert forall|p: int| 0 <= p < raw.len() implies packed_raw(v, e)[p] == raw[p] by {
        let b = e.physical + p / 4096;
        assert(0 <= p / 4096 < e.plen());
        assert(v.d(b) == data_block(raw, p / 4096));
        assert(p / 4096 * 4096 + p % 4096 == p);
    }
    assert(packed_raw(v, e) =~= raw);
}

/// Stores the record from block `start` on: as a hole where it is all zero, else compressed
/// where `algo` saves a block, else raw. Returns whether it is compressed.
#[verifier::rlimit(100)]
#[verifier::spinoff_prover]
pub fn store_record(
    v: &mut Volume,
    s: &mut Vec<Extent>,
    ino: Ghost<u64>,
    start: u64,
    data: &[u8],
    algo: Compression,
    rb: u32,
) -> (r: Result<bool>)
    requires
        old(v).wf(),
        record_size_ok(rb as int),
        exts_wf(old(s)@, rb as int),
        exts_claimed(old(v).owner@, ino@, old(s)@),
        is_record_start(start as int, rb as int),
        0 < data@.len() <= rb * 4096,
    ensures
        final(v).end() <= old(v).end() + 64,
        match r {
            Ok(packed) => {
                &&& record_stored(
                    *old(v),
                    old(s)@,
                    *final(v),
                    final(s)@,
                    ino@,
                    start as int,
                    rb as int,
                    data@,
                )
                &&& packed == (lookup(final(s)@, start as int) matches Some(Loc::Packed(_)))
                &&& packed ==> algo is Lz4
                &&& packed_well(lookup(final(s)@, start as int), data@, algo is Lz4)
                &&& forall|l: int|
                    !(start <= l < start + rb) ==> #[trigger] lookup(final(s)@, l) == lookup(
                        old(s)@,
                        l,
                    )
                &&& forall|l: int|
                    start <= l < start + rb && (l - start) * 4096 >= data@.len() ==> (
                    #[trigger] lookup(final(s)@, l)) is None
                &&& !packed ==> no_new_packed(old(s)@, final(s)@)
            },
            Err(e) => e.is(ENOSPC) && old(v).full(64) && *final(v) == *old(v) && *final(s) == *old(s),
        },
{
    let ghost v0 = *v;
    let ghost s0 = s@;
    let len: usize = data.len();
    if all_zero(data) {
        punch(v, s, ino, start, start + rb as u64, Ghost(rb as int));
        proof {
            assert forall|p: int| p >= 0 implies #[trigger] ubyte(*v, s@, p) == patched_byte(
                v0,
                s0,
                p,
                start as int,
                rb as int,
                data@,
            ) by {
                let l = p / 4096;
                assert(lookup(s@, l) == if start <= l < start + rb {
                    None
                } else {
                    lookup(s0, l)
                });
                if !(start <= l < start + rb) {
                    lemma_outside(v0, s0, *v, s@, ino@, l, rb as int);
                } else {
                    let q = p - start * 4096;
                    if q < data@.len() {
                        assert(data@[q] == zeros(data@.len())[q]);
                    }
                }
            }
            if exts_readable(v0, s0) {
                let none = Extent {
                    logical: 0,
                    physical: 0,
                    length: 0,
                    phys_length: 0,
                    compress: 0,
                };
                lemma_still_readable(v0, s0, *v, s@, ino@, none);
            }
            reveal(packed_well);
            assert(data@ =~= zeros(data@.len()));
            assert(lookup(s@, start as int) is None);
        }
        return Ok(false);
    }
    let logical_len: u32 = ((len - 1) / 4096 + 1) as u32;
    let (used, payload) = try_compress(algo, data);
    if !used.is_off() {
        let hdr = RecordHeader {
            algo: used,
            logical_blocks: logical_len as u16,
            payload_len: payload.len() as u32,
            uncompressed_len: len as u32,
            crc: payload_crc(payload.as_slice()),
        };
        assert(hdr.valid());
        let phys_len: u32 = hdr.phys_blocks();
        let mut raw: Vec<u8> = hdr.encode();
        append(&mut raw, payload.as_slice());
        let ghost head = raw@;
        pad_to(&mut raw, phys_len as usize * 4096);
        match replace_record(v, s, ino, start, logical_len, raw.as_slice(), used.as_u8(), rb) {
            Ok(ge) => {
                proof {
                    let e = ge@;
                    lemma_packed_raw_is(*v, e, raw@);
                    let tail = payload@ + zeros((phys_len * 4096 - head.len()) as nat);
                    assert(raw@ =~= hdr.bytes() + tail);
                    header_roundtrip(hdr, tail);
                    assert(raw@.subrange(20, 20 + hdr.payload_len) =~= payload@);
                    assert(record_data(raw@) == Some(data@));
                    assert forall|p: int| p >= 0 implies #[trigger] ubyte(*v, s@, p)
                        == patched_byte(v0, s0, p, start as int, rb as int, data@) by {
                        let l = p / 4096;
                        assert(lookup(s@, l) == if e.has(l) {
                            Some(loc_in(e, l))
                        } else if start <= l < start + rb {
                            None
                        } else {
                            lookup(s0, l)
                        });
                        if !(start <= l < start + rb) {
                            lemma_outside(v0, s0, *v, s@, ino@, l, rb as int);
                        } else if e.has(l) {
                            assert(packed_data(*v, e) == data@);
                            assert(ublock(*v, s@, l) == data_block(data@, l - start));
                            assert((l - start) * 4096 + p % 4096 == p - start * 4096);
                        }
                    }
                    if exts_readable(v0, s0) {
                        lemma_still_readable(v0, s0, *v, s@, ino@, e);
                    }
                    reveal(packed_well);
                    assert(e.has(start as int));
                    assert(lookup(s@, start as int) == Some(Loc::Packed(e)));
                }
                Ok(true)
            },
            Err(e) => Err(e),
        }
    } else {
        match replace_record(v, s, ino, start, logical_len, data, 0, rb) {
            Ok(ge) => {
                proof {
                    let e = ge@;
                    assert forall|p: int| p >= 0 implies #[trigger] ubyte(*v, s@, p)
                        == patched_byte(v0, s0, p, start as int, rb as int, data@) by {
                        let l = p / 4096;
                        assert(lookup(s@, l) == if e.has(l) {
                            Some(loc_in(e, l))
                        } else if start <= l < start + rb {
                            None
                        } else {
                            lookup(s0, l)
                        });
                        if !(start <= l < start + rb) {
                            lemma_outside(v0, s0, *v, s@, ino@, l, rb as int);
                        } else if e.has(l) {
                            let b = e.physical + (l - e.logical);
                            assert(v.d(b) == data_block(data@, b - e.physical));
                            assert((l - start) * 4096 + p % 4096 == p - start * 4096);
                        }
                    }
                    if exts_readable(v0, s0) {
                        lemma_still_readable(v0, s0, *v, s@, ino@, e);
                    }
                    assert forall|x: Extent| #[trigger] s@.contains(x) && x.compress
                        != 0 implies s0.contains(x) by {}
                    reveal(packed_well);
                    assert(e.has(start as int));
                    assert(lookup(s@, start as int) == Some(Loc::Raw(e.physical as int)));
                }
                Ok(false)
            },
            Err(e) => Err(e),
        }
    }
}

} // verus!
