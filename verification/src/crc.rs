//! IEEE CRC-32.

use vstd::bytes::{
    lemma_auto_spec_u32_to_from_le_bytes, spec_u32_from_le_bytes, spec_u32_to_le_bytes,
};
use vstd::prelude::*;

use crate::bytes::u32_at;

verus! {

pub const POLYNOMIAL: u32 = 0xEDB8_8320;

/// `crc` after `n` steps of the reflected shift register.
pub open spec fn crc_shift(crc: u32, n: nat) -> u32
    decreases n,
{
    if n == 0 {
        crc
    } else {
        let prev = crc_shift(crc, (n - 1) as nat);
        if prev & 1 != 0 {
            (prev >> 1) ^ POLYNOMIAL
        } else {
            prev >> 1
        }
    }
}

/// The register after `data` has been fed into `crc`, byte by byte.
pub open spec fn crc_feed(crc: u32, data: Seq<u8>) -> u32
    decreases data.len(),
{
    if data.len() == 0 {
        crc
    } else {
        let prev = crc_feed(crc, data.drop_last());
        crc_shift((prev ^ data.last() as u32) & 0xff, 8) ^ (prev >> 8)
    }
}

/// The CRC-32 of `data`.
pub open spec fn crc32_of(data: Seq<u8>) -> u32 {
    crc_feed(0xFFFF_FFFF, data) ^ 0xFFFF_FFFF
}

fn crc_table() -> (table: Vec<u32>)
    ensures
        table@.len() == 256,
        forall|i: int| 0 <= i < 256 ==> table@[i] == crc_shift(i as u32, 8),
{
    let mut table: Vec<u32> = Vec::new();
    let mut i: u32 = 0;
    while i < 256
        invariant
            i <= 256,
            table@.len() == i,
            forall|k: int| 0 <= k < i ==> table@[k] == crc_shift(k as u32, 8),
        decreases 256 - i,
    {
        let mut crc: u32 = i;
        let mut j: u32 = 0;
        while j < 8
            invariant
                j <= 8,
                crc == crc_shift(i, j as nat),
            decreases 8 - j,
        {
            if crc & 1 != 0 {
                crc = (crc >> 1) ^ POLYNOMIAL;
            } else {
                crc = crc >> 1;
            }
            j = j + 1;
        }
        table.push(crc);
        i = i + 1;
    }
    table
}

pub fn crc32(data: &[u8]) -> (c: u32)
    ensures
        c == crc32_of(data@),
{
    crc32_update(0xFFFF_FFFF, data) ^ 0xFFFF_FFFF
}

pub fn crc32_update(crc: u32, data: &[u8]) -> (c: u32)
    ensures
        c == crc_feed(crc, data@),
{
    let table = crc_table();
    let n: usize = data.len();
    let mut c: u32 = crc;
    let mut i: usize = 0;
    assert(data@.subrange(0, 0) =~= Seq::<u8>::empty());
    while i < n
        invariant
            i <= n,
            n == data@.len(),
            table@.len() == 256,
            forall|k: int| 0 <= k < 256 ==> table@[k] == crc_shift(k as u32, 8),
            c == crc_feed(crc, data@.subrange(0, i as int)),
        decreases n - i,
    {
        let b = data[i];
        let x: u32 = (c ^ b as u32) & 0xff;
        assert(x < 256) by (bit_vector)
            requires
                x == (c ^ b as u32) & 0xff,
        ;
        assert(data@.subrange(0, i + 1).drop_last() =~= data@.subrange(0, i as int));
        c = table[x as usize] ^ (c >> 8);
        i = i + 1;
    }
    assert(data@.subrange(0, n as int) =~= data@);
    c
}

/// Feeding one stretch of bytes after another is feeding their concatenation.
pub proof fn crc_feed_concat(crc: u32, a: Seq<u8>, b: Seq<u8>)
    ensures
        crc_feed(crc_feed(crc, a), b) == crc_feed(crc, a + b),
    decreases b.len(),
{
    if b.len() == 0 {
        assert(a + b =~= a);
    } else {
        crc_feed_concat(crc, a, b.drop_last());
        assert((a + b).drop_last() =~= a + b.drop_last());
        assert((a + b).last() == b.last());
    }
}

/// One step of the shift register.
pub open spec fn crc_step(c: u32) -> u32 {
    if c & 1 != 0 {
        (c >> 1) ^ POLYNOMIAL
    } else {
        c >> 1
    }
}

/// The register takes different values to different values.
proof fn lemma_step_differs(a: u32, b: u32)
    requires
        a != b,
    ensures
        crc_step(a) != crc_step(b),
{
    assert((if a & 1 != 0 {
        (a >> 1) ^ 0xEDB8_8320u32
    } else {
        a >> 1
    }) != (if b & 1 != 0 {
        (b >> 1) ^ 0xEDB8_8320u32
    } else {
        b >> 1
    })) by (bit_vector)
        requires
            a != b,
    ;
}

/// A step of a sum is the sum of the steps.
proof fn lemma_step_sum(a: u32, b: u32)
    ensures
        crc_step(a ^ b) == crc_step(a) ^ crc_step(b),
{
    let c = a ^ b;
    assert((if c & 1 != 0 {
        (c >> 1) ^ 0xEDB8_8320u32
    } else {
        c >> 1
    }) == (if a & 1 != 0 {
        (a >> 1) ^ 0xEDB8_8320u32
    } else {
        a >> 1
    }) ^ (if b & 1 != 0 {
        (b >> 1) ^ 0xEDB8_8320u32
    } else {
        b >> 1
    })) by (bit_vector)
        requires
            c == a ^ b,
    ;
}

proof fn lemma_shift_differs(a: u32, b: u32, n: nat)
    requires
        a != b,
    ensures
        crc_shift(a, n) != crc_shift(b, n),
    decreases n,
{
    if n > 0 {
        let m = (n - 1) as nat;
        lemma_shift_differs(a, b, m);
        lemma_step_differs(crc_shift(a, m), crc_shift(b, m));
    }
}

proof fn lemma_shift_sum(a: u32, b: u32, n: nat)
    ensures
        crc_shift(a ^ b, n) == crc_shift(a, n) ^ crc_shift(b, n),
    decreases n,
{
    if n > 0 {
        let m = (n - 1) as nat;
        lemma_shift_sum(a, b, m);
        lemma_step_sum(crc_shift(a, m), crc_shift(b, m));
    }
}

/// While zeros are shifted out, the register is just shifted.
proof fn lemma_shift_zeros(h: u32, n: u32)
    requires
        n <= 8,
        h & 0xff == 0,
    ensures
        crc_shift(h, n as nat) == h >> n,
    decreases n,
{
    if n == 0 {
        assert(h >> 0u32 == h) by (bit_vector);
    } else {
        let m: u32 = (n - 1) as u32;
        lemma_shift_zeros(h, m);
        assert((h >> m) & 1 == 0 && (h >> m) >> 1 == h >> n) by (bit_vector)
            requires
                h & 0xff == 0,
                m < 8,
                n == m + 1,
        ;
    }
}

/// Feeding a byte is shifting its sum with the register out.
proof fn lemma_fed_byte(prev: u32, b: u8)
    ensures
        crc_shift((prev ^ b as u32) & 0xff, 8) ^ (prev >> 8) == crc_shift(prev ^ b as u32, 8),
{
    let c: u32 = prev ^ b as u32;
    let low: u32 = c & 0xff;
    let high: u32 = c & 0xffff_ff00;
    assert(c == low ^ high && high & 0xff == 0 && high >> 8u32 == prev >> 8u32) by (bit_vector)
        requires
            c == prev ^ b as u32,
            low == c & 0xff,
            high == c & 0xffff_ff00,
    ;
    lemma_shift_sum(low, high, 8);
    lemma_shift_zeros(high, 8);
}

proof fn lemma_feed_differs(crc: u32, a: Seq<u8>, b: Seq<u8>, k: int)
    requires
        a.len() == b.len(),
        0 <= k < a.len(),
        a[k] != b[k],
        forall|i: int| 0 <= i < a.len() && i != k ==> a[i] == b[i],
    ensures
        crc_feed(crc, a) != crc_feed(crc, b),
    decreases a.len(),
{
    let p = crc_feed(crc, a.drop_last());
    let q = crc_feed(crc, b.drop_last());
    let x = a.last();
    let y = b.last();
    if k == a.len() - 1 {
        assert(a.drop_last() =~= b.drop_last());
        assert(p ^ x as u32 != p ^ y as u32) by (bit_vector)
            requires
                x != y,
        ;
    } else {
        lemma_feed_differs(crc, a.drop_last(), b.drop_last(), k);
        assert(p ^ x as u32 != q ^ x as u32) by (bit_vector)
            requires
                p != q,
        ;
    }
    lemma_shift_differs(p ^ x as u32, q ^ y as u32, 8);
    lemma_fed_byte(p, x);
    lemma_fed_byte(q, y);
}

/// Data that differs in one byte has another checksum.
pub proof fn changed_byte_changes_crc(a: Seq<u8>, b: Seq<u8>, k: int)
    requires
        a.len() == b.len(),
        0 <= k < a.len(),
        a[k] != b[k],
        forall|i: int| 0 <= i < a.len() && i != k ==> a[i] == b[i],
    ensures
        crc32_of(a) != crc32_of(b),
{
    lemma_feed_differs(0xFFFF_FFFF, a, b, k);
    let p = crc_feed(0xFFFF_FFFF, a);
    let q = crc_feed(0xFFFF_FFFF, b);
    assert(p ^ 0xFFFF_FFFFu32 != q ^ 0xFFFF_FFFFu32) by (bit_vector)
        requires
            p != q,
    ;
}

/// Data before its checksum, with one byte changed anywhere in the two, no longer agrees with it.
pub proof fn changed_byte_is_noticed(s: Seq<u8>, n: int, k: int, x: u8)
    requires
        0 <= k < n + 4 <= s.len(),
        n >= 0,
        x != s[k],
        u32_at(s, n) == crc32_of(s.subrange(0, n)),
    ensures
        u32_at(s.update(k, x), n) != crc32_of(s.update(k, x).subrange(0, n)),
{
    let t = s.update(k, x);
    lemma_auto_spec_u32_to_from_le_bytes();
    if k < n {
        assert(t.subrange(n, n + 4) =~= s.subrange(n, n + 4));
        changed_byte_changes_crc(s.subrange(0, n), t.subrange(0, n), k);
    } else {
        assert(t.subrange(0, n) =~= s.subrange(0, n));
        let a = s.subrange(n, n + 4);
        let b = t.subrange(n, n + 4);
        assert(a[k - n] != b[k - n]);
        assert(spec_u32_to_le_bytes(spec_u32_from_le_bytes(a)) == a);
        assert(spec_u32_to_le_bytes(spec_u32_from_le_bytes(b)) == b);
    }
}

} // verus!
