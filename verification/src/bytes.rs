//! Little-endian fields inside byte buffers.

use vstd::bytes::*;
use vstd::prelude::*;
use vstd::slice::slice_subrange;

verus! {

/// `s` with the bytes from `off` on replaced by `part`.
pub open spec fn splice(s: Seq<u8>, off: int, part: Seq<u8>) -> Seq<u8> {
    Seq::new(s.len(), |i: int| if off <= i < off + part.len() { part[i - off] } else { s[i] })
}

/// `n` zero bytes.
pub open spec fn zeros(n: nat) -> Seq<u8> {
    Seq::new(n, |i: int| 0u8)
}

pub open spec fn le16(v: u16) -> Seq<u8> {
    spec_u16_to_le_bytes(v)
}

pub open spec fn le32(v: u32) -> Seq<u8> {
    spec_u32_to_le_bytes(v)
}

pub open spec fn le64(v: u64) -> Seq<u8> {
    spec_u64_to_le_bytes(v)
}

pub open spec fn le_i64(v: i64) -> Seq<u8> {
    spec_u64_to_le_bytes(v as u64)
}

/// The `u16` stored at `off`.
pub open spec fn u16_at(s: Seq<u8>, off: int) -> u16 {
    spec_u16_from_le_bytes(s.subrange(off, off + 2))
}

/// The `u32` stored at `off`.
pub open spec fn u32_at(s: Seq<u8>, off: int) -> u32 {
    spec_u32_from_le_bytes(s.subrange(off, off + 4))
}

/// The `u64` stored at `off`.
pub open spec fn u64_at(s: Seq<u8>, off: int) -> u64 {
    spec_u64_from_le_bytes(s.subrange(off, off + 8))
}

/// The `i64` stored at `off`.
pub open spec fn i64_at(s: Seq<u8>, off: int) -> i64 {
    u64_at(s, off) as i64
}

/// Every little-endian field has its width, and reads back as the value that was written.
pub proof fn lemma_le()
    ensures
        forall|x: u16| (#[trigger] le16(x)).len() == 2 && spec_u16_from_le_bytes(le16(x)) == x,
        forall|x: u32| (#[trigger] le32(x)).len() == 4 && spec_u32_from_le_bytes(le32(x)) == x,
        forall|x: u64| (#[trigger] le64(x)).len() == 8 && spec_u64_from_le_bytes(le64(x)) == x,
        forall|x: i64|
            (#[trigger] le_i64(x)).len() == 8 && spec_u64_from_le_bytes(le_i64(x)) as i64 == x,
{
    lemma_auto_spec_u16_to_from_le_bytes();
    lemma_auto_spec_u32_to_from_le_bytes();
    lemma_auto_spec_u64_to_from_le_bytes();
    assert forall|x: i64|
        (#[trigger] le_i64(x)).len() == 8 && spec_u64_from_le_bytes(le_i64(x)) as i64 == x by {
        let y = x as u64;
        assert(spec_u64_to_le_bytes(y).len() == 8);
        assert(spec_u64_from_le_bytes(spec_u64_to_le_bytes(y)) == y);
        assert((x as u64) as i64 == x) by (bit_vector);
    }
}

/// A stretch inside the first part of a concatenation.
pub broadcast proof fn lemma_concat_front(s: Seq<u8>, x: Seq<u8>, a: int, b: int)
    requires
        0 <= a <= b <= s.len(),
    ensures
        #[trigger] (s + x).subrange(a, b) == s.subrange(a, b),
{
    assert((s + x).subrange(a, b) =~= s.subrange(a, b));
}

/// The second part of a concatenation.
pub broadcast proof fn lemma_concat_field(s: Seq<u8>, x: Seq<u8>, a: int, b: int)
    requires
        a == s.len(),
        b == s.len() + x.len(),
    ensures
        #[trigger] (s + x).subrange(a, b) == x,
{
    assert((s + x).subrange(a, b) =~= x);
}

/// `s`, filled up with zeros to length `n`.
pub open spec fn padded(s: Seq<u8>, n: nat) -> Seq<u8> {
    s + zeros((n - s.len()) as nat)
}

/// Fills `buf` up with zeros to length `n`.
pub fn pad_to(buf: &mut Vec<u8>, n: usize)
    requires
        old(buf)@.len() <= n,
    ensures
        final(buf)@ == padded(old(buf)@, n as nat),
{
    buf.resize(n, 0);
    assert(buf@ =~= padded(old(buf)@, n as nat));
}

/// Copies `src` into `buf` at `off`.
pub fn copy_into(buf: &mut [u8], off: usize, src: &[u8])
    requires
        off + src@.len() <= old(buf)@.len(),
    ensures
        final(buf)@ == splice(old(buf)@, off as int, src@),
{
    let n: usize = src.len();
    let total: usize = buf.len();
    let mut i: usize = 0;
    while i < n
        invariant
            i <= n,
            n == src@.len(),
            off + n <= total,
            total == buf@.len(),
            buf@.len() == old(buf)@.len(),
            buf@ =~= splice(old(buf)@, off as int, src@.subrange(0, i as int)),
        decreases n - i,
    {
        buf[off + i] = src[i];
        i = i + 1;
    }
    assert(src@.subrange(0, n as int) =~= src@);
}

/// A vector of `n` zero bytes.
pub fn zero_vec(n: usize) -> (v: Vec<u8>)
    ensures
        v@ == zeros(n as nat),
{
    let mut v: Vec<u8> = Vec::new();
    v.resize(n, 0);
    assert(v@ =~= zeros(n as nat));
    v
}

/// Appends `src` to `buf`.
pub fn append(buf: &mut Vec<u8>, src: &[u8])
    ensures
        final(buf)@ == old(buf)@ + src@,
{
    buf.extend_from_slice(src);
    assert(buf@ =~= old(buf)@ + src@);
}

/// A copy of `src`.
pub fn copy_bytes(src: &[u8]) -> (v: Vec<u8>)
    ensures
        v@ == src@,
{
    let mut v: Vec<u8> = Vec::new();
    v.extend_from_slice(src);
    assert(v@ =~= src@);
    v
}

/// Whether `a` and `b` hold the same bytes.
pub fn bytes_equal(a: &[u8], b: &[u8]) -> (r: bool)
    ensures
        r == (a@ == b@),
{
    if a.len() != b.len() {
        return false;
    }
    let n: usize = a.len();
    let mut i: usize = 0;
    while i < n
        invariant
            i <= n,
            n == a@.len(),
            n == b@.len(),
            forall|j: int| 0 <= j < i ==> a@[j] == b@[j],
        decreases n - i,
    {
        if a[i] != b[i] {
            assert(a@[i as int] != b@[i as int]);
            return false;
        }
        i = i + 1;
    }
    assert(a@ =~= b@);
    true
}

/// Whether every byte is zero.
pub fn all_zero(a: &[u8]) -> (r: bool)
    ensures
        r == (a@ == zeros(a@.len())),
{
    let n: usize = a.len();
    let mut i: usize = 0;
    while i < n
        invariant
            i <= n,
            n == a@.len(),
            forall|j: int| 0 <= j < i ==> a@[j] == 0,
        decreases n - i,
    {
        if a[i] != 0 {
            assert(a@[i as int] != zeros(a@.len())[i as int]);
            return false;
        }
        i = i + 1;
    }
    assert(a@ =~= zeros(a@.len()));
    true
}

pub fn put_u16(buf: &mut [u8], off: usize, v: u16)
    requires
        off + 2 <= old(buf)@.len(),
    ensures
        final(buf)@ == splice(old(buf)@, off as int, le16(v)),
{
    proof {
        lemma_le();
    }
    let b = u16_to_le_bytes(v);
    copy_into(buf, off, b.as_slice());
}

pub fn put_u32(buf: &mut [u8], off: usize, v: u32)
    requires
        off + 4 <= old(buf)@.len(),
    ensures
        final(buf)@ == splice(old(buf)@, off as int, le32(v)),
{
    proof {
        lemma_le();
    }
    let b = u32_to_le_bytes(v);
    copy_into(buf, off, b.as_slice());
}

pub fn put_u64(buf: &mut [u8], off: usize, v: u64)
    requires
        off + 8 <= old(buf)@.len(),
    ensures
        final(buf)@ == splice(old(buf)@, off as int, le64(v)),
{
    proof {
        lemma_le();
    }
    let b = u64_to_le_bytes(v);
    copy_into(buf, off, b.as_slice());
}

pub fn put_i64(buf: &mut [u8], off: usize, v: i64)
    requires
        off + 8 <= old(buf)@.len(),
    ensures
        final(buf)@ == splice(old(buf)@, off as int, le_i64(v)),
{
    proof {
        lemma_le();
    }
    let b = u64_to_le_bytes(v as u64);
    copy_into(buf, off, b.as_slice());
}

pub fn get_u16(buf: &[u8], off: usize) -> (v: u16)
    requires
        off + 2 <= buf@.len(),
    ensures
        v == u16_at(buf@, off as int),
{
    let len: usize = buf.len();
    assert(off + 2 <= len);
    u16_from_le_bytes(slice_subrange(buf, off, off + 2))
}

pub fn get_u32(buf: &[u8], off: usize) -> (v: u32)
    requires
        off + 4 <= buf@.len(),
    ensures
        v == u32_at(buf@, off as int),
{
    let len: usize = buf.len();
    assert(off + 4 <= len);
    u32_from_le_bytes(slice_subrange(buf, off, off + 4))
}

pub fn get_u64(buf: &[u8], off: usize) -> (v: u64)
    requires
        off + 8 <= buf@.len(),
    ensures
        v == u64_at(buf@, off as int),
{
    let len: usize = buf.len();
    assert(off + 8 <= len);
    u64_from_le_bytes(slice_subrange(buf, off, off + 8))
}

pub fn get_i64(buf: &[u8], off: usize) -> (v: i64)
    requires
        off + 8 <= buf@.len(),
    ensures
        v == i64_at(buf@, off as int),
{
    get_u64(buf, off) as i64
}

/// Appends a little-endian `u16`.
pub fn put_u16_vec(buf: &mut Vec<u8>, v: u16)
    ensures
        final(buf)@ == old(buf)@ + le16(v),
{
    let b = u16_to_le_bytes(v);
    append(buf, b.as_slice());
}

/// Appends a little-endian `u32`.
pub fn put_u32_vec(buf: &mut Vec<u8>, v: u32)
    ensures
        final(buf)@ == old(buf)@ + le32(v),
{
    let b = u32_to_le_bytes(v);
    append(buf, b.as_slice());
}

/// Appends a little-endian `u64`.
pub fn put_u64_vec(buf: &mut Vec<u8>, v: u64)
    ensures
        final(buf)@ == old(buf)@ + le64(v),
{
    let b = u64_to_le_bytes(v);
    append(buf, b.as_slice());
}

} // verus!
