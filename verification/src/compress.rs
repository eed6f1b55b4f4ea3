//! Record compression.
//!
//! File data is grouped into records (32 KiB by default). Each record is compressed
//! independently with LZ4. The compressed form is kept only when it saves at least one
//! filesystem block (4 KiB). Incompressible records are stored raw. All-zero records are left as
//! holes.

use vstd::prelude::*;

use crate::bytes::{
    append, bytes_equal, copy_bytes, get_u16, get_u32, le16, le32, lemma_concat_field,
    lemma_concat_front, lemma_le, pad_to, padded, put_u16_vec, put_u32_vec, u16_at, u32_at,
};
use crate::crc::{crc32, crc32_of};
use crate::error::{eio, Result, EIO};

verus! {

/// Compression algorithm for new writes. Existing records keep the algorithm stored in their
/// on-disk header, so changing this later does not rewrite data.
#[derive(Debug, Clone, Copy, PartialEq, Eq, Structural)]
pub enum Compression {
    /// Store records uncompressed (1:1 logical to physical).
    Off,
    /// LZ4.
    Lz4,
}

/// The algorithm with the number `v`; an unknown number means none.
pub open spec fn compression_of(v: u8) -> Compression {
    if v == 1 {
        Compression::Lz4
    } else {
        Compression::Off
    }
}

/// The number of an algorithm.
pub open spec fn compression_code(c: Compression) -> u8 {
    match c {
        Compression::Off => 0,
        Compression::Lz4 => 1,
    }
}

impl Compression {
    /// Compression switched on: LZ4.
    pub const ON: Self = Self::Lz4;

    pub fn from_u8(v: u8) -> (c: Self)
        ensures
            c == compression_of(v),
    {
        match v {
            1 => Self::Lz4,
            _ => Self::Off,
        }
    }

    pub fn as_u8(self) -> (v: u8)
        ensures
            v == compression_code(self),
    {
        match self {
            Self::Off => 0,
            Self::Lz4 => 1,
        }
    }

    pub fn is_off(self) -> (b: bool)
        ensures
            b == (self is Off),
    {
        matches!(self, Self::Off)
    }
}

impl Default for Compression {
    fn default() -> (c: Self)
        ensures
            c is Off,
    {
        Self::Off
    }
}

/// An algorithm is found again by its number.
pub proof fn compression_roundtrip(c: Compression)
    ensures
        compression_of(compression_code(c)) == c,
{
}

/// `LFC1`, the on-disk magic of a compressed record.
pub open spec fn header_magic() -> Seq<u8> {
    seq![76u8, 70, 67, 49]
}

/// The magic of a compressed record.
pub fn header_magic_bytes() -> (v: Vec<u8>)
    ensures
        v@ == header_magic(),
{
    let v = copy_bytes(&[76u8, 70, 67, 49]);
    assert(v@ =~= header_magic());
    v
}

pub const HEADER_SIZE: usize = 20;

/// Default record size: 8 blocks of 4 KiB.
pub const DEFAULT_RECORD_BLOCKS: u32 = 8;

/// Maximum record size: 32 blocks of 4 KiB.
pub const MAX_RECORD_BLOCKS: u32 = 32;

/// `n` clamped to 2..=32 and rounded up to a power of two.
pub open spec fn normal_record_blocks(n: u32) -> u32 {
    if n <= 2 {
        2
    } else if n <= 4 {
        4
    } else if n <= 8 {
        8
    } else if n <= 16 {
        16
    } else {
        32
    }
}

pub fn normalize_record_blocks(n: u32) -> (r: u32)
    ensures
        r == normal_record_blocks(n),
{
    let mut pow: u32 = 2;
    while pow < n && pow < MAX_RECORD_BLOCKS
        invariant
            pow == 2 || pow == 4 || pow == 8 || pow == 16 || pow == 32,
            pow == 2 || pow < 2 * n,
        decreases 32 - pow,
    {
        pow = pow * 2;
    }
    pow
}

#[derive(Debug, Clone, Copy, PartialEq, Eq, Structural)]
pub struct RecordHeader {
    pub algo: Compression,
    pub logical_blocks: u16,
    pub payload_len: u32,
    pub uncompressed_len: u32,
    pub crc: u32,
}

/// Blocks that `n` bytes fill.
pub open spec fn blocks_for(n: int) -> int {
    (n + 4095) / 4096
}

impl RecordHeader {
    /// Blocks that the header and its payload fill.
    pub open spec fn phys(self) -> int {
        blocks_for(HEADER_SIZE + self.payload_len)
    }

    /// What a header must satisfy to be recognised: it names an algorithm, spans a record at
    /// most, and saves space.
    pub open spec fn valid(self) -> bool {
        &&& self.algo is Lz4
        &&& 0 < self.logical_blocks <= MAX_RECORD_BLOCKS
        &&& 0 < self.uncompressed_len <= self.logical_blocks * 4096
        &&& 0 < self.payload_len < self.uncompressed_len
        &&& self.phys() <= self.logical_blocks
    }

    /// The header as it stands on disk.
    pub open spec fn bytes(self) -> Seq<u8> {
        header_magic() + seq![compression_code(self.algo), 0u8] + le16(self.logical_blocks) + le32(
            self.payload_len,
        ) + le32(self.uncompressed_len) + le32(self.crc)
    }

    pub fn phys_blocks(&self) -> (n: u32)
        requires
            self.payload_len <= u32::MAX - HEADER_SIZE,
        ensures
            n == self.phys(),
    {
        let total: u32 = HEADER_SIZE as u32 + self.payload_len;
        total / 4096 + if total % 4096 == 0 {
            0u32
        } else {
            1u32
        }
    }

    pub fn encode(&self) -> (buf: Vec<u8>)
        ensures
            buf@ == self.bytes(),
            buf@.len() == HEADER_SIZE,
    {
        proof {
            lemma_le();
        }
        let mut buf: Vec<u8> = Vec::new();
        append(&mut buf, header_magic_bytes().as_slice());
        assert(buf@ =~= header_magic());
        append(&mut buf, &[self.algo.as_u8(), 0u8]);
        assert(buf@ =~= header_magic() + seq![compression_code(self.algo), 0u8]);
        put_u16_vec(&mut buf, self.logical_blocks);
        put_u32_vec(&mut buf, self.payload_len);
        put_u32_vec(&mut buf, self.uncompressed_len);
        put_u32_vec(&mut buf, self.crc);
        buf
    }

    /// Parses a header from the start of a physical block. Returns `None` if the bytes are not a
    /// valid compressed-record header (also where file data happens to begin with `LFC1`).
    pub fn parse(block: &[u8]) -> (h: Option<Self>)
        ensures
            h == parsed_header(block@),
    {
        if block.len() < HEADER_SIZE {
            return None;
        }
        let magic: &[u8] = &[76u8, 70, 67, 49];
        assert(magic@ =~= header_magic());
        if !bytes_equal(vstd::slice::slice_subrange(block, 0, 4), magic) {
            return None;
        }
        if block[4] != 1 {
            return None;
        }
        let logical_blocks = get_u16(block, 6);
        let payload_len = get_u32(block, 8);
        let uncompressed_len = get_u32(block, 12);
        let crc = get_u32(block, 16);
        if logical_blocks == 0 || logical_blocks as u32 > MAX_RECORD_BLOCKS {
            return None;
        }
        if uncompressed_len == 0 || uncompressed_len as u64 > logical_blocks as u64 * 4096 {
            return None;
        }
        if payload_len == 0 || payload_len >= uncompressed_len {
            return None;
        }
        let h = Self {
            algo: Compression::Lz4,
            logical_blocks,
            payload_len,
            uncompressed_len,
            crc,
        };
        if h.phys_blocks() > logical_blocks as u32 {
            return None;
        }
        Some(h)
    }
}

/// The fields that stand where a header has them.
pub open spec fn header_fields(block: Seq<u8>) -> RecordHeader {
    RecordHeader {
        algo: compression_of(block[4]),
        logical_blocks: u16_at(block, 6),
        payload_len: u32_at(block, 8),
        uncompressed_len: u32_at(block, 12),
        crc: u32_at(block, 16),
    }
}

/// The header that a block starts with, if it starts with one.
pub open spec fn parsed_header(block: Seq<u8>) -> Option<RecordHeader> {
    if block.len() >= HEADER_SIZE && block.subrange(0, 4) == header_magic() && header_fields(
        block,
    ).valid() {
        Some(header_fields(block))
    } else {
        None
    }
}

/// A valid header is read back from the bytes it is written as, whatever follows them.
pub proof fn header_roundtrip(h: RecordHeader, rest: Seq<u8>)
    requires
        h.valid(),
    ensures
        parsed_header(h.bytes() + rest) == Some(h),
{
    broadcast use {lemma_concat_front, lemma_concat_field};

    lemma_le();
    let b = h.bytes() + rest;
    assert(h.bytes().len() == HEADER_SIZE);
    assert(b.subrange(0, 4) =~= header_magic());
    assert(b[4] == 1);
    assert(b.subrange(6, 8) == le16(h.logical_blocks));
    assert(b.subrange(8, 12) == le32(h.payload_len));
    assert(b.subrange(12, 16) == le32(h.uncompressed_len));
    assert(b.subrange(16, 20) == le32(h.crc));
}

/// What `lz4_flex::block::decompress` returns for the block `src` and room for `len` bytes, or
/// `None` where it reports an error.
pub uninterp spec fn lz4_decompressed(src: Seq<u8>, len: nat) -> Option<Seq<u8>>;

/// `lz4_flex::block::DecompressError`: why a block could not be decompressed.
#[verifier::external_type_specification]
#[verifier::external_body]
pub struct ExDecompressError(lz4_flex::block::DecompressError);

/// A compressed form of `src`: decompressing it into the room that `src` takes gives `src` back.
pub open spec fn packs(compressed: Seq<u8>, src: Seq<u8>) -> bool {
    compressed.len() >= 1 && lz4_decompressed(compressed, src.len()) == Some(src)
}

/// `lz4_flex::block::compress`: a block holds one token at least, and decompressing it into the
/// room that the input took gives the input back. Which of the blocks that do so it is depends on
/// the word size of the machine, and is not claimed. The bound on the input keeps the crate's
/// estimate of the output size within `usize`.
#[verifier::external_body]
fn lz4_compress(src: &[u8]) -> (out: Vec<u8>)
    requires
        src@.len() <= 0x200_0000,
    ensures
        packs(out@, src@),
{
    lz4_flex::block::compress(src)
}

/// `lz4_flex::block::decompress`: the result is named by `lz4_decompressed`. The bounds keep the
/// crate's length counters and its output buffer within range.
#[verifier::external_body]
fn lz4_decompress(src: &[u8], uncompressed_len: usize) -> (out: std::result::Result<
    Vec<u8>,
    lz4_flex::block::DecompressError,
>)
    requires
        src@.len() <= 0x100_0000,
        uncompressed_len <= 0x7fff_ffff,
    ensures
        match out {
            Ok(v) => lz4_decompressed(src@, uncompressed_len as nat) == Some(v@),
            Err(_) => lz4_decompressed(src@, uncompressed_len as nat) is None,
        },
{
    lz4_flex::block::decompress(src, uncompressed_len)
}

/// The text of a decompression error; nothing is claimed of it.
#[verifier::external_body]
fn lz4_error_text(e: &lz4_flex::block::DecompressError) -> (s: String) {
    format!("lz4 decompress: {e}")
}

/// Whether a payload saves a block over the raw record.
pub open spec fn saves_block(uncompressed: int, compressed: int) -> bool {
    HEADER_SIZE + compressed + 4096 <= uncompressed
}

/// How a record is stored, given the compressed form of it: `(Lz4, payload)` where that saves a
/// block, else `(Off, empty)`.
pub open spec fn chosen_form(algo: Compression, src: Seq<u8>, compressed: Seq<u8>) -> (
    Compression,
    Seq<u8>,
) {
    if algo is Lz4 && src.len() >= 8192 && saves_block(src.len() as int, compressed.len() as int) {
        (Compression::Lz4, compressed)
    } else {
        (Compression::Off, Seq::empty())
    }
}

/// Compresses `src` with `algo`. Returns `(Off, empty)` when the result would not save at least
/// one 4 KiB block (the caller stores the record raw). The compressed form is one of those that
/// decompress to `src`.
pub fn try_compress(algo: Compression, src: &[u8]) -> (r: (Compression, Vec<u8>))
    requires
        src@.len() <= 0x200_0000,
    ensures
        algo is Off || src@.len() < 8192 ==> r.0 is Off && r.1@.len() == 0,
        algo is Lz4 && src@.len() >= 8192 ==> exists|c: Seq<u8>| #[trigger]
            packs(c, src@) && (r.0, r.1@) == chosen_form(algo, src@, c),
{
    if algo.is_off() || src.len() < 8192 {
        return (Compression::Off, Vec::new());
    }
    let compressed = lz4_compress(src);
    assert(packs(compressed@, src@));
    choose_form(algo, src, compressed)
}

/// Keeps the compressed form `compressed` of `src` where it saves a block.
pub fn choose_form(algo: Compression, src: &[u8], compressed: Vec<u8>) -> (r: (
    Compression,
    Vec<u8>,
))
    ensures
        (r.0, r.1@) == chosen_form(algo, src@, compressed@),
        r.0 is Lz4 ==> r.1@ == compressed@,
{
    if algo.is_off() || src.len() < 8192 || !saves_a_block(src.len(), compressed.len()) {
        (Compression::Off, Vec::new())
    } else {
        (Compression::Lz4, compressed)
    }
}

fn saves_a_block(uncompressed: usize, compressed: usize) -> (b: bool)
    ensures
        b == saves_block(uncompressed as int, compressed as int),
{
    uncompressed >= HEADER_SIZE + 4096 && compressed <= uncompressed - (HEADER_SIZE + 4096)
}

/// The bytes that a stored payload stands for, or `None` where it is corrupt.
pub open spec fn unpacked(algo: Compression, src: Seq<u8>, len: nat) -> Option<Seq<u8>> {
    match algo {
        Compression::Off => Some(
            if src.len() >= len {
                src.take(len as int)
            } else {
                padded(src, len)
            },
        ),
        Compression::Lz4 => lz4_decompressed(src, len),
    }
}

pub fn decompress(algo: Compression, src: &[u8], uncompressed_len: usize) -> (r: Result<Vec<u8>>)
    requires
        algo is Lz4 ==> src@.len() <= 0x100_0000 && uncompressed_len <= 0x7fff_ffff,
    ensures
        match r {
            Ok(v) => unpacked(algo, src@, uncompressed_len as nat) == Some(v@),
            Err(e) => unpacked(algo, src@, uncompressed_len as nat) is None && e.is(EIO),
        },
{
    match algo {
        Compression::Off => {
            let mut v: Vec<u8> = copy_bytes(src);
            if v.len() >= uncompressed_len {
                v.truncate(uncompressed_len);
                assert(v@ =~= src@.take(uncompressed_len as int));
            } else {
                pad_to(&mut v, uncompressed_len);
            }
            Ok(v)
        },
        Compression::Lz4 => match lz4_decompress(src, uncompressed_len) {
            Ok(v) => Ok(v),
            Err(e) => Err(eio(lz4_error_text(&e).as_str())),
        },
    }
}

pub fn payload_crc(payload: &[u8]) -> (c: u32)
    ensures
        c == crc32_of(payload@),
{
    crc32(payload)
}

/// What `try_compress` made of a record is unpacked to the record again.
pub proof fn compress_roundtrip(algo: Compression, src: Seq<u8>, compressed: Seq<u8>)
    requires
        lz4_decompressed(compressed, src.len()) == Some(src),
    ensures
        chosen_form(algo, src, compressed).0 is Lz4 ==> unpacked(
            Compression::Lz4,
            chosen_form(algo, src, compressed).1,
            src.len(),
        ) == Some(src),
{
}

} // verus!
