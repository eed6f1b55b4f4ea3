//! Directory contents: a list of entries in the `DIR1` format.

use vstd::prelude::*;

use crate::bytes::{
    append, bytes_equal, copy_bytes, get_u16, get_u32, get_u64, le16, le32, le64,
    lemma_concat_field, lemma_concat_front, lemma_le, put_u16_vec, put_u32_vec, put_u64_vec, u16_at,
    u32_at, u64_at, zeros,
};
use crate::error::{eio, Result, EIO};
use crate::path::UnixPathBuf;
use crate::text::{lossy_text, utf8_lossy};
use crate::types::FileType;

verus! {

/// A directory entry, as the contracts see it.
pub ghost struct DirItem {
    pub ino: u64,
    pub file_type: FileType,
    pub name: Seq<u8>,
}

#[derive(Debug, Clone)]
pub struct DirEntry {
    pub ino: u64,
    pub file_type: FileType,
    pub name: Vec<u8>,
}

impl View for DirEntry {
    type V = DirItem;

    open spec fn view(&self) -> DirItem {
        DirItem { ino: self.ino, file_type: self.file_type, name: self.name@ }
    }
}

impl DirEntry {
    pub fn file_name(&self) -> (n: &[u8])
        ensures
            n@ == self@.name,
    {
        self.name.as_slice()
    }

    /// The name as text; what is not UTF-8 is replaced.
    pub fn file_name_str(&self) -> (s: String)
        ensures
            s@ == lossy_text(self@.name),
    {
        utf8_lossy(self.name.as_slice())
    }

    pub fn path_name(&self) -> (p: UnixPathBuf)
        ensures
            p@ == self@.name,
    {
        UnixPathBuf::from_bytes(copy_bytes(self.name.as_slice()))
    }
}

/// The entries of a list, as the contracts see them.
pub open spec fn items(s: Seq<DirEntry>) -> Seq<DirItem> {
    Seq::new(s.len(), |i: int| s[i]@)
}

/// The number of a file type in a directory.
pub open spec fn type_code(ft: FileType) -> u8 {
    match ft {
        FileType::File => 1,
        FileType::Directory => 2,
        FileType::CharDevice => 3,
        FileType::BlockDevice => 4,
        FileType::Fifo => 5,
        FileType::Socket => 6,
        FileType::Symlink => 7,
    }
}

/// The file type with the number `v` in a directory.
pub open spec fn coded_type(v: u8) -> FileType {
    if v == 2 {
        FileType::Directory
    } else if v == 3 {
        FileType::CharDevice
    } else if v == 4 {
        FileType::BlockDevice
    } else if v == 5 {
        FileType::Fifo
    } else if v == 6 {
        FileType::Socket
    } else if v == 7 {
        FileType::Symlink
    } else {
        FileType::File
    }
}

fn dir_ft(ft: FileType) -> (v: u8)
    ensures
        v == type_code(ft),
{
    match ft {
        FileType::File => 1,
        FileType::Directory => 2,
        FileType::CharDevice => 3,
        FileType::BlockDevice => 4,
        FileType::Fifo => 5,
        FileType::Socket => 6,
        FileType::Symlink => 7,
    }
}

fn from_dir_ft(v: u8) -> (ft: FileType)
    ensures
        ft == coded_type(v),
{
    match v {
        2 => FileType::Directory,
        3 => FileType::CharDevice,
        4 => FileType::BlockDevice,
        5 => FileType::Fifo,
        6 => FileType::Socket,
        7 => FileType::Symlink,
        _ => FileType::File,
    }
}

/// `DIR1`
pub open spec fn dir_magic() -> Seq<u8> {
    seq![68u8, 73, 82, 49]
}

/// Zeros that follow a name of length `n`.
pub open spec fn name_pad(n: nat) -> nat {
    ((4 - n as int % 4) % 4) as nat
}

/// An entry on disk.
pub open spec fn item_bytes(e: DirItem) -> Seq<u8> {
    le64(e.ino) + le16(e.name.len() as u16) + seq![type_code(e.file_type), 0u8] + e.name + zeros(
        name_pad(e.name.len()),
    )
}

/// Entries on disk, one after the other.
pub open spec fn items_bytes(es: Seq<DirItem>) -> Seq<u8>
    decreases es.len(),
{
    if es.len() == 0 {
        Seq::empty()
    } else {
        items_bytes(es.drop_last()) + item_bytes(es.last())
    }
}

/// The contents of a directory with these entries.
pub open spec fn dir_bytes(es: Seq<DirItem>) -> Seq<u8> {
    dir_magic() + le32(es.len() as u32) + items_bytes(es)
}

/// The `n` entries that stand one after the other from `off` on, or `None` where `s` ends too
/// early.
pub open spec fn items_at(s: Seq<u8>, off: int, n: nat) -> Option<Seq<DirItem>>
    decreases n,
{
    if n == 0 {
        Some(Seq::empty())
    } else if off + 12 > s.len() {
        None
    } else {
        let len = u16_at(s, off + 8) as nat;
        if off + 12 + len > s.len() {
            None
        } else {
            let e = DirItem {
                ino: u64_at(s, off),
                file_type: coded_type(s[off + 10]),
                name: s.subrange(off + 12, off + 12 + len),
            };
            match items_at(s, off + 12 + len + name_pad(len), (n - 1) as nat) {
                None => None,
                Some(rest) => Some(seq![e] + rest),
            }
        }
    }
}

/// The entries that the contents of a directory hold, or `None` where they are corrupt.
pub open spec fn parsed_dir(s: Seq<u8>) -> Option<Seq<DirItem>> {
    if s.len() == 0 {
        Some(Seq::empty())
    } else if s.len() < 8 || s.subrange(0, 4) != dir_magic() {
        None
    } else {
        items_at(s, 8, u32_at(s, 4) as nat)
    }
}

pub fn encode_dir(entries: &[DirEntry]) -> (buf: Vec<u8>)
    ensures
        buf@ == dir_bytes(items(entries@)),
{
    let mut buf: Vec<u8> = copy_bytes(&[68u8, 73, 82, 49]);
    assert(buf@ =~= dir_magic());
    let n: usize = entries.len();
    put_u32_vec(&mut buf, n as u32);
    let ghost head = buf@;
    let mut i: usize = 0;
    assert(items(entries@.take(0)) =~= Seq::<DirItem>::empty());
    assert(buf@ =~= head + items_bytes(items(entries@.take(0))));
    while i < n
        invariant
            i <= n,
            n == entries@.len(),
            buf@ == head + items_bytes(items(entries@.take(i as int))),
        decreases n - i,
    {
        let ghost before = buf@;
        let e = &entries[i];
        let len: usize = e.name.len();
        put_u64_vec(&mut buf, e.ino);
        put_u16_vec(&mut buf, len as u16);
        let ghost mid = buf@;
        append(&mut buf, &[dir_ft(e.file_type), 0u8]);
        assert(buf@ =~= mid + seq![type_code(e.file_type), 0u8]);
        append(&mut buf, e.name.as_slice());
        let pad: usize = (4 - len % 4) % 4;
        append(&mut buf, crate::bytes::zero_vec(pad).as_slice());
        assert(buf@ =~= before + item_bytes(e@));
        assert(items(entries@.take(i + 1)).drop_last() =~= items(entries@.take(i as int)));
        assert(items(entries@.take(i + 1)).last() == e@);
        assert(buf@ =~= head + items_bytes(items(entries@.take(i + 1))));
        i = i + 1;
    }
    assert(entries@.take(n as int) =~= entries@);
    buf
}

pub fn decode_dir(buf: &[u8]) -> (r: Result<Vec<DirEntry>>)
    ensures
        match r {
            Ok(v) => parsed_dir(buf@) == Some(items(v@)),
            Err(e) => parsed_dir(buf@) is None && e.is(EIO),
        },
{
    let mut out: Vec<DirEntry> = Vec::new();
    let total: usize = buf.len();
    if total == 0 {
        assert(items(out@) =~= Seq::<DirItem>::empty());
        return Ok(out);
    }
    let magic: &[u8] = &[68u8, 73, 82, 49];
    assert(magic@ =~= dir_magic());
    if total < 8 || !bytes_equal(vstd::slice::slice_subrange(buf, 0, 4), magic) {
        return Err(eio("corrupt directory"));
    }
    let n: u32 = get_u32(buf, 4);
    let mut off: usize = 8;
    let mut i: u32 = 0;
    let ghost whole = items_at(buf@, 8, n as nat);
    proof {
        assert(items(out@) =~= Seq::<DirItem>::empty());
        if items_at(buf@, 8, n as nat) is Some {
            assert(items(out@) + items_at(buf@, 8, n as nat)->0 =~= items_at(
                buf@,
                8,
                n as nat,
            )->0);
        }
    }
    while i < n
        invariant
            i <= n,
            total == buf@.len(),
            off <= total,
            parsed_dir(buf@) == whole,
            whole == match items_at(buf@, off as int, (n - i) as nat) {
                None => None,
                Some(rest) => Some(items(out@) + rest),
            },
        decreases n - i,
    {
        if total - off < 12 {
            return Err(eio("corrupt directory entry"));
        }
        let ino = get_u64(buf, off);
        let nlen: usize = get_u16(buf, off + 8) as usize;
        let file_type = from_dir_ft(buf[off + 10]);
        let start: usize = off + 12;
        if total - start < nlen {
            return Err(eio("corrupt directory name"));
        }
        let name = copy_bytes(vstd::slice::slice_subrange(buf, start, start + nlen));
        let end: usize = start + nlen;
        let pad: usize = (4 - nlen % 4) % 4;
        let ghost before = items(out@);
        let ghost next = items_at(
            buf@,
            off + 12 + nlen + name_pad(nlen as nat),
            (n - i - 1) as nat,
        );
        out.push(DirEntry { ino, file_type, name });
        assert(items(out@) =~= before.push(out@.last()@));
        proof {
            if next is Some {
                assert(before + (seq![out@.last()@] + next->0) =~= items(out@) + next->0);
            }
        }
        i = i + 1;
        if total - end < pad {
            if i < n {
                return Err(eio("corrupt directory entry"));
            }
            off = total;
        } else {
            off = end + pad;
        }
    }
    assert(items(out@) + Seq::<DirItem>::empty() =~= items(out@));
    Ok(out)
}

proof fn lemma_items_bytes_first(es: Seq<DirItem>)
    requires
        es.len() > 0,
    ensures
        items_bytes(es) == item_bytes(es[0]) + items_bytes(es.drop_first()),
    decreases es.len(),
{
    if es.len() == 1 {
        assert(es.drop_last() =~= Seq::<DirItem>::empty());
        assert(es.drop_first() =~= Seq::<DirItem>::empty());
        assert(items_bytes(es) =~= item_bytes(es[0]) + items_bytes(es.drop_first()));
    } else {
        lemma_items_bytes_first(es.drop_last());
        assert(es.drop_last().drop_first() =~= es.drop_first().drop_last());
        assert(items_bytes(es) =~= item_bytes(es[0]) + items_bytes(es.drop_first()));
    }
}

proof fn lemma_item_fields(e: DirItem)
    requires
        e.name.len() <= 0xffff,
    ensures
        ({
            let b = item_bytes(e);
            let n = e.name.len() as int;
            &&& b.len() == 12 + n + name_pad(n as nat)
            &&& u64_at(b, 0) == e.ino
            &&& u16_at(b, 8) == n
            &&& coded_type(b[10]) == e.file_type
            &&& b.subrange(12, 12 + n) == e.name
        }),
{
    broadcast use {lemma_concat_front, lemma_concat_field};

    lemma_le();
    let b = item_bytes(e);
    let n = e.name.len() as int;
    assert(b.subrange(0, 8) == le64(e.ino)) by {
        assert(le64(e.ino).subrange(0, 8) =~= le64(e.ino));
    }
    assert(b.subrange(8, 10) == le16(e.name.len() as u16));
    assert(b.subrange(10, 12) == seq![type_code(e.file_type), 0u8]);
    assert(b.subrange(10, 12)[0] == b[10]);
    assert(b.subrange(12, 12 + n) == e.name);
}

proof fn lemma_items_at(s: Seq<u8>, off: int, es: Seq<DirItem>)
    requires
        0 <= off <= s.len(),
        s.skip(off) == items_bytes(es),
        forall|i: int| 0 <= i < es.len() ==> (#[trigger] es[i]).name.len() <= 0xffff,
    ensures
        items_at(s, off, es.len()) == Some(es),
    decreases es.len(),
{
    if es.len() == 0 {
        assert(es =~= Seq::<DirItem>::empty());
    } else {
        let e = es[0];
        let n = e.name.len();
        lemma_items_bytes_first(es);
        lemma_item_fields(e);
        let b = item_bytes(e);
        let t = s.skip(off);
        assert(t.len() == s.len() - off);
        assert(s.subrange(off, off + 8) =~= t.subrange(0, 8));
        assert(t.subrange(0, 8) =~= b.subrange(0, 8));
        assert(s.subrange(off + 8, off + 10) =~= t.subrange(8, 10));
        assert(t.subrange(8, 10) =~= b.subrange(8, 10));
        assert(s[off + 10] == t[10] && t[10] == b[10]);
        assert(s.subrange(off + 12, off + 12 + n) =~= t.subrange(12, 12 + n as int));
        assert(t.subrange(12, 12 + n as int) =~= b.subrange(12, 12 + n as int));
        assert(s.skip(off + b.len()) =~= items_bytes(es.drop_first())) by {
            assert(s.skip(off + b.len()) =~= t.skip(b.len() as int));
        }
        assert forall|i: int| 0 <= i < es.drop_first().len() implies (
        #[trigger] es.drop_first()[i]).name.len() <= 0xffff by {
            assert(es.drop_first()[i] == es[i + 1]);
        }
        lemma_items_at(s, off + b.len(), es.drop_first());
        assert(seq![e] + es.drop_first() =~= es);
    }
}

/// A directory is read back from the contents it is written as.
pub proof fn dir_roundtrip(es: Seq<DirItem>)
    requires
        es.len() <= u32::MAX,
        forall|i: int| 0 <= i < es.len() ==> (#[trigger] es[i]).name.len() <= 0xffff,
    ensures
        parsed_dir(dir_bytes(es)) == Some(es),
{
    broadcast use {lemma_concat_front, lemma_concat_field};

    lemma_le();
    let s = dir_bytes(es);
    assert(s.subrange(0, 4) == dir_magic()) by {
        assert(dir_magic().subrange(0, 4) =~= dir_magic());
    }
    assert(s.subrange(4, 8) == le32(es.len() as u32));
    assert(s.skip(8) =~= items_bytes(es));
    lemma_items_at(s, 8, es);
}

/// The names in a directory are as long as their length fields can say.
pub proof fn lemma_parsed_names(s: Seq<u8>)
    ensures
        parsed_dir(s) matches Some(es) ==> forall|i: int|
            0 <= i < es.len() ==> (#[trigger] es[i]).name.len() <= 0xffff,
{
    if s.len() >= 8 {
        lemma_names_at(s, 8, u32_at(s, 4) as nat);
    }
}

proof fn lemma_names_at(s: Seq<u8>, off: int, n: nat)
    requires
        off >= 0,
    ensures
        items_at(s, off, n) matches Some(es) ==> forall|i: int|
            0 <= i < es.len() ==> (#[trigger] es[i]).name.len() <= 0xffff,
    decreases n,
{
    if n > 0 {
        let len = u16_at(s, off + 8) as nat;
        let next = off + 12 + len + name_pad(len);
        lemma_names_at(s, next, (n - 1) as nat);
    }
}

} // verus!
