//! Inodes: the in-memory form and the 256-byte disk image.

use vstd::prelude::*;

use crate::bytes::{
    append, copy_bytes, get_i64, get_u16, get_u32, get_u64, i64_at, le16, le32, le64, le_i64,
    lemma_concat_field, lemma_concat_front, lemma_le, pad_to, padded, put_u16_vec, put_u32_vec,
    put_u64_vec, u16_at, u32_at, u64_at, zeros,
};
use crate::crc::{changed_byte_is_noticed, crc32, crc32_of};
use crate::error::{eio, Result, EIO};
use crate::format::{
    extents_at, extents_bytes, get_extents, lemma_extents_at, lemma_extents_bytes_len, put_extents,
    stored_extents, Extent, FLAG_COMPRESSED, INLINE_MAX, INODE_SIZE, MAX_DIRECT_EXTENTS,
};
use crate::types::{type_of_mode, FileType, Timespec};

verus! {

#[derive(Debug, Clone, Copy, PartialEq, Eq, Structural)]
pub enum DataKind {
    Inline,
    Extents,
    ExtentTree,
}

/// The kind with the number `v`.
pub open spec fn kind_of(v: u8) -> DataKind {
    if v == 1 {
        DataKind::Extents
    } else if v == 2 {
        DataKind::ExtentTree
    } else {
        DataKind::Inline
    }
}

/// The number of a kind.
pub open spec fn kind_code(k: DataKind) -> u8 {
    match k {
        DataKind::Inline => 0,
        DataKind::Extents => 1,
        DataKind::ExtentTree => 2,
    }
}

impl DataKind {
    pub fn from_u8(v: u8) -> (k: Self)
        ensures
            k == kind_of(v),
    {
        match v {
            1 => Self::Extents,
            2 => Self::ExtentTree,
            _ => Self::Inline,
        }
    }

    pub fn as_u8(self) -> (v: u8)
        ensures
            v == kind_code(self),
    {
        match self {
            Self::Inline => 0,
            Self::Extents => 1,
            Self::ExtentTree => 2,
        }
    }
}

/// Extended attributes: names and values, in the order in which they were set.
pub type Xattrs = Vec<(Vec<u8>, Vec<u8>)>;

/// In-memory inode (256-byte on-disk image).
#[derive(Debug, Clone)]
pub struct Inode {
    pub ino: u64,
    pub mode: u16,
    pub nlink: u32,
    pub uid: u32,
    pub gid: u32,
    pub size: u64,
    pub blocks: u64,
    pub atime: Timespec,
    pub mtime: Timespec,
    pub ctime: Timespec,
    pub btime: Timespec,
    pub rdev: u64,
    pub flags: u32,
    pub generation: u32,
    pub data_kind: DataKind,
    /// Algorithm used for new extent-backed writes (`Compression` as a number).
    pub compression: u8,
    pub inline_data: Vec<u8>,
    pub extents: Vec<Extent>,
    pub extent_tree: u64,
    /// Number of blocks in the extent-tree allocation (in-memory; stored in the tree header).
    pub extent_tree_blocks: u64,
    pub xattr_block: u64,
    pub xattr: Xattrs,
}

/// The part of an inode that its 256 bytes hold.
pub ghost struct InodeView {
    pub mode: u16,
    pub nlink: u32,
    pub uid: u32,
    pub gid: u32,
    pub size: u64,
    pub blocks: u64,
    pub atime: Timespec,
    pub mtime: Timespec,
    pub ctime: Timespec,
    pub btime: Timespec,
    pub rdev: u64,
    pub flags: u32,
    pub generation: u32,
    pub data_kind: DataKind,
    pub compression: u8,
    pub inline_data: Seq<u8>,
    pub extents: Seq<Extent>,
    pub extent_tree: u64,
    pub xattr_block: u64,
}

impl View for Inode {
    type V = InodeView;

    open spec fn view(&self) -> InodeView {
        InodeView {
            mode: self.mode,
            nlink: self.nlink,
            uid: self.uid,
            gid: self.gid,
            size: self.size,
            blocks: self.blocks,
            atime: self.atime,
            mtime: self.mtime,
            ctime: self.ctime,
            btime: self.btime,
            rdev: self.rdev,
            flags: self.flags,
            generation: self.generation,
            data_kind: self.data_kind,
            compression: self.compression,
            inline_data: self.inline_data@,
            extents: self.extents@,
            extent_tree: self.extent_tree,
            xattr_block: self.xattr_block,
        }
    }
}

/// The first `n` elements, or all where there are fewer.
pub open spec fn at_most<A>(s: Seq<A>, n: int) -> Seq<A> {
    if s.len() <= n {
        s
    } else {
        s.take(n)
    }
}

impl InodeView {
    /// The inline data that fits.
    pub open spec fn kept_inline(self) -> Seq<u8> {
        at_most(self.inline_data, INLINE_MAX as int)
    }

    /// The extents that fit.
    pub open spec fn kept_extents(self) -> Seq<Extent> {
        at_most(self.extents, MAX_DIRECT_EXTENTS as int)
    }

    /// The fields before the data, in the order of the disk.
    pub open spec fn head_bytes(self) -> Seq<u8> {
        le16(self.mode) + le32(self.nlink) + le32(self.uid) + le32(self.gid) + le64(self.size)
            + le64(self.blocks) + le_i64(self.atime.sec) + le32(self.atime.nsec) + le_i64(
            self.mtime.sec,
        ) + le32(self.mtime.nsec) + le_i64(self.ctime.sec) + le32(self.ctime.nsec) + le_i64(
            self.btime.sec,
        ) + le32(self.btime.nsec) + le64(self.rdev) + le32(self.flags) + le32(self.generation)
            + seq![kind_code(self.data_kind), self.compression] + le64(self.extent_tree)
    }

    /// Inline data or extents, behind their number.
    pub open spec fn data_bytes(self) -> Seq<u8> {
        if self.data_kind is Inline {
            le16(self.kept_inline().len() as u16) + self.kept_inline()
        } else {
            le16(self.kept_extents().len() as u16) + extents_bytes(self.kept_extents())
        }
    }

    /// The inode without its checksum.
    pub open spec fn body_bytes(self) -> Seq<u8> {
        padded(self.head_bytes() + self.data_bytes(), 240) + le64(self.xattr_block) + zeros(4)
    }

    /// The inode as it stands on disk.
    pub open spec fn bytes(self) -> Seq<u8> {
        self.body_bytes() + le32(crc32_of(self.body_bytes()))
    }

    /// What the disk keeps of the inode.
    pub open spec fn stored(self) -> InodeView {
        InodeView {
            inline_data: if self.data_kind is Inline {
                self.kept_inline()
            } else {
                Seq::empty()
            },
            extents: if self.data_kind is Inline {
                Seq::empty()
            } else {
                stored_extents(self.kept_extents())
            },
            ..self
        }
    }
}

/// `n`, or `max` where it is larger.
pub open spec fn capped(n: u16, max: int) -> nat {
    if n <= max {
        n as nat
    } else {
        max as nat
    }
}

/// The fields that stand where an inode has them.
pub open spec fn inode_fields(s: Seq<u8>) -> InodeView {
    let kind = kind_of(s[94]);
    InodeView {
        mode: u16_at(s, 0),
        nlink: u32_at(s, 2),
        uid: u32_at(s, 6),
        gid: u32_at(s, 10),
        size: u64_at(s, 14),
        blocks: u64_at(s, 22),
        atime: Timespec { sec: i64_at(s, 30), nsec: u32_at(s, 38) },
        mtime: Timespec { sec: i64_at(s, 42), nsec: u32_at(s, 50) },
        ctime: Timespec { sec: i64_at(s, 54), nsec: u32_at(s, 62) },
        btime: Timespec { sec: i64_at(s, 66), nsec: u32_at(s, 74) },
        rdev: u64_at(s, 78),
        flags: u32_at(s, 86),
        generation: u32_at(s, 90),
        data_kind: kind,
        compression: s[95],
        inline_data: if kind is Inline {
            s.subrange(106, 106 + capped(u16_at(s, 104), INLINE_MAX as int) as int)
        } else {
            Seq::empty()
        },
        extents: if kind is Inline {
            Seq::empty()
        } else {
            extents_at(s, 106, capped(u16_at(s, 104), MAX_DIRECT_EXTENTS as int))
        },
        extent_tree: u64_at(s, 96),
        xattr_block: u64_at(s, 240),
    }
}

/// The inode in `s`, where its checksum is right and it is in use.
pub open spec fn parsed_inode(s: Seq<u8>) -> Option<InodeView> {
    if s.len() >= INODE_SIZE && u32_at(s, 252) == crc32_of(s.subrange(0, 252)) && u16_at(s, 0)
        != 0 {
        Some(inode_fields(s))
    } else {
        None
    }
}

impl Inode {
    /// A new, empty inode with all its time stamps at `now`.
    pub fn new_at(ino: u64, mode: u16, uid: u32, gid: u32, now: Timespec) -> (i: Self)
        ensures
            i.ino == ino,
            i.mode == mode,
            i.nlink == 1,
            i.uid == uid,
            i.gid == gid,
            i.size == 0,
            i.blocks == 0,
            i.atime == now,
            i.mtime == now,
            i.ctime == now,
            i.btime == now,
            i.rdev == 0,
            i.flags == 0,
            i.generation == 1,
            i.data_kind is Inline,
            i.compression == 0,
            i.inline_data@ == Seq::<u8>::empty(),
            i.extents@ == Seq::<Extent>::empty(),
            i.extent_tree == 0,
            i.extent_tree_blocks == 0,
            i.xattr_block == 0,
            i.xattr@ == Seq::<(Vec<u8>, Vec<u8>)>::empty(),
    {
        Self {
            ino,
            mode,
            nlink: 1,
            uid,
            gid,
            size: 0,
            blocks: 0,
            atime: now,
            mtime: now,
            ctime: now,
            btime: now,
            rdev: 0,
            flags: 0,
            generation: 1,
            data_kind: DataKind::Inline,
            compression: 0,
            inline_data: Vec::new(),
            extents: Vec::new(),
            extent_tree: 0,
            extent_tree_blocks: 0,
            xattr_block: 0,
            xattr: Vec::new(),
        }
    }

    /// A new, empty inode, with all its time stamps at the present time.
    pub fn new(ino: u64, mode: u16, uid: u32, gid: u32) -> (i: Self)
        ensures
            i.ino == ino,
            i.mode == mode,
            i.nlink == 1,
            i.uid == uid,
            i.gid == gid,
            i.size == 0,
            i.blocks == 0,
            i.atime.normal(),
            i.mtime == i.atime,
            i.ctime == i.atime,
            i.btime == i.atime,
            i.rdev == 0,
            i.flags == 0,
            i.generation == 1,
            i.data_kind is Inline,
            i.compression == 0,
            i.inline_data@ == Seq::<u8>::empty(),
            i.extents@ == Seq::<Extent>::empty(),
            i.extent_tree == 0,
            i.extent_tree_blocks == 0,
            i.xattr_block == 0,
            i.xattr@ == Seq::<(Vec<u8>, Vec<u8>)>::empty(),
    {
        Self::new_at(ino, mode, uid, gid, Timespec::now())
    }

    pub fn file_type(&self) -> (ft: FileType)
        ensures
            ft == type_of_mode(self.mode),
    {
        FileType::from_mode(self.mode)
    }

    pub fn is_dir(&self) -> (b: bool)
        ensures
            b == (type_of_mode(self.mode) is Directory),
    {
        self.file_type().is_dir()
    }

    pub fn is_file(&self) -> (b: bool)
        ensures
            b == (type_of_mode(self.mode) is File),
    {
        self.file_type().is_file()
    }

    pub fn is_symlink(&self) -> (b: bool)
        ensures
            b == (type_of_mode(self.mode) is Symlink),
    {
        self.file_type().is_symlink()
    }

    /// Whether file data may stand in compressed records.
    pub open spec fn compresses(self) -> bool {
        self.compression != 0 || self.flags & FLAG_COMPRESSED != 0
    }

    pub fn uses_compression(&self) -> (b: bool)
        ensures
            b == self.compresses(),
    {
        self.compression != 0 || self.flags & FLAG_COMPRESSED != 0
    }

    /// Sets the modification and change times to the present time.
    pub fn touch_mtime(&mut self)
        ensures
            final(self).mtime.normal(),
            *final(self) == (Inode {
                mtime: final(self).mtime,
                ctime: final(self).mtime,
                ..*old(self)
            }),
    {
        let now = Timespec::now();
        self.mtime = now;
        self.ctime = now;
    }

    /// Sets the change time to the present time.
    pub fn touch_ctime(&mut self)
        ensures
            final(self).ctime.normal(),
            *final(self) == (Inode { ctime: final(self).ctime, ..*old(self) }),
    {
        self.ctime = Timespec::now();
    }

    #[verifier::rlimit(40)]
    pub fn encode(&self) -> (buf: Vec<u8>)
        ensures
            buf@ == self@.bytes(),
            buf@.len() == INODE_SIZE,
    {
        proof {
            lemma_le();
        }
        let ghost v = self@;
        let mut buf: Vec<u8> = Vec::new();
        put_u16_vec(&mut buf, self.mode);
        assert(buf@ =~= le16(self.mode));
        put_u32_vec(&mut buf, self.nlink);
        put_u32_vec(&mut buf, self.uid);
        put_u32_vec(&mut buf, self.gid);
        put_u64_vec(&mut buf, self.size);
        put_u64_vec(&mut buf, self.blocks);
        put_u64_vec(&mut buf, self.atime.sec as u64);
        put_u32_vec(&mut buf, self.atime.nsec);
        put_u64_vec(&mut buf, self.mtime.sec as u64);
        put_u32_vec(&mut buf, self.mtime.nsec);
        put_u64_vec(&mut buf, self.ctime.sec as u64);
        put_u32_vec(&mut buf, self.ctime.nsec);
        put_u64_vec(&mut buf, self.btime.sec as u64);
        put_u32_vec(&mut buf, self.btime.nsec);
        put_u64_vec(&mut buf, self.rdev);
        put_u32_vec(&mut buf, self.flags);
        put_u32_vec(&mut buf, self.generation);
        let ghost before = buf@;
        append(&mut buf, &[self.data_kind.as_u8(), self.compression]);
        assert(buf@ =~= before + seq![kind_code(v.data_kind), v.compression]);
        put_u64_vec(&mut buf, self.extent_tree);
        assert(buf@ == v.head_bytes());
        assert(buf@.len() == 104);
        let ghost head = buf@;
        match self.data_kind {
            DataKind::Inline => {
                let n: usize = if self.inline_data.len() <= INLINE_MAX {
                    self.inline_data.len()
                } else {
                    INLINE_MAX
                };
                put_u16_vec(&mut buf, n as u16);
                append(&mut buf, vstd::slice::slice_subrange(self.inline_data.as_slice(), 0, n));
                assert(self.inline_data@.subrange(0, n as int) =~= v.kept_inline());
            },
            DataKind::Extents | DataKind::ExtentTree => {
                let n: usize = if self.extents.len() <= MAX_DIRECT_EXTENTS {
                    self.extents.len()
                } else {
                    MAX_DIRECT_EXTENTS
                };
                put_u16_vec(&mut buf, n as u16);
                put_extents(&mut buf, self.extents.as_slice(), 0, n);
                assert(self.extents@.subrange(0, n as int) =~= v.kept_extents());
                proof {
                    lemma_extents_bytes_len(v.kept_extents());
                }
            },
        }
        assert(buf@ =~= head + v.data_bytes());
        pad_to(&mut buf, 240);
        put_u64_vec(&mut buf, self.xattr_block);
        let ghost part = buf@;
        pad_to(&mut buf, 252);
        assert(buf@ == v.body_bytes());
        let csum = crc32(buf.as_slice());
        put_u32_vec(&mut buf, csum);
        buf
    }

    pub fn decode(ino: u64, buf: &[u8]) -> (r: Result<Self>)
        ensures
            match r {
                Ok(i) => parsed_inode(buf@) == Some(i@) && i.ino == ino && i.extent_tree_blocks
                    == 0 && i.xattr@.len() == 0,
                Err(e) => parsed_inode(buf@) is None && e.is(EIO),
            },
    {
        if buf.len() < INODE_SIZE as usize {
            return Err(eio("inode truncated"));
        }
        let stored = get_u32(buf, 252);
        let calc = crc32(vstd::slice::slice_subrange(buf, 0, 252));
        if stored != calc {
            return Err(eio("inode checksum mismatch"));
        }
        let mode = get_u16(buf, 0);
        if mode == 0 {
            return Err(eio("inode unused"));
        }
        let data_kind = DataKind::from_u8(buf[94]);
        let n: usize = get_u16(buf, 104) as usize;
        let mut inode = Self {
            ino,
            mode,
            nlink: get_u32(buf, 2),
            uid: get_u32(buf, 6),
            gid: get_u32(buf, 10),
            size: get_u64(buf, 14),
            blocks: get_u64(buf, 22),
            atime: Timespec { sec: get_i64(buf, 30), nsec: get_u32(buf, 38) },
            mtime: Timespec { sec: get_i64(buf, 42), nsec: get_u32(buf, 50) },
            ctime: Timespec { sec: get_i64(buf, 54), nsec: get_u32(buf, 62) },
            btime: Timespec { sec: get_i64(buf, 66), nsec: get_u32(buf, 74) },
            rdev: get_u64(buf, 78),
            flags: get_u32(buf, 86),
            generation: get_u32(buf, 90),
            data_kind,
            compression: buf[95],
            inline_data: Vec::new(),
            extents: Vec::new(),
            extent_tree: get_u64(buf, 96),
            extent_tree_blocks: 0,
            xattr_block: get_u64(buf, 240),
            xattr: Vec::new(),
        };
        match data_kind {
            DataKind::Inline => {
                let n: usize = if n <= INLINE_MAX {
                    n
                } else {
                    INLINE_MAX
                };
                inode.inline_data = copy_bytes(vstd::slice::slice_subrange(buf, 106, 106 + n));
            },
            DataKind::Extents | DataKind::ExtentTree => {
                let n: usize = if n <= MAX_DIRECT_EXTENTS {
                    n
                } else {
                    MAX_DIRECT_EXTENTS
                };
                inode.extents = get_extents(buf, 106, n);
            },
        }
        Ok(inode)
    }
}

/// An inode in use is read back from the bytes it is written as, whatever follows them: all its
/// fields, and of its data as much as fits.
#[verifier::rlimit(60)]
pub proof fn inode_roundtrip(v: InodeView, rest: Seq<u8>)
    requires
        v.mode != 0,
    ensures
        v.bytes().len() == INODE_SIZE,
        parsed_inode(v.bytes() + rest) == Some(v.stored()),
{
    lemma_le();
    lemma_extents_bytes_len(v.kept_extents());
    let head = v.head_bytes();
    let data = v.data_bytes();
    let body = v.body_bytes();
    let s = v.bytes() + rest;
    assert(head.len() == 104);
    assert(body.len() == 252);
    assert(s.subrange(0, 252) =~= body);
    assert(s.subrange(252, 256) =~= le32(crc32_of(body)));
    assert forall|a: int, b: int| 0 <= a <= b <= 104 implies #[trigger] s.subrange(a, b)
        == head.subrange(a, b) by {
        assert(s.subrange(a, b) =~= head.subrange(a, b));
    }
    assert(s[94] == head[94] && s[95] == head[95]);
    assert(s.subrange(240, 248) =~= le64(v.xattr_block));
    assert(s.subrange(104, 106) =~= data.subrange(0, 2));
    lemma_inode_head(v);
    let n = if v.data_kind is Inline {
        v.kept_inline().len() as u16
    } else {
        v.kept_extents().len() as u16
    };
    assert(data.subrange(0, 2) =~= le16(n));
    assert(u16_at(s, 104) == n);
    if v.data_kind is Inline {
        assert(s.subrange(106, 106 + n) =~= v.kept_inline());
    } else {
        assert(s.subrange(106, 106 + 20 * n) =~= extents_bytes(v.kept_extents()));
        lemma_extents_at(s, 106, v.kept_extents());
    }
}

#[verifier::rlimit(60)]
proof fn lemma_inode_head(v: InodeView)
    ensures
        ({
            let h = v.head_bytes();
            &&& h.subrange(0, 2) == le16(v.mode)
            &&& h.subrange(2, 6) == le32(v.nlink)
            &&& h.subrange(6, 10) == le32(v.uid)
            &&& h.subrange(10, 14) == le32(v.gid)
            &&& h.subrange(14, 22) == le64(v.size)
            &&& h.subrange(22, 30) == le64(v.blocks)
            &&& h.subrange(30, 38) == le_i64(v.atime.sec)
            &&& h.subrange(38, 42) == le32(v.atime.nsec)
            &&& h.subrange(42, 50) == le_i64(v.mtime.sec)
            &&& h.subrange(50, 54) == le32(v.mtime.nsec)
            &&& h.subrange(54, 62) == le_i64(v.ctime.sec)
            &&& h.subrange(62, 66) == le32(v.ctime.nsec)
            &&& h.subrange(66, 74) == le_i64(v.btime.sec)
            &&& h.subrange(74, 78) == le32(v.btime.nsec)
            &&& h.subrange(78, 86) == le64(v.rdev)
            &&& h.subrange(86, 90) == le32(v.flags)
            &&& h.subrange(90, 94) == le32(v.generation)
            &&& h[94] == kind_code(v.data_kind)
            &&& h[95] == v.compression
            &&& h.subrange(96, 104) == le64(v.extent_tree)
        }),
{
    broadcast use {lemma_concat_front, lemma_concat_field};

    lemma_le();
    let h = v.head_bytes();
    assert(h.subrange(94, 96) == seq![kind_code(v.data_kind), v.compression]);
    assert(h.subrange(94, 96)[0] == h[94]);
    assert(h.subrange(94, 96)[1] == h[95]);
    assert(le16(v.mode).subrange(0, 2) =~= le16(v.mode));
}

/// An inode is no longer found once any one of its bytes has changed.
pub proof fn inode_damage_is_noticed(s: Seq<u8>, k: int, x: u8)
    requires
        parsed_inode(s) is Some,
        0 <= k < INODE_SIZE,
        x != s[k],
    ensures
        parsed_inode(s.update(k, x)) is None,
{
    changed_byte_is_noticed(s, 252, k, x);
}

} // verus!
