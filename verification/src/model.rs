//! The file system as a mathematical value: what the contracts of the operations speak of.

use vstd::prelude::*;

use crate::inode::Inode;
use crate::types::Timespec;
use crate::xattr::XattrView;

verus! {

/// The metadata of a file.
#[derive(Debug, Clone, Copy, PartialEq, Eq, Structural)]
pub struct Meta {
    pub mode: u16,
    pub nlink: u32,
    pub uid: u32,
    pub gid: u32,
    pub rdev: u64,
    /// Algorithm used for new extent-backed writes (`Compression` as a number).
    pub compression: u8,
    pub atime: Timespec,
    pub mtime: Timespec,
    pub ctime: Timespec,
    pub btime: Timespec,
}

/// A file of any type: its metadata, its contents, and its extended attributes. The contents of
/// a directory are its encoded entries; those of a symbolic link are its target.
pub ghost struct Node {
    pub meta: Meta,
    pub data: Seq<u8>,
    pub xattr: XattrView,
}

/// A mounted file system.
pub ghost struct FsView {
    /// The files, by their inode numbers.
    pub nodes: Map<u64, Node>,
    /// Open handles per inode.
    pub opens: Map<u64, u32>,
    /// Inodes without a name that are still open.
    pub orphans: Set<u64>,
    /// Inode numbers to be used again, the next one last.
    pub free_inodes: Seq<u64>,
    /// The inode number after all that were ever used.
    pub next_inode: u64,
    pub writable: bool,
    pub check_perm: bool,
    /// The time that changes are stamped with.
    pub clock: Timespec,
    /// Algorithm for new files.
    pub default_compression: u8,
}

impl FsView {
    /// The same file system at time `t`.
    pub open spec fn at(self, t: Timespec) -> FsView {
        FsView { clock: t, ..self }
    }

    /// The same file system with file `n` under inode number `ino`.
    pub open spec fn with(self, ino: u64, n: Node) -> FsView {
        FsView { nodes: self.nodes.insert(ino, n), ..self }
    }
}

/// `data` after `buf` was written at `off`; a gap before it is filled with zeros.
pub open spec fn overwritten(data: Seq<u8>, off: int, buf: Seq<u8>) -> Seq<u8> {
    let end = off + buf.len();
    Seq::new(
        if data.len() >= end {
            data.len()
        } else {
            end as nat
        },
        |p: int|
            if off <= p < end {
                buf[p - off]
            } else if p < data.len() {
                data[p]
            } else {
                0u8
            },
    )
}

/// Metadata with the modification and change times at `now`.
pub open spec fn modified_at(m: Meta, now: Timespec) -> Meta {
    Meta { mtime: now, ctime: now, ..m }
}

/// Metadata with the change time at `now`.
pub open spec fn changed_at(m: Meta, now: Timespec) -> Meta {
    Meta { ctime: now, ..m }
}

/// The metadata of an inode.
pub open spec fn meta_of(i: Inode) -> Meta {
    Meta {
        mode: i.mode,
        nlink: i.nlink,
        uid: i.uid,
        gid: i.gid,
        rdev: i.rdev,
        compression: i.compression,
        atime: i.atime,
        mtime: i.mtime,
        ctime: i.ctime,
        btime: i.btime,
    }
}

impl Inode {
    /// The metadata of the inode.
    pub fn meta(&self) -> (m: Meta)
        ensures
            m == meta_of(*self),
    {
        Meta {
            mode: self.mode,
            nlink: self.nlink,
            uid: self.uid,
            gid: self.gid,
            rdev: self.rdev,
            compression: self.compression,
            atime: self.atime,
            mtime: self.mtime,
            ctime: self.ctime,
            btime: self.btime,
        }
    }
}

} // verus!
