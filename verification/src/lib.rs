//! `linuxfile`: a Linux filesystem with `std::fs` semantics, stored in one image.
//!
//! The image grows when data is written and shrinks when trailing space is freed. The API mirrors
//! `std::fs` (`read`, `write`, `OpenOptions`, `rename`, ...), and [`Context`] adds file
//! descriptors, the `*at` calls, `chdir` and `chroot` for a container kernel. With record
//! compression ([`CreateOptions::compression`]) each record is compressed on its own, and stored
//! raw where that would not save a block.
//!
//! A mounted volume is a value of its own: calls on files and contexts take the [`LinuxFile`] that
//! they belong to, and what has to happen to the host file is handed out as a list of operations
//! ([`LinuxFile::take_ops`]). What a call does is stated over [`model::FsView`], the filesystem as
//! a mathematical value: [`ops`] has the operations on inodes, [`calls`] those on paths, and
//! [`laws`] what holds across calls. How a volume stands on disk is stated in [`disk`].

use vstd::prelude::*;

pub mod allocator;
pub mod allocmap;
pub mod attrs;
pub mod blocks;
pub mod bytes;
pub mod cache;
pub mod calls;
pub mod compress;
pub mod confine;
pub mod context;
pub mod crc;
pub mod data;
pub mod dir;
pub mod disk;
pub mod edit;
pub mod entries;
pub mod error;
pub mod extents;
pub mod file;
pub mod flush;
pub mod format;
pub mod fs;
pub mod handles;
pub mod inner;
pub mod inode;
pub mod inspect;
pub mod journal;
pub mod laws;
pub mod layout;
pub mod load;
pub mod metadata;
pub mod model;
pub mod mount;
pub mod names;
pub mod naming;
pub mod open;
pub mod ops;
pub mod options;
pub mod path;
pub mod persist;
pub mod places;
pub mod records;
pub mod recovery;
pub mod reopen;
pub mod rights;
pub mod space;
pub mod store;
pub mod table;
pub mod text;
pub mod tree;
pub mod trees;
pub mod types;
pub mod volume;
pub mod walks;
pub mod xattr;

pub use compress::Compression;
pub use context::Context;
pub use dir::DirEntry;
pub use error::{
    Error, ErrorKind, Result, EACCES, EAGAIN, EBADF, EBUSY, EEXIST, EFBIG, EINVAL, EIO, EISDIR,
    ELOOP, EMLINK, ENOENT, ENOMEM, ENOSPC, ENOTDIR, ENOTEMPTY, ENOTSUP, EPERM, EPIPE, EROFS, EXDEV,
};
pub use file::{File, OpenOptions, ReadDir, SeekFrom};
pub use fs::LinuxFile;
pub use options::{CreateOptions, SyncMode};
pub use path::{UnixPath, UnixPathBuf, NAME_MAX};
pub use store::HostOp;
pub use types::{
    apply_umask, check_access, major, make_dev, minor, Access, Creds, FileTimes, FileType, Metadata,
    Permissions, Stat, StatFs, Timespec, AT_EMPTY_PATH, AT_FDCWD, AT_REMOVEDIR, AT_SYMLINK_FOLLOW,
    AT_SYMLINK_NOFOLLOW, F_OK, MODE_PERM, O_APPEND, O_CLOEXEC, O_CREAT, O_DIRECTORY, O_DSYNC,
    O_EXCL, O_NOATIME, O_NOCTTY, O_NOFOLLOW, O_NONBLOCK, O_PATH, O_RDONLY, O_RDWR, O_SYNC, O_TRUNC,
    O_WRONLY, R_OK, SEEK_CUR, SEEK_DATA, SEEK_END, SEEK_HOLE, SEEK_SET, S_IFBLK, S_IFCHR, S_IFDIR,
    S_IFIFO, S_IFLNK, S_IFMT, S_IFREG, S_IFSOCK, S_IRGRP, S_IROTH, S_IRUSR, S_IRWXG, S_IRWXO,
    S_IRWXU, S_ISGID, S_ISUID, S_ISVTX, S_IWGRP, S_IWOTH, S_IWUSR, S_IXGRP, S_IXOTH, S_IXUSR, W_OK,
    XATTR_CREATE, XATTR_REPLACE, X_OK,
};

verus! {

} // verus!
