//! Linux-style errors: an errno, a broad kind and a message.

use vstd::prelude::*;

verus! {

/// Broad classification of an error, with the variants of `std::io::ErrorKind` that the
/// file system distinguishes.
#[derive(Debug, Clone, Copy, PartialEq, Eq, Structural)]
pub enum ErrorKind {
    NotFound,
    PermissionDenied,
    AlreadyExists,
    WouldBlock,
    NotADirectory,
    IsADirectory,
    DirectoryNotEmpty,
    InvalidInput,
    InvalidData,
    InvalidFilename,
    TimedOut,
    WriteZero,
    StorageFull,
    FileTooLarge,
    Interrupted,
    Unsupported,
    UnexpectedEof,
    OutOfMemory,
    BrokenPipe,
    Other,
}

/// File system error with a Linux errno and an [`ErrorKind`].
#[derive(Debug, Clone)]
pub struct Error {
    pub kind: ErrorKind,
    pub errno: i32,
    pub message: Option<String>,
}

/// Result of a file system operation.
pub type Result<T> = std::result::Result<T, Error>;

pub const EPERM: i32 = 1;
pub const ENOENT: i32 = 2;
pub const EIO: i32 = 5;
pub const ENXIO: i32 = 6;
pub const EBADF: i32 = 9;
pub const EAGAIN: i32 = 11;
pub const ENOMEM: i32 = 12;
pub const EACCES: i32 = 13;
pub const EFAULT: i32 = 14;
pub const EBUSY: i32 = 16;
pub const EEXIST: i32 = 17;
pub const EXDEV: i32 = 18;
pub const ENODEV: i32 = 19;
pub const ENOTDIR: i32 = 20;
pub const EISDIR: i32 = 21;
pub const EINVAL: i32 = 22;
pub const ENFILE: i32 = 23;
pub const EMFILE: i32 = 24;
pub const ENOTTY: i32 = 25;
pub const EFBIG: i32 = 27;
pub const ENOSPC: i32 = 28;
pub const ESPIPE: i32 = 29;
pub const EROFS: i32 = 30;
pub const EMLINK: i32 = 31;
pub const EPIPE: i32 = 32;
pub const ERANGE: i32 = 34;
pub const ENAMETOOLONG: i32 = 36;
pub const ENOLCK: i32 = 37;
pub const ENOTEMPTY: i32 = 39;
pub const ELOOP: i32 = 40;
pub const ENOMSG: i32 = 42;
pub const ENODATA: i32 = 61;
pub const ENOATTR: i32 = 61;
pub const EOVERFLOW: i32 = 75;
pub const ENOTSUP: i32 = 95;
pub const EOPNOTSUPP: i32 = 95;

/// The kind that goes with each errno.
pub open spec fn errno_kind(errno: i32) -> ErrorKind {
    if errno == EPERM || errno == EACCES {
        ErrorKind::PermissionDenied
    } else if errno == ENOENT || errno == ENXIO || errno == ENODEV || errno == ENODATA {
        ErrorKind::NotFound
    } else if errno == EBADF || errno == EINVAL || errno == ESPIPE {
        ErrorKind::InvalidInput
    } else if errno == EAGAIN {
        ErrorKind::WouldBlock
    } else if errno == ENOMEM {
        ErrorKind::OutOfMemory
    } else if errno == EEXIST {
        ErrorKind::AlreadyExists
    } else if errno == ENOTDIR {
        ErrorKind::NotADirectory
    } else if errno == EISDIR {
        ErrorKind::IsADirectory
    } else if errno == EFBIG {
        ErrorKind::FileTooLarge
    } else if errno == ENOSPC {
        ErrorKind::StorageFull
    } else if errno == EPIPE {
        ErrorKind::BrokenPipe
    } else if errno == ENAMETOOLONG {
        ErrorKind::InvalidFilename
    } else if errno == ENOTEMPTY {
        ErrorKind::DirectoryNotEmpty
    } else if errno == ELOOP || errno == EOVERFLOW {
        ErrorKind::InvalidData
    } else if errno == ENOTSUP {
        ErrorKind::Unsupported
    } else {
        ErrorKind::Other
    }
}

/// The default message that goes with each errno.
pub open spec fn errno_message(errno: i32) -> Seq<char> {
    if errno == EPERM {
        "operation not permitted"@
    } else if errno == ENOENT {
        "no such file or directory"@
    } else if errno == EIO {
        "input/output error"@
    } else if errno == ENXIO {
        "no such device or address"@
    } else if errno == EBADF {
        "bad file descriptor"@
    } else if errno == EAGAIN {
        "resource temporarily unavailable"@
    } else if errno == ENOMEM {
        "out of memory"@
    } else if errno == EACCES {
        "permission denied"@
    } else if errno == EBUSY {
        "device or resource busy"@
    } else if errno == EEXIST {
        "file exists"@
    } else if errno == EXDEV {
        "invalid cross-device link"@
    } else if errno == ENODEV {
        "no such device"@
    } else if errno == ENOTDIR {
        "not a directory"@
    } else if errno == EISDIR {
        "is a directory"@
    } else if errno == EINVAL {
        "invalid argument"@
    } else if errno == ENFILE {
        "too many open files in system"@
    } else if errno == EMFILE {
        "too many open files"@
    } else if errno == ENOTTY {
        "inappropriate ioctl"@
    } else if errno == EFBIG {
        "file too large"@
    } else if errno == ENOSPC {
        "no space left on device"@
    } else if errno == ESPIPE {
        "illegal seek"@
    } else if errno == EROFS {
        "read-only file system"@
    } else if errno == EMLINK {
        "too many links"@
    } else if errno == EPIPE {
        "broken pipe"@
    } else if errno == ENAMETOOLONG {
        "file name too long"@
    } else if errno == ENOTEMPTY {
        "directory not empty"@
    } else if errno == ELOOP {
        "too many levels of symbolic links"@
    } else if errno == EOVERFLOW {
        "value too large"@
    } else if errno == ENOTSUP {
        "operation not supported"@
    } else if errno == ENODATA {
        "no data available"@
    } else {
        "filesystem error"@
    }
}

/// The errno that stands for a kind reported by the host.
pub open spec fn kind_errno(kind: ErrorKind) -> i32 {
    match kind {
        ErrorKind::NotFound => ENOENT,
        ErrorKind::PermissionDenied => EACCES,
        ErrorKind::AlreadyExists => EEXIST,
        ErrorKind::WouldBlock => EAGAIN,
        ErrorKind::InvalidInput => EINVAL,
        ErrorKind::InvalidData => EINVAL,
        ErrorKind::TimedOut => EAGAIN,
        ErrorKind::WriteZero => EIO,
        ErrorKind::Interrupted => EAGAIN,
        ErrorKind::Unsupported => ENOTSUP,
        ErrorKind::UnexpectedEof => EIO,
        ErrorKind::OutOfMemory => ENOMEM,
        ErrorKind::BrokenPipe => EPIPE,
        _ => EIO,
    }
}

impl Error {
    /// The error carries `errno`, and the kind that goes with it.
    pub open spec fn is(self, errno: i32) -> bool {
        self.errno == errno && self.kind == errno_kind(errno)
    }

    pub fn new(kind: ErrorKind, errno: i32, message: &str) -> (e: Self)
        ensures
            e.kind == kind,
            e.errno == errno,
            e.message is Some,
            e.message->0@ == message@,
    {
        Self { kind, errno, message: Some(message.to_owned()) }
    }

    /// An error with the kind and the default message of `errno`.
    pub fn from_errno(errno: i32) -> (e: Self)
        ensures
            e.is(errno),
            e.message is Some,
            e.message->0@ == errno_message(errno),
    {
        let (kind, default) = errno_info(errno);
        Self { kind, errno, message: Some(default.to_owned()) }
    }

    /// The error for a failure that the host reported with `kind` and `message`.
    pub fn from_host(kind: ErrorKind, message: &str) -> (e: Self)
        ensures
            e.kind == kind,
            e.errno == kind_errno(kind),
            e.message is Some,
            e.message->0@ == message@,
    {
        Self { kind, errno: kind_to_errno(kind), message: Some(message.to_owned()) }
    }

    pub fn kind(&self) -> (k: ErrorKind)
        ensures
            k == self.kind,
    {
        self.kind
    }

    /// Linux errno value (`ENOENT`, `EEXIST`, ...).
    pub fn errno(&self) -> (n: i32)
        ensures
            n == self.errno,
    {
        self.errno
    }

    pub fn is_not_found(&self) -> (b: bool)
        ensures
            b == (self.errno == ENOENT),
    {
        self.errno == ENOENT
    }

    pub fn is_exists(&self) -> (b: bool)
        ensures
            b == (self.errno == EEXIST),
    {
        self.errno == EEXIST
    }
}

pub fn errno_info(errno: i32) -> (r: (ErrorKind, &'static str))
    ensures
        r.0 == errno_kind(errno),
        r.1@ == errno_message(errno),
{
    match errno {
        EPERM => (ErrorKind::PermissionDenied, "operation not permitted"),
        ENOENT => (ErrorKind::NotFound, "no such file or directory"),
        EIO => (ErrorKind::Other, "input/output error"),
        ENXIO => (ErrorKind::NotFound, "no such device or address"),
        EBADF => (ErrorKind::InvalidInput, "bad file descriptor"),
        EAGAIN => (ErrorKind::WouldBlock, "resource temporarily unavailable"),
        ENOMEM => (ErrorKind::OutOfMemory, "out of memory"),
        EACCES => (ErrorKind::PermissionDenied, "permission denied"),
        EBUSY => (ErrorKind::Other, "device or resource busy"),
        EEXIST => (ErrorKind::AlreadyExists, "file exists"),
        EXDEV => (ErrorKind::Other, "invalid cross-device link"),
        ENODEV => (ErrorKind::NotFound, "no such device"),
        ENOTDIR => (ErrorKind::NotADirectory, "not a directory"),
        EISDIR => (ErrorKind::IsADirectory, "is a directory"),
        EINVAL => (ErrorKind::InvalidInput, "invalid argument"),
        ENFILE => (ErrorKind::Other, "too many open files in system"),
        EMFILE => (ErrorKind::Other, "too many open files"),
        ENOTTY => (ErrorKind::Other, "inappropriate ioctl"),
        EFBIG => (ErrorKind::FileTooLarge, "file too large"),
        ENOSPC => (ErrorKind::StorageFull, "no space left on device"),
        ESPIPE => (ErrorKind::InvalidInput, "illegal seek"),
        EROFS => (ErrorKind::Other, "read-only file system"),
        EMLINK => (ErrorKind::Other, "too many links"),
        EPIPE => (ErrorKind::BrokenPipe, "broken pipe"),
        ENAMETOOLONG => (ErrorKind::InvalidFilename, "file name too long"),
        ENOTEMPTY => (ErrorKind::DirectoryNotEmpty, "directory not empty"),
        ELOOP => (ErrorKind::InvalidData, "too many levels of symbolic links"),
        EOVERFLOW => (ErrorKind::InvalidData, "value too large"),
        ENOTSUP => (ErrorKind::Unsupported, "operation not supported"),
        ENODATA => (ErrorKind::NotFound, "no data available"),
        _ => (ErrorKind::Other, "filesystem error"),
    }
}

pub fn kind_to_errno(kind: ErrorKind) -> (n: i32)
    ensures
        n == kind_errno(kind),
{
    match kind {
        ErrorKind::NotFound => ENOENT,
        ErrorKind::PermissionDenied => EACCES,
        ErrorKind::AlreadyExists => EEXIST,
        ErrorKind::WouldBlock => EAGAIN,
        ErrorKind::InvalidInput => EINVAL,
        ErrorKind::InvalidData => EINVAL,
        ErrorKind::TimedOut => EAGAIN,
        ErrorKind::WriteZero => EIO,
        ErrorKind::Interrupted => EAGAIN,
        ErrorKind::Unsupported => ENOTSUP,
        ErrorKind::UnexpectedEof => EIO,
        ErrorKind::OutOfMemory => ENOMEM,
        ErrorKind::BrokenPipe => EPIPE,
        _ => EIO,
    }
}

pub fn enoent(msg: &str) -> (e: Error)
    ensures
        e.is(ENOENT),
        e.message is Some,
        e.message->0@ == msg@,
{
    Error::new(ErrorKind::NotFound, ENOENT, msg)
}

pub fn eexist(msg: &str) -> (e: Error)
    ensures
        e.is(EEXIST),
        e.message is Some,
        e.message->0@ == msg@,
{
    Error::new(ErrorKind::AlreadyExists, EEXIST, msg)
}

pub fn einval(msg: &str) -> (e: Error)
    ensures
        e.is(EINVAL),
        e.message is Some,
        e.message->0@ == msg@,
{
    Error::new(ErrorKind::InvalidInput, EINVAL, msg)
}

pub fn eio(msg: &str) -> (e: Error)
    ensures
        e.is(EIO),
        e.message is Some,
        e.message->0@ == msg@,
{
    Error::new(ErrorKind::Other, EIO, msg)
}

pub fn enotdir(msg: &str) -> (e: Error)
    ensures
        e.is(ENOTDIR),
        e.message is Some,
        e.message->0@ == msg@,
{
    Error::new(ErrorKind::NotADirectory, ENOTDIR, msg)
}

pub fn eisdir(msg: &str) -> (e: Error)
    ensures
        e.is(EISDIR),
        e.message is Some,
        e.message->0@ == msg@,
{
    Error::new(ErrorKind::IsADirectory, EISDIR, msg)
}

pub fn enospc() -> (e: Error)
    ensures
        e.is(ENOSPC),
        e.message is Some,
        e.message->0@ == errno_message(ENOSPC),
{
    Error::from_errno(ENOSPC)
}

pub fn eacces(msg: &str) -> (e: Error)
    ensures
        e.is(EACCES),
        e.message is Some,
        e.message->0@ == msg@,
{
    Error::new(ErrorKind::PermissionDenied, EACCES, msg)
}

pub fn eperm(msg: &str) -> (e: Error)
    ensures
        e.is(EPERM),
        e.message is Some,
        e.message->0@ == msg@,
{
    Error::new(ErrorKind::PermissionDenied, EPERM, msg)
}

pub fn ebadf() -> (e: Error)
    ensures
        e.is(EBADF),
        e.message is Some,
        e.message->0@ == errno_message(EBADF),
{
    Error::from_errno(EBADF)
}

pub fn eloop() -> (e: Error)
    ensures
        e.is(ELOOP),
        e.message is Some,
        e.message->0@ == errno_message(ELOOP),
{
    Error::from_errno(ELOOP)
}

pub fn enametoolong() -> (e: Error)
    ensures
        e.is(ENAMETOOLONG),
        e.message is Some,
        e.message->0@ == errno_message(ENAMETOOLONG),
{
    Error::from_errno(ENAMETOOLONG)
}

pub fn enotempty() -> (e: Error)
    ensures
        e.is(ENOTEMPTY),
        e.message is Some,
        e.message->0@ == errno_message(ENOTEMPTY),
{
    Error::from_errno(ENOTEMPTY)
}

pub fn enotsup(msg: &str) -> (e: Error)
    ensures
        e.is(ENOTSUP),
        e.message is Some,
        e.message->0@ == msg@,
{
    Error::new(ErrorKind::Unsupported, ENOTSUP, msg)
}

pub fn ebusy(msg: &str) -> (e: Error)
    ensures
        e.is(EBUSY),
        e.message is Some,
        e.message->0@ == msg@,
{
    Error::new(ErrorKind::Other, EBUSY, msg)
}

} // verus!
